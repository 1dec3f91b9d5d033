//! What discovery decides about one tree entry before and after it reads the
//! blob, what it can leave a document side behind without failing the run,
//! and the coordinates an Antora resource ID is spelled with.

pub mod batch;
pub mod walk;

use crate::document::{excluded_by_built_in, excluded_by_built_in_spec, Adapter};
use crate::lfs::{is_pointer, is_pointer_spec};
use crate::text::{chars_of, find, find_char, lemma_find, text_of};
use vstd::prelude::*;

verus! {

/// The deliberate object and format boundaries a discovered document side can
/// sit behind without failing the run.
#[derive(Clone, Copy, Debug, PartialEq, Eq, Structural)]
pub enum UnsupportedKind {
    Symlink,
    Gitlink,
    LfsPointer,
    Format,
    Undecodable,
    Unparsable,
    Ceiling,
}

/// The kind of object a tree entry names.
#[derive(Clone, Copy, Debug, PartialEq, Eq, Structural)]
pub enum GitMode {
    RegularFile,
    ExecutableFile,
    Symlink,
    Gitlink,
    Tree,
}

/// What discovery does with one selected entry before reading anything.
#[derive(Clone, Copy, Debug, PartialEq, Eq, Structural)]
pub enum EntryGate {
    /// Under an excluded tree that no policy include brings back.
    ExcludedBuiltIn,
    /// An object that is never read.
    Unsupported(UnsupportedKind),
    /// A tree where a blob was expected: the object cannot be trusted.
    NotABlob,
    /// A blob to read under the document cap.
    Read,
}

/// Exclusion is decided before any read, and a symlink or gitlink is never
/// read.
pub open spec fn entry_gate_of(path: Seq<u8>, included: bool, mode: GitMode) -> EntryGate {
    if excluded_by_built_in_spec(path) && !included {
        EntryGate::ExcludedBuiltIn
    } else {
        match mode {
            GitMode::Symlink => EntryGate::Unsupported(UnsupportedKind::Symlink),
            GitMode::Gitlink => EntryGate::Unsupported(UnsupportedKind::Gitlink),
            GitMode::Tree => EntryGate::NotABlob,
            GitMode::RegularFile | GitMode::ExecutableFile => EntryGate::Read,
        }
    }
}

/// What discovery does with one selected entry before reading anything;
/// `included` says whether a policy include matches the path.
pub fn entry_gate(path: &[u8], included: bool, mode: GitMode) -> (g: EntryGate)
    ensures
        g == entry_gate_of(path@, included, mode),
{
    if excluded_by_built_in(path) && !included {
        return EntryGate::ExcludedBuiltIn;
    }
    match mode {
        GitMode::Symlink => EntryGate::Unsupported(UnsupportedKind::Symlink),
        GitMode::Gitlink => EntryGate::Unsupported(UnsupportedKind::Gitlink),
        GitMode::Tree => EntryGate::NotABlob,
        GitMode::RegularFile | GitMode::ExecutableFile => EntryGate::Read,
    }
}

/// What a read blob becomes: pointer content is unsupported, as is a blob no
/// reader is bound to; anything else is scanned by its reader.
pub open spec fn blob_verdict_of(body: Seq<u8>, adapter: Option<Adapter>) -> Result<Adapter, UnsupportedKind> {
    if is_pointer_spec(body) {
        Err(UnsupportedKind::LfsPointer)
    } else {
        match adapter {
            None => Err(UnsupportedKind::Format),
            Some(a) => Ok(a),
        }
    }
}

/// What a read blob becomes: the reader to scan it with, or why it is left
/// unsupported.
pub fn blob_verdict(body: &[u8], adapter: Option<Adapter>) -> (r: Result<Adapter, UnsupportedKind>)
    ensures
        r == blob_verdict_of(body@, adapter),
{
    if is_pointer(body) {
        return Err(UnsupportedKind::LfsPointer);
    }
    match adapter {
        None => Err(UnsupportedKind::Format),
        Some(a) => Ok(a),
    }
}

/// What a defect met while reading one document side is about.
#[derive(Clone, Copy, Debug, PartialEq, Eq, Structural)]
pub enum DefectKind {
    /// The bytes are not valid text.
    DocumentInvalid,
    /// The reader could not parse the document.
    DocumentUnparsable,
    /// The reader broke its own contract.
    ParserError,
    /// The reader panicked.
    ParserPanic,
    /// The reader reported a span outside the document.
    InvalidSourceSpan,
    /// A resource limit was crossed.
    ResourceLimit,
    /// The object store could not produce or trust an object.
    Git,
    /// A path cannot be represented.
    UnrepresentablePath,
    /// An invariant of this engine was broken.
    Internal,
}

/// A defect, and whether it concerns one document alone rather than the run.
#[derive(Clone, Copy, Debug, PartialEq, Eq, Structural)]
pub struct Defect {
    pub kind: DefectKind,
    pub document_scoped: bool,
}

/// Where a document side ends up.
#[derive(Clone, Copy, Debug, PartialEq, Eq, Structural)]
pub enum SideStatus {
    ExcludedBuiltIn,
    Unsupported(UnsupportedKind),
    Failed(DefectKind),
    Scanned,
}

/// What a defect makes of a document: a defect scoped to the document leaves
/// it undecodable, unparsable or over its ceiling where the defect says so,
/// and failed otherwise; any other defect fails the run.
pub open spec fn document_outcome_of(d: Defect) -> Result<SideStatus, DefectKind> {
    if !d.document_scoped {
        Err(d.kind)
    } else {
        match d.kind {
            DefectKind::DocumentInvalid => Ok(SideStatus::Unsupported(UnsupportedKind::Undecodable)),
            DefectKind::DocumentUnparsable => Ok(SideStatus::Unsupported(UnsupportedKind::Unparsable)),
            DefectKind::ResourceLimit => Ok(SideStatus::Unsupported(UnsupportedKind::Ceiling)),
            _ => Ok(SideStatus::Failed(d.kind)),
        }
    }
}

/// What a defect makes of a document.
pub fn document_outcome(d: Defect) -> (r: Result<SideStatus, DefectKind>)
    ensures
        r == document_outcome_of(d),
{
    if !d.document_scoped {
        return Err(d.kind);
    }
    match d.kind {
        DefectKind::DocumentInvalid => Ok(SideStatus::Unsupported(UnsupportedKind::Undecodable)),
        DefectKind::DocumentUnparsable => Ok(SideStatus::Unsupported(UnsupportedKind::Unparsable)),
        DefectKind::ResourceLimit => Ok(SideStatus::Unsupported(UnsupportedKind::Ceiling)),
        _ => Ok(SideStatus::Failed(d.kind)),
    }
}

/// What happened at each step of reading one document side, as far as the
/// side got: whether its admission, its byte charge and its scan (or, for a
/// blob the other side already scanned, the replay of that scan's charges)
/// failed, whether such a scan was on hand, and what the read gave.
pub struct SideSteps {
    pub admission: Option<Defect>,
    pub memo: bool,
    pub read: Result<Vec<u8>, Defect>,
    pub charge: Option<Defect>,
    pub scan: Option<Defect>,
}

/// Where one selected entry ends up, and whether the run fails on it.
/// Exclusion is decided before any read and a symlink or gitlink is never
/// read; a tree where a blob was expected fails the run; a blob is admitted,
/// then taken from a scan the other side made or read, charged, checked for
/// pointer content and a bound reader, and scanned. A failed admission or
/// charge fails the run; a failed read or scan is judged by what it is about.
pub open spec fn side_status_of(path: Seq<u8>, included: bool, mode: GitMode, adapter: Option<Adapter>, s: SideSteps) -> Result<SideStatus, DefectKind> {
    match entry_gate_of(path, included, mode) {
        EntryGate::ExcludedBuiltIn => Ok(SideStatus::ExcludedBuiltIn),
        EntryGate::Unsupported(k) => Ok(SideStatus::Unsupported(k)),
        EntryGate::NotABlob => Err(DefectKind::Git),
        EntryGate::Read => match s.admission {
            Some(d) => Err(d.kind),
            None => if s.memo {
                match s.charge {
                    Some(d) => Err(d.kind),
                    None => match s.scan {
                        Some(d) => document_outcome_of(d),
                        None => Ok(SideStatus::Scanned),
                    },
                }
            } else {
                match s.read {
                    Err(d) => document_outcome_of(d),
                    Ok(body) => match s.charge {
                        Some(d) => Err(d.kind),
                        None => match blob_verdict_of(body@, adapter) {
                            Err(k) => Ok(SideStatus::Unsupported(k)),
                            Ok(_) => match s.scan {
                                Some(d) => document_outcome_of(d),
                                None => Ok(SideStatus::Scanned),
                            },
                        },
                    },
                }
            },
        },
    }
}

/// Where one selected entry ends up, from what each step of reading it gave.
pub fn side_status(path: &[u8], included: bool, mode: GitMode, adapter: Option<Adapter>, s: &SideSteps) -> (r: Result<SideStatus, DefectKind>)
    ensures
        r == side_status_of(path@, included, mode, adapter, *s),
{
    match entry_gate(path, included, mode) {
        EntryGate::ExcludedBuiltIn => {
            return Ok(SideStatus::ExcludedBuiltIn);
        },
        EntryGate::Unsupported(k) => {
            return Ok(SideStatus::Unsupported(k));
        },
        EntryGate::NotABlob => {
            return Err(DefectKind::Git);
        },
        EntryGate::Read => {},
    }
    if let Some(d) = s.admission {
        return Err(d.kind);
    }
    if !s.memo {
        let body = match &s.read {
            Err(d) => {
                return document_outcome(*d);
            },
            Ok(body) => body,
        };
        if let Some(d) = s.charge {
            return Err(d.kind);
        }
        if let Err(k) = blob_verdict(body.as_slice(), adapter) {
            return Ok(SideStatus::Unsupported(k));
        }
    } else if let Some(d) = s.charge {
        return Err(d.kind);
    }
    match s.scan {
        Some(d) => document_outcome(d),
        None => Ok(SideStatus::Scanned),
    }
}

/// An Antora resource ID split at its coordinates,
/// `[version@][component:][module:][family$]relative`. A component coordinate
/// with an empty module, `component::page.adoc`, names its `ROOT` module.
pub struct Coordinate {
    pub version: Option<String>,
    pub component: Option<String>,
    pub module: Option<String>,
    pub resource: String,
}

/// A coordinate as values.
pub struct CoordinateView {
    pub version: Option<Seq<char>>,
    pub component: Option<Seq<char>>,
    pub module: Option<Seq<char>>,
    pub resource: Seq<char>,
}

/// The view of an optional string.
pub open spec fn opt_view(o: Option<String>) -> Option<Seq<char>> {
    match o {
        Some(s) => Some(s@),
        None => None,
    }
}

impl View for Coordinate {
    type V = CoordinateView;

    open spec fn view(&self) -> CoordinateView {
        CoordinateView {
            version: opt_view(self.version),
            component: opt_view(self.component),
            module: opt_view(self.module),
            resource: self.resource@,
        }
    }
}

/// `s` split at its first `c`, if it holds one.
pub open spec fn split_once(s: Seq<char>, c: char) -> Option<(Seq<char>, Seq<char>)> {
    let k = find(s, 0, s.len() as int, c);
    if k < s.len() {
        Some((s.take(k), s.skip(k + 1)))
    } else {
        None
    }
}

/// A coordinate that is absent, or a non-empty name with no `/` or `:`.
pub open spec fn named(o: Option<Seq<char>>) -> bool {
    match o {
        None => true,
        Some(n) => n.len() > 0 && !n.contains('/') && !n.contains(':'),
    }
}

/// The coordinates of a resource ID: the version before the first `@`, then
/// up to three `:`-separated parts, the last the resource; `None` when a
/// coordinate is empty or holds a `/` or `:`. An empty module counts as none.
pub open spec fn coordinate_spec(path_part: Seq<char>) -> Option<CoordinateView> {
    let (version, rest) = match split_once(path_part, '@') {
        Some((v, r)) => (Some(v), r),
        None => (None, path_part),
    };
    let (component, module, resource) = match split_once(rest, ':') {
        None => (None, None, rest),
        Some((x, after)) => match split_once(after, ':') {
            None => (None, Some(x), after),
            Some((y, r)) => (Some(x), Some(y), r),
        },
    };
    let kept_module = match module {
        Some(m) => if m.len() > 0 {
            Some(m)
        } else {
            None
        },
        None => None,
    };
    if named(version) && named(component) && named(kept_module) && (component is None
        || module is Some) {
        Some(CoordinateView { version, component, module: kept_module, resource })
    } else {
        None
    }
}

/// `s` split at its first `c`.
fn split_at_first(s: &Vec<char>, c: char) -> (r: Option<(Vec<char>, Vec<char>)>)
    ensures
        match r {
            Some((a, b)) => split_once(s@, c) == Some((a@, b@)),
            None => split_once(s@, c) is None,
        },
{
    let k = find_char(s.as_slice(), 0, s.len(), c);
    if k < s.len() {
        let a = crate::text::copy_range(s.as_slice(), 0, k);
        let b = crate::text::copy_range(s.as_slice(), k + 1, s.len());
        assert(a@ =~= s@.take(k as int));
        assert(b@ =~= s@.skip(k + 1));
        Some((a, b))
    } else {
        None
    }
}

/// Whether a present coordinate is a name.
fn is_named(n: &Vec<char>) -> (b: bool)
    ensures
        b == named(Some(n@)),
{
    if n.len() == 0 {
        return false;
    }
    let mut k: usize = 0;
    while k < n.len()
        invariant
            k <= n@.len(),
            forall|m: int| 0 <= m < k ==> n@[m] != '/' && n@[m] != ':',
        decreases n@.len() - k,
    {
        if n[k] == '/' || n[k] == ':' {
            assert(n@.contains(n@[k as int]));
            return false;
        }
        k = k + 1;
    }
    true
}

/// The whole of a character vector as a string.
fn string_of(v: &Vec<char>) -> (s: String)
    ensures
        s@ == v@,
{
    let s = text_of(v.as_slice(), 0, v.len());
    assert(v@.subrange(0, v@.len() as int) =~= v@);
    s
}

/// Splits an Antora resource ID at its coordinates.
pub fn coordinate(path_part: &str) -> (r: Option<Coordinate>)
    ensures
        match r {
            Some(c) => coordinate_spec(path_part@) == Some(c@),
            None => coordinate_spec(path_part@) is None,
        },
{
    let whole = chars_of(path_part);
    let (version, rest) = match split_at_first(&whole, '@') {
        Some((v, r)) => (Some(v), r),
        None => (None, whole),
    };
    let (component, module, resource) = match split_at_first(&rest, ':') {
        None => (None, None, rest),
        Some((x, after)) => match split_at_first(&after, ':') {
            None => (None, Some(x), after),
            Some((y, r)) => (Some(x), Some(y), r),
        },
    };
    let module_present = module.is_some();
    let kept_module = match module {
        Some(m) => if m.len() > 0 {
            Some(m)
        } else {
            None
        },
        None => None,
    };
    let version_named = match &version {
        Some(v) => is_named(v),
        None => true,
    };
    let component_named = match &component {
        Some(c) => is_named(c),
        None => true,
    };
    let module_named = match &kept_module {
        Some(m) => is_named(m),
        None => true,
    };
    if !(version_named && component_named && module_named && (component.is_none()
        || module_present)) {
        return None;
    }
    let version = match version {
        Some(v) => Some(string_of(&v)),
        None => None,
    };
    let component = match component {
        Some(c) => Some(string_of(&c)),
        None => None,
    };
    let module = match kept_module {
        Some(m) => Some(string_of(&m)),
        None => None,
    };
    Some(Coordinate { version, component, module, resource: string_of(&resource) })
}

} // verus!

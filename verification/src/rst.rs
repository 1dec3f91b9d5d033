//! A reStructuredText reader: the hyperlink targets, file-naming directives,
//! Sphinx roles, section titles and labels one document holds. The
//! specification's own reference vocabulary is small: hyperlink targets and
//! four directives that name a file. Roles are an open extension point, so an
//! unregistered one is declared rather than guessed at.

pub mod analysis;
pub mod block;
pub mod directive;
pub mod extract;
pub mod label;
pub mod read;

pub use analysis::analyze;
pub use block::{blocks, Block, Kind};
pub use directive::{references, target_definition, title_underline};
pub use extract::extract;

use vstd::prelude::*;

use crate::text::{chars_of, is_space, space};
use crate::unicode::{lowercase, to_lowercase};

verus! {

/// How a transcluding directive renders what it names: as
/// reStructuredText, or as a literal block.
#[derive(Clone, Copy, Debug, PartialEq, Eq, Structural)]
pub enum TransclusionKind {
    Parsed,
    Literal,
}

/// Why a transclusion cannot be followed: it sits inside other content, or
/// carries options that change what it renders.
#[derive(Clone, Copy, Debug, PartialEq, Eq, Structural)]
pub enum TransclusionRefusal {
    Context,
    Options,
}

/// The reference forms the specification defines, plus the Sphinx roles that
/// name a document, a file or a label. `:doc:`, `:download:`, `:ref:` and
/// `:numref:` are modelled by name; every other role stays an open extension
/// point, declared rather than guessed at.
#[derive(Clone, Copy, Debug, PartialEq, Eq, Structural)]
pub enum ReferenceKind {
    InlineHyperlink,
    NamedTarget,
    Image,
    Include,
    FileOption,
    DocRole,
    DownloadRole,
    RefRole,
    NumrefRole,
    TermRole,
    TocTreeEntry,
    TargetOption,
}

/// The spelling each reference form is reported under.
pub open spec fn kind_spelling(kind: ReferenceKind) -> Seq<char> {
    match kind {
        ReferenceKind::InlineHyperlink => "rst-inline-hyperlink"@,
        ReferenceKind::NamedTarget => "rst-named-target"@,
        ReferenceKind::Image => "rst-image-directive"@,
        ReferenceKind::Include => "rst-include-directive"@,
        ReferenceKind::FileOption => "rst-file-option"@,
        ReferenceKind::DocRole => "rst-doc-role"@,
        ReferenceKind::DownloadRole => "rst-download-role"@,
        ReferenceKind::RefRole => "rst-ref-role"@,
        ReferenceKind::TermRole => "rst-term-role"@,
        ReferenceKind::NumrefRole => "rst-numref-role"@,
        ReferenceKind::TocTreeEntry => "rst-toctree-entry"@,
        ReferenceKind::TargetOption => "rst-target-option"@,
    }
}

/// The length of a spelling and its fifth and sixth characters, which tell
/// any two spellings apart.
spec fn spelling_shape(kind: ReferenceKind) -> (nat, char, char) {
    match kind {
        ReferenceKind::InlineHyperlink => (20, 'i', 'n'),
        ReferenceKind::NamedTarget => (16, 'n', 'a'),
        ReferenceKind::Image => (19, 'i', 'm'),
        ReferenceKind::Include => (21, 'i', 'n'),
        ReferenceKind::FileOption => (15, 'f', 'i'),
        ReferenceKind::DocRole => (12, 'd', 'o'),
        ReferenceKind::DownloadRole => (17, 'd', 'o'),
        ReferenceKind::RefRole => (12, 'r', 'e'),
        ReferenceKind::TermRole => (13, 't', 'e'),
        ReferenceKind::NumrefRole => (15, 'n', 'u'),
        ReferenceKind::TocTreeEntry => (17, 't', 'o'),
        ReferenceKind::TargetOption => (17, 't', 'a'),
    }
}

/// The reference vocabulary is distinct and names one image: no two forms
/// share a spelling, no spelling is empty, and only the image directive is an
/// image.
pub proof fn lemma_reference_vocabulary(a: ReferenceKind, b: ReferenceKind)
    ensures
        a != b ==> kind_spelling(a) != kind_spelling(b),
        kind_spelling(a).len() > 0,
        (a == ReferenceKind::Image) <==> kind_spelling(a) == kind_spelling(ReferenceKind::Image),
{
    reveal_strlit("rst-inline-hyperlink");
    reveal_strlit("rst-named-target");
    reveal_strlit("rst-image-directive");
    reveal_strlit("rst-include-directive");
    reveal_strlit("rst-file-option");
    reveal_strlit("rst-doc-role");
    reveal_strlit("rst-download-role");
    reveal_strlit("rst-ref-role");
    reveal_strlit("rst-term-role");
    reveal_strlit("rst-numref-role");
    reveal_strlit("rst-toctree-entry");
    reveal_strlit("rst-target-option");
    assert(kind_spelling(a).len() == spelling_shape(a).0 && kind_spelling(a)[4] == spelling_shape(a).1
        && kind_spelling(a)[5] == spelling_shape(a).2);
    assert(kind_spelling(b).len() == spelling_shape(b).0 && kind_spelling(b)[4] == spelling_shape(b).1
        && kind_spelling(b)[5] == spelling_shape(b).2);
    assert(a != b ==> spelling_shape(a) != spelling_shape(b));
}

impl ReferenceKind {
    /// The name this form is reported under.
    pub fn as_str(self) -> (name: &'static str)
        ensures
            name@ == kind_spelling(self),
    {
        match self {
            Self::InlineHyperlink => "rst-inline-hyperlink",
            Self::NamedTarget => "rst-named-target",
            Self::Image => "rst-image-directive",
            Self::Include => "rst-include-directive",
            Self::FileOption => "rst-file-option",
            Self::DocRole => "rst-doc-role",
            Self::DownloadRole => "rst-download-role",
            Self::RefRole => "rst-ref-role",
            Self::TermRole => "rst-term-role",
            Self::NumrefRole => "rst-numref-role",
            Self::TocTreeEntry => "rst-toctree-entry",
            Self::TargetOption => "rst-target-option",
        }
    }

    /// Whether this form names an image.
    pub fn is_image(self) -> (b: bool)
        ensures
            b == (self == ReferenceKind::Image),
    {
        matches!(self, Self::Image)
    }
}

/// One recognised reference, with the exact source text of its target and the
/// part of that target a `literalinclude` option selects, spelled as the line
/// or object fragment the resolver reads.
#[derive(Debug, PartialEq, Eq)]
pub struct Reference {
    pub kind: ReferenceKind,
    pub target: String,
    pub selection: Option<String>,
    pub span: (usize, usize),
    pub block: usize,
    pub block_span: (usize, usize),
    pub transclusion: Option<Result<TransclusionKind, TransclusionRefusal>>,
}

/// A reference with its strings read as character sequences.
pub struct ReferenceView {
    pub kind: ReferenceKind,
    pub target: Seq<char>,
    pub selection: Option<Seq<char>>,
    pub span: (usize, usize),
    pub block: usize,
    pub block_span: (usize, usize),
    pub transclusion: Option<Result<TransclusionKind, TransclusionRefusal>>,
}

pub open spec fn option_view(s: Option<String>) -> Option<Seq<char>> {
    match s {
        Some(s) => Some(s@),
        None => None,
    }
}

impl View for Reference {
    type V = ReferenceView;

    open spec fn view(&self) -> ReferenceView {
        ReferenceView {
            kind: self.kind,
            target: self.target@,
            selection: option_view(self.selection),
            span: self.span,
            block: self.block,
            block_span: self.block_span,
            transclusion: self.transclusion,
        }
    }
}

/// The views of a list of references.
pub open spec fn views(r: Seq<Reference>) -> Seq<ReferenceView> {
    r.map_values(|x: Reference| x@)
}

/// One section title. Its level comes from the order its underline character
/// first appears in the document, which is how the specification defines the
/// hierarchy.
#[derive(Debug, PartialEq, Eq)]
pub struct Title {
    pub level: usize,
    pub text: String,
    pub span: (usize, usize),
}

/// One recognized governed carrier: its span, then label, url, and title.
#[derive(Debug, PartialEq, Eq)]
pub struct GovernedCarrier {
    pub span: (usize, usize),
    pub label: String,
    pub url: String,
    pub title: String,
}

/// Everything one reStructuredText scan yields.
#[derive(Debug, PartialEq, Eq)]
pub struct Extraction {
    pub references: Vec<Reference>,
    pub titles: Vec<Title>,
    pub governed: Vec<GovernedCarrier>,
    pub anchors: Vec<String>,
    pub opaque: Vec<(usize, usize)>,
    pub blocks: usize,
    pub nesting: usize,
}

/// The reasons a document is refused before anything is extracted.
#[derive(Clone, Copy, Debug, PartialEq, Eq, Structural)]
pub enum Refusal {
    NotUtf8,
}


/// The words of `s` from index `i` on, joined by single spaces after what is
/// already `out`: `gap` says whitespace has been seen since the last word.
pub open spec fn collapse_from(s: Seq<char>, i: int, out: Seq<char>, gap: bool) -> Seq<char>
    decreases s.len() - i,
{
    if i >= s.len() {
        out
    } else if is_space(s[i]) {
        collapse_from(s, i + 1, out, true)
    } else if out.len() > 0 && gap {
        collapse_from(s, i + 1, out.push(' ').push(s[i]), false)
    } else {
        collapse_from(s, i + 1, out.push(s[i]), false)
    }
}

/// The whitespace-separated words of `s`, joined by single spaces.
pub open spec fn collapse(s: Seq<char>) -> Seq<char> {
    collapse_from(s, 0, Seq::empty(), false)
}

/// The Docutils simple-name normalization Sphinx stores labels under:
/// case-folded, with internal whitespace runs collapsed to one space.
pub fn normalized_label(label: &str) -> (r: String)
    ensures
        r@ == lowercase(collapse(label@)),
{
    let t = chars_of(label);
    let mut out = String::new();
    let mut gap = false;
    let mut started = false;
    let mut i: usize = 0;
    while i < t.len()
        invariant
            i <= t@.len(),
            t@ == label@,
            started == (out@.len() > 0),
            collapse_from(t@, i as int, out@, gap) == collapse(label@),
        decreases t@.len() - i,
    {
        let c = t[i];
        if space(c) {
            gap = true;
        } else {
            if started && gap {
                out.push(' ');
            }
            out.push(c);
            started = true;
            gap = false;
        }
        i = i + 1;
    }
    to_lowercase(out.as_str())
}

/// A `:doc:` target is extensionless in Sphinx, so the source suffix is
/// appended; a source-root-absolute target keeps its slash and stays a
/// declared site route, because the engine does not know the Sphinx root.
pub open spec fn doc_target(target: Seq<char>) -> Seq<char> {
    let slash = crate::text::rfind(target, 0, target.len() as int, '/');
    let last = match slash {
        Some(p) => p + 1,
        None => 0,
    };
    if (target.len() > 0 && target[0] == '/') || crate::text::has_char(
        target,
        last,
        target.len() as int,
        '.',
    ) {
        target
    } else {
        target + seq!['.', 'r', 's', 't']
    }
}

/// A `:doc:` target that is not source-root-absolute and whose last path
/// segment holds no `.` names the `.rst` document of that path, whatever its
/// directory segments hold; one whose last segment holds a `.` is taken as
/// written.
pub proof fn lemma_doc_target_suffix(d: Seq<char>, n: Seq<char>)
    requires
        d.len() > 0,
        d[0] != '/',
        !n.contains('/'),
    ensures
        !n.contains('.') ==> doc_target(d + seq!['/'] + n) == d + seq!['/'] + n + seq!['.', 'r', 's', 't'],
        n.contains('.') ==> doc_target(d + seq!['/'] + n) == d + seq!['/'] + n,
{
    let t = d + seq!['/'] + n;
    let slash = d.len() as int;
    assert(t[slash] == '/');
    crate::text::lemma_rfind(t, 0, t.len() as int, '/');
    assert forall|k: int| slash < k < t.len() implies t[k] != '/' by {
        assert(t[k] == n[k - slash - 1]);
    }
    assert(crate::text::rfind(t, 0, t.len() as int, '/') == Some(slash)) by {
        match crate::text::rfind(t, 0, t.len() as int, '/') {
            Some(p) => {
                if p < slash {
                    assert(t[slash] == '/');
                }
            },
            None => {
                assert(t[slash] == '/');
            },
        }
    }
    assert(t[0] == d[0]);
    if n.contains('.') {
        let k = choose|k: int| 0 <= k < n.len() && n[k] == '.';
        assert(t[slash + 1 + k] == '.');
    } else {
        assert(!crate::text::has_char(t, slash + 1, t.len() as int, '.')) by {
            if crate::text::has_char(t, slash + 1, t.len() as int, '.') {
                let k = choose|k: int| slash + 1 <= k < t.len() && t[k] == '.';
                assert(n[k - slash - 1] == '.');
            }
        }
    }
}

/// A `:doc:` target with no `/` and no `.` names the `.rst` document of that
/// name, and an absolute one is taken as written.
pub proof fn lemma_doc_target_plain(n: Seq<char>)
    ensures
        !n.contains('/') && !n.contains('.') ==> doc_target(n) == n + seq!['.', 'r', 's', 't'],
        n.len() > 0 && n[0] == '/' ==> doc_target(n) == n,
{
    crate::text::lemma_rfind(n, 0, n.len() as int, '/');
    if !n.contains('/') && !n.contains('.') {
        if crate::text::rfind(n, 0, n.len() as int, '/') is Some {
            let p = crate::text::rfind(n, 0, n.len() as int, '/').unwrap();
            assert(n[p] == '/');
        }
        assert(!crate::text::has_char(n, 0, n.len() as int, '.')) by {
            if crate::text::has_char(n, 0, n.len() as int, '.') {
                let k = choose|k: int| 0 <= k < n.len() && n[k] == '.';
                assert(n.contains('.'));
            }
        }
    }
}

/// The destination a `:doc:` target names.
pub fn doc_destination(target: &str) -> (r: String)
    ensures
        r@ == doc_target(target@),
{
    let t = chars_of(target);
    proof {
        crate::text::lemma_rfind(t@, 0, t@.len() as int, '/');
    }
    let last = match crate::text::rfind_char(t.as_slice(), 0, t.len(), '/') {
        Some(p) => p + 1,
        None => 0,
    };
    let mut r = crate::text::text_of(t.as_slice(), 0, t.len());
    assert(t@.subrange(0, t@.len() as int) =~= t@);
    if (t.len() > 0 && t[0] == '/') || crate::text::any_char(t.as_slice(), last, t.len(), '.') {
        return r;
    }
    r.push('.');
    r.push('r');
    r.push('s');
    r.push('t');
    assert(r@ =~= target@ + seq!['.', 'r', 's', 't']);
    r
}

} // verus!

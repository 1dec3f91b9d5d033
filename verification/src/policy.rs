//! The policy's own rules: the coverage rule a protected inventory path that
//! is not scanned raises, the rule a document include that the candidate
//! weakens raises, and what the includes of both sides select and bind.

pub mod effects;
pub mod floor;

pub use effects::{
    ControlKind, ControlSeed, Disposition, Effects, FindingDisposition, PromotableFindingKind,
    ScannerPolicy, effects, inventory_union,
};
pub use floor::{
    BindingMismatch, GitLimits, Profile, ProtectedState, ResourceLimit, ResourceName, ScanLimits,
    floor_inventory, protected_control, tightened_limits, verify_floor,
};

use crate::bytes::{ends_with, has_byte};
use crate::document::Adapter;
use vstd::prelude::*;

verus! {

/// One inventory path's candidate state under the obligation test.
#[derive(Clone, Copy, Debug, PartialEq, Eq, Structural)]
pub enum InventoryState {
    Scanned,
    Unsupported,
    Missing,
    Outside,
}

impl InventoryState {
    /// The coverage rule a path in this state raises; a scanned path raises
    /// none.
    pub open spec fn rule(self) -> Option<Seq<char>> {
        match self {
            InventoryState::Scanned => None,
            InventoryState::Missing => Some("coverage/repository-inventory-missing"@),
            InventoryState::Unsupported => Some("coverage/repository-inventory-unsupported"@),
            InventoryState::Outside => Some("coverage/repository-inventory-outside"@),
        }
    }

    /// The floor coverage rule a path in this state raises; a scanned path
    /// raises none.
    pub open spec fn floor_rule(self) -> Option<Seq<char>> {
        match self {
            InventoryState::Scanned => None,
            InventoryState::Missing => Some("coverage/floor-inventory-missing"@),
            InventoryState::Unsupported => Some("coverage/floor-inventory-unsupported"@),
            InventoryState::Outside => Some("coverage/floor-inventory-outside"@),
        }
    }

    /// The floor coverage rule a path in this state raises; a scanned path
    /// raises none.
    pub fn floor_coverage_rule(self) -> (r: Option<&'static str>)
        ensures
            r is None <==> self.floor_rule() is None,
            r matches Some(s) ==> self.floor_rule() == Some(s@),
    {
        match self {
            InventoryState::Scanned => None,
            InventoryState::Missing => Some("coverage/floor-inventory-missing"),
            InventoryState::Unsupported => Some("coverage/floor-inventory-unsupported"),
            InventoryState::Outside => Some("coverage/floor-inventory-outside"),
        }
    }

    /// The coverage rule a path in this state raises; a scanned path raises
    /// none.
    pub fn coverage_rule(self) -> (r: Option<&'static str>)
        ensures
            r is None <==> self.rule() is None,
            r matches Some(s) ==> self.rule() == Some(s@),
    {
        match self {
            InventoryState::Scanned => None,
            InventoryState::Missing => Some("coverage/repository-inventory-missing"),
            InventoryState::Unsupported => Some("coverage/repository-inventory-unsupported"),
            InventoryState::Outside => Some("coverage/repository-inventory-outside"),
        }
    }
}

/// What a document include names: one document, or a tree.
#[derive(Clone, Copy, Debug, PartialEq, Eq, Structural)]
pub enum IncludeKind {
    Document,
    Tree,
}

/// One document include of a scanner policy: the path it names, its kind,
/// the suffix a tree include selects, and the reader it binds.
pub struct DocumentInclude {
    pub path: Vec<u8>,
    pub kind: IncludeKind,
    pub suffix: Option<String>,
    pub adapter: Option<Adapter>,
}

/// The view of an optional string.
pub open spec fn suffix_view(s: Option<String>) -> Option<Seq<char>> {
    match s {
        Some(t) => Some(t@),
        None => None,
    }
}

/// The rule a base include raises when the candidate drops or weakens it: a
/// removed include by what it named, a changed suffix by whether the base had
/// one, a binding the candidate no longer makes; none when it is kept whole.
pub open spec fn weakening_rule(base: (IncludeKind, Option<Seq<char>>, Option<Adapter>), candidate: Option<(IncludeKind, Option<Seq<char>>, Option<Adapter>)>) -> Option<Seq<char>> {
    match candidate {
        None => Some(if base.1 is Some {
            "policy/include-suffix-selector-removed"@
        } else {
            match base.0 {
                IncludeKind::Document => "policy/include-document-removed"@,
                IncludeKind::Tree => "policy/include-tree-removed"@,
            }
        }),
        Some(c) => if base.1 != c.1 {
            Some(if base.1 is Some {
                "policy/include-suffix-removed"@
            } else {
                "policy/include-tree-narrowed"@
            })
        } else {
            match base.2 {
                Some(a) => if c.2 != Some(a) {
                    Some("policy/include-binding-removed"@)
                } else {
                    None
                },
                None => None,
            }
        },
    }
}

/// An include as the values the weakening test reads.
pub open spec fn include_view(i: DocumentInclude) -> (IncludeKind, Option<Seq<char>>, Option<Adapter>) {
    (i.kind, suffix_view(i.suffix), i.adapter)
}

/// Whether two optional suffixes are the same.
fn same_suffix(a: &Option<String>, b: &Option<String>) -> (r: bool)
    ensures
        r == (suffix_view(*a) == suffix_view(*b)),
{
    match (a, b) {
        (None, None) => true,
        (Some(x), Some(y)) => *x == *y,
        _ => false,
    }
}

/// The rule a base include raises when the candidate drops or weakens it.
pub fn include_weakening(base: &DocumentInclude, candidate: Option<&DocumentInclude>) -> (r: Option<&'static str>)
    ensures
        (match r {
            Some(s) => Some(s@),
            None => None,
        }) == weakening_rule(
            include_view(*base),
            match candidate {
                Some(c) => Some(include_view(*c)),
                None => None,
            },
        ),
{
    let candidate = match candidate {
        None => {
            return Some(if base.suffix.is_some() {
                "policy/include-suffix-selector-removed"
            } else {
                match base.kind {
                    IncludeKind::Document => "policy/include-document-removed",
                    IncludeKind::Tree => "policy/include-tree-removed",
                }
            });
        },
        Some(c) => c,
    };
    if !same_suffix(&base.suffix, &candidate.suffix) {
        return Some(if base.suffix.is_some() {
            "policy/include-suffix-removed"
        } else {
            "policy/include-tree-narrowed"
        });
    }
    match base.adapter {
        Some(a) => {
            let kept = match candidate.adapter {
                Some(b) => a == b,
                None => false,
            };
            if !kept {
                Some("policy/include-binding-removed")
            } else {
                None
            }
        },
        None => None,
    }
}

/// The union of both sides' exact, tree and suffix includes, and the
/// bindings one side's policy makes.
pub struct Includes {
    documents: Vec<Vec<u8>>,
    trees: Vec<Vec<u8>>,
    suffix_roots: Vec<(Vec<u8>, Vec<u8>)>,
    document_bindings: Vec<(Vec<u8>, Adapter)>,
    tree_bindings: Vec<(Vec<u8>, Adapter)>,
    suffix_bindings: Vec<(Vec<u8>, (Vec<u8>, Adapter))>,
}

/// What the includes select and bind, as values: the exact documents, the
/// plain tree roots, the suffix-and-root pairs, and the three binding maps.
pub struct IncludesView {
    pub documents: Set<Seq<u8>>,
    pub trees: Set<Seq<u8>>,
    pub suffix_roots: Set<(Seq<u8>, Seq<u8>)>,
    pub document_bindings: Map<Seq<u8>, Adapter>,
    pub tree_bindings: Map<Seq<u8>, Adapter>,
    pub suffix_bindings: Map<Seq<u8>, (Seq<u8>, Adapter)>,
}

/// The paths of a list, as a set.
pub open spec fn path_set(v: Seq<Vec<u8>>) -> Set<Seq<u8>> {
    Set::new(|x: Seq<u8>| exists|i: int| 0 <= i < v.len() && #[trigger] v[i]@ == x)
}

/// The pairs of a list, as a set.
pub open spec fn pair_set(v: Seq<(Vec<u8>, Vec<u8>)>) -> Set<(Seq<u8>, Seq<u8>)> {
    Set::new(|x: (Seq<u8>, Seq<u8>)| exists|i: int| 0 <= i < v.len() && (#[trigger] v[i]).0@ == x.0 && v[i].1@ == x.1)
}

/// The bindings of a list, the last entry for a path winning.
pub open spec fn binding_map(v: Seq<(Vec<u8>, Adapter)>) -> Map<Seq<u8>, Adapter>
    decreases v.len(),
{
    if v.len() == 0 {
        Map::empty()
    } else {
        binding_map(v.drop_last()).insert(v.last().0@, v.last().1)
    }
}

/// The suffix bindings of a list, the last entry for a path winning.
pub open spec fn suffix_binding_map(v: Seq<(Vec<u8>, (Vec<u8>, Adapter))>) -> Map<Seq<u8>, (Seq<u8>, Adapter)>
    decreases v.len(),
{
    if v.len() == 0 {
        Map::empty()
    } else {
        suffix_binding_map(v.drop_last()).insert(v.last().0@, (v.last().1.0@, v.last().1.1))
    }
}

impl View for Includes {
    type V = IncludesView;

    closed spec fn view(&self) -> IncludesView {
        IncludesView {
            documents: path_set(self.documents@),
            trees: path_set(self.trees@),
            suffix_roots: pair_set(self.suffix_roots@),
            document_bindings: binding_map(self.document_bindings@),
            tree_bindings: binding_map(self.tree_bindings@),
            suffix_bindings: suffix_binding_map(self.suffix_bindings@),
        }
    }
}

/// What an include is, as values: its path, kind, suffix bytes and binding.
pub open spec fn entry_of(i: DocumentInclude) -> (Seq<u8>, IncludeKind, Option<Seq<u8>>, Option<Adapter>) {
    (i.path@, i.kind, match i.suffix {
        Some(t) => Some(vstd::utf8::encode_utf8(t@)),
        None => None,
    }, i.adapter)
}

/// The includes of a policy, as values.
pub open spec fn entries(v: Seq<DocumentInclude>) -> Seq<(Seq<u8>, IncludeKind, Option<Seq<u8>>, Option<Adapter>)> {
    v.map_values(|i: DocumentInclude| entry_of(i))
}

/// One include as values.
pub type Entry = (Seq<u8>, IncludeKind, Option<Seq<u8>>, Option<Adapter>);

/// The paths plain includes of one kind name.
pub open spec fn plain_paths(es: Seq<Entry>, kind: IncludeKind) -> Set<Seq<u8>> {
    Set::new(|p: Seq<u8>| exists|k: int| 0 <= k < es.len() && (#[trigger] es[k]).0 == p && es[k].2 is None && es[k].1 == kind)
}

/// The suffix-and-root pairs suffixed includes name.
pub open spec fn suffix_paths(es: Seq<Entry>) -> Set<(Seq<u8>, Seq<u8>)> {
    Set::new(|x: (Seq<u8>, Seq<u8>)| exists|k: int| 0 <= k < es.len() && (#[trigger] es[k]).2 == Some(x.0) && es[k].0 == x.1)
}

/// The bindings plain includes of one kind make, a later one for a path
/// winning.
pub open spec fn plain_bindings(es: Seq<Entry>, kind: IncludeKind) -> Map<Seq<u8>, Adapter>
    decreases es.len(),
{
    if es.len() == 0 {
        Map::empty()
    } else {
        let m = plain_bindings(es.drop_last(), kind);
        let e = es.last();
        match e.3 {
            Some(a) => if e.2 is None && e.1 == kind {
                m.insert(e.0, a)
            } else {
                m
            },
            None => m,
        }
    }
}

/// The bindings suffixed includes make, a later one for a path winning.
pub open spec fn suffix_bindings_of(es: Seq<Entry>) -> Map<Seq<u8>, (Seq<u8>, Adapter)>
    decreases es.len(),
{
    if es.len() == 0 {
        Map::empty()
    } else {
        let m = suffix_bindings_of(es.drop_last());
        let e = es.last();
        match (e.2, e.3) {
            (Some(suffix), Some(a)) => m.insert(e.0, (suffix, a)),
            _ => m,
        }
    }
}

/// The union of both sides' includes; the bindings come from the candidate
/// policy so both sides extract comparably, or from the base policy when the
/// candidate has none.
pub open spec fn union_spec(base: Option<Seq<Entry>>, candidate: Option<Seq<Entry>>) -> IncludesView {
    let b = match base { Some(e) => e, None => seq![] };
    let c = match candidate { Some(e) => e, None => seq![] };
    let chosen = match candidate { Some(e) => e, None => b };
    IncludesView {
        documents: plain_paths(b, IncludeKind::Document).union(plain_paths(c, IncludeKind::Document)),
        trees: plain_paths(b, IncludeKind::Tree).union(plain_paths(c, IncludeKind::Tree)),
        suffix_roots: suffix_paths(b).union(suffix_paths(c)),
        document_bindings: plain_bindings(chosen, IncludeKind::Document),
        tree_bindings: plain_bindings(chosen, IncludeKind::Tree),
        suffix_bindings: suffix_bindings_of(chosen),
    }
}

proof fn lemma_path_set_push(v: Seq<Vec<u8>>, x: Vec<u8>)
    ensures
        path_set(v.push(x)) == path_set(v).insert(x@),
{
    let w = v.push(x);
    assert(path_set(w) =~= path_set(v).insert(x@)) by {
        assert forall|p: Seq<u8>| path_set(w).contains(p) implies path_set(v).insert(x@).contains(p) by {
            let i = choose|i: int| 0 <= i < w.len() && w[i]@ == p;
            if i < v.len() {
                assert(v[i] == w[i]);
            }
        }
        assert forall|p: Seq<u8>| path_set(v).insert(x@).contains(p) implies path_set(w).contains(p) by {
            if p == x@ {
                assert(w[v.len() as int]@ == p);
            } else {
                let i = choose|i: int| 0 <= i < v.len() && v[i]@ == p;
                assert(w[i] == v[i]);
            }
        }
    }
}

proof fn lemma_pair_set_push(v: Seq<(Vec<u8>, Vec<u8>)>, x: (Vec<u8>, Vec<u8>))
    ensures
        pair_set(v.push(x)) == pair_set(v).insert((x.0@, x.1@)),
{
    let w = v.push(x);
    assert(pair_set(w) =~= pair_set(v).insert((x.0@, x.1@))) by {
        assert forall|p: (Seq<u8>, Seq<u8>)| pair_set(w).contains(p) implies pair_set(v).insert((x.0@, x.1@)).contains(p) by {
            let i = choose|i: int| 0 <= i < w.len() && (#[trigger] w[i]).0@ == p.0 && w[i].1@ == p.1;
            if i < v.len() {
                assert(v[i] == w[i]);
            }
        }
        assert forall|p: (Seq<u8>, Seq<u8>)| pair_set(v).insert((x.0@, x.1@)).contains(p) implies pair_set(w).contains(p) by {
            if p == (x.0@, x.1@) {
                assert(w[v.len() as int] == x);
            } else {
                let i = choose|i: int| 0 <= i < v.len() && (#[trigger] v[i]).0@ == p.0 && v[i].1@ == p.1;
                assert(w[i] == v[i]);
            }
        }
    }
}

proof fn lemma_plain_paths_push(es: Seq<Entry>, e: Entry, kind: IncludeKind)
    ensures
        plain_paths(es.push(e), kind) == (if e.2 is None && e.1 == kind {
            plain_paths(es, kind).insert(e.0)
        } else {
            plain_paths(es, kind)
        }),
{
    let w = es.push(e);
    let expected = if e.2 is None && e.1 == kind {
        plain_paths(es, kind).insert(e.0)
    } else {
        plain_paths(es, kind)
    };
    assert(plain_paths(w, kind) =~= expected) by {
        assert forall|p: Seq<u8>| plain_paths(w, kind).contains(p) implies expected.contains(p) by {
            let k = choose|k: int| 0 <= k < w.len() && (#[trigger] w[k]).0 == p && w[k].2 is None && w[k].1 == kind;
            if k < es.len() {
                assert(es[k] == w[k]);
            }
        }
        assert forall|p: Seq<u8>| expected.contains(p) implies plain_paths(w, kind).contains(p) by {
            if e.2 is None && e.1 == kind && p == e.0 {
                assert(w[es.len() as int] == e);
            } else {
                let k = choose|k: int| 0 <= k < es.len() && (#[trigger] es[k]).0 == p && es[k].2 is None && es[k].1 == kind;
                assert(w[k] == es[k]);
            }
        }
    }
}

proof fn lemma_suffix_paths_push(es: Seq<Entry>, e: Entry)
    ensures
        suffix_paths(es.push(e)) == (match e.2 {
            Some(s) => suffix_paths(es).insert((s, e.0)),
            None => suffix_paths(es),
        }),
{
    let w = es.push(e);
    let expected = match e.2 {
        Some(s) => suffix_paths(es).insert((s, e.0)),
        None => suffix_paths(es),
    };
    assert(suffix_paths(w) =~= expected) by {
        assert forall|x: (Seq<u8>, Seq<u8>)| suffix_paths(w).contains(x) implies expected.contains(x) by {
            let k = choose|k: int| 0 <= k < w.len() && (#[trigger] w[k]).2 == Some(x.0) && w[k].0 == x.1;
            if k < es.len() {
                assert(es[k] == w[k]);
            }
        }
        assert forall|x: (Seq<u8>, Seq<u8>)| expected.contains(x) implies suffix_paths(w).contains(x) by {
            if e.2 == Some(x.0) && e.0 == x.1 {
                assert(w[es.len() as int] == e);
            } else {
                let k = choose|k: int| 0 <= k < es.len() && (#[trigger] es[k]).2 == Some(x.0) && es[k].0 == x.1;
                assert(w[k] == es[k]);
            }
        }
    }
}

/// The bytes of a slice as their own vector.
fn owned(s: &[u8]) -> (v: Vec<u8>)
    ensures
        v@ == s@,
{
    vstd::slice::slice_to_vec(s)
}

/// The bytes of an include's suffix.
fn suffix_bytes(t: &String) -> (v: Vec<u8>)
    ensures
        v@ == vstd::utf8::encode_utf8(t@),
{
    owned(t.as_str().as_bytes())
}

impl Includes {
    /// The union of both sides' exact, tree, and suffix includes, which
    /// overrides built-in exclusion. Bindings are not a union: one reader per
    /// path per evaluation, taken from the candidate policy so both sides
    /// extract comparably, or from the base policy when the candidate has
    /// none.
    pub fn union(base: Option<&Vec<DocumentInclude>>, candidate: Option<&Vec<DocumentInclude>>) -> (r: Includes)
        ensures
            r@ == union_spec(
                match base { Some(v) => Some(entries(v@)), None => None },
                match candidate { Some(v) => Some(entries(v@)), None => None },
            ),
    {
        let mut documents: Vec<Vec<u8>> = Vec::new();
        let mut trees: Vec<Vec<u8>> = Vec::new();
        let mut suffix_roots: Vec<(Vec<u8>, Vec<u8>)> = Vec::new();
        let ghost b = match base { Some(v) => entries(v@), None => seq![] };
        let ghost c = match candidate { Some(v) => entries(v@), None => seq![] };
        proof {
            assert(path_set(documents@) =~= Set::empty());
            assert(path_set(trees@) =~= Set::empty());
            assert(pair_set(suffix_roots@) =~= Set::empty());
        }
        let mut side: usize = 0;
        while side < 2
            invariant
                side <= 2,
                b == (match base { Some(v) => entries(v@), None => seq![] }),
                c == (match candidate { Some(v) => entries(v@), None => seq![] }),
                path_set(documents@) == (if side == 0 { Set::empty() } else if side == 1 { plain_paths(b, IncludeKind::Document) } else { plain_paths(b, IncludeKind::Document).union(plain_paths(c, IncludeKind::Document)) }),
                path_set(trees@) == (if side == 0 { Set::empty() } else if side == 1 { plain_paths(b, IncludeKind::Tree) } else { plain_paths(b, IncludeKind::Tree).union(plain_paths(c, IncludeKind::Tree)) }),
                pair_set(suffix_roots@) == (if side == 0 { Set::empty() } else if side == 1 { suffix_paths(b) } else { suffix_paths(b).union(suffix_paths(c)) }),
            decreases 2 - side,
        {
            let policy = if side == 0 { base } else { candidate };
            let ghost es = if side == 0 { b } else { c };
            let ghost docs0 = path_set(documents@);
            let ghost trees0 = path_set(trees@);
            let ghost roots0 = pair_set(suffix_roots@);
            match policy {
                None => {
                    proof {
                        assert(plain_paths(seq![], IncludeKind::Document) =~= Set::empty());
                        assert(plain_paths(seq![], IncludeKind::Tree) =~= Set::empty());
                        assert(suffix_paths(seq![]) =~= Set::empty());
                    }
                },
                Some(list) => {
                    let mut k: usize = 0;
                    proof {
                        assert(es.take(0) =~= Seq::<Entry>::empty());
                        assert(plain_paths(es.take(0), IncludeKind::Document) =~= Set::empty());
                        assert(plain_paths(es.take(0), IncludeKind::Tree) =~= Set::empty());
                        assert(suffix_paths(es.take(0)) =~= Set::empty());
                    }
                    while k < list.len()
                        invariant
                            k <= list@.len(),
                            es == entries(list@),
                            path_set(documents@) == docs0.union(plain_paths(es.take(k as int), IncludeKind::Document)),
                            path_set(trees@) == trees0.union(plain_paths(es.take(k as int), IncludeKind::Tree)),
                            pair_set(suffix_roots@) == roots0.union(suffix_paths(es.take(k as int))),
                        decreases list@.len() - k,
                    {
                        let item = &list[k];
                        let ghost e = entry_of(*item);
                        proof {
                            assert(es.take(k + 1) =~= es.take(k as int).push(e));
                            lemma_plain_paths_push(es.take(k as int), e, IncludeKind::Document);
                            lemma_plain_paths_push(es.take(k as int), e, IncludeKind::Tree);
                            lemma_suffix_paths_push(es.take(k as int), e);
                        }
                        match &item.suffix {
                            Some(t) => {
                                let ghost before = suffix_roots@;
                                suffix_roots.push((suffix_bytes(t), owned(item.path.as_slice())));
                                proof {
                                    assert(suffix_roots@ =~= before.push(suffix_roots@.last()));
                                    lemma_pair_set_push(before, suffix_roots@.last());
                                    assert(pair_set(suffix_roots@) =~= roots0.union(suffix_paths(es.take(k + 1))));
                                }
                            },
                            None => match item.kind {
                                IncludeKind::Document => {
                                    let ghost before = documents@;
                                    documents.push(owned(item.path.as_slice()));
                                    proof {
                                        assert(documents@ =~= before.push(documents@.last()));
                                        lemma_path_set_push(before, documents@.last());
                                        assert(path_set(documents@) =~= docs0.union(plain_paths(es.take(k + 1), IncludeKind::Document)));
                                    }
                                },
                                IncludeKind::Tree => {
                                    let ghost before = trees@;
                                    trees.push(owned(item.path.as_slice()));
                                    proof {
                                        assert(trees@ =~= before.push(trees@.last()));
                                        lemma_path_set_push(before, trees@.last());
                                        assert(path_set(trees@) =~= trees0.union(plain_paths(es.take(k + 1), IncludeKind::Tree)));
                                    }
                                },
                            },
                        }
                        proof {
                            assert(path_set(documents@) =~= docs0.union(plain_paths(es.take(k + 1), IncludeKind::Document)));
                            assert(path_set(trees@) =~= trees0.union(plain_paths(es.take(k + 1), IncludeKind::Tree)));
                            assert(pair_set(suffix_roots@) =~= roots0.union(suffix_paths(es.take(k + 1))));
                        }
                        k = k + 1;
                    }
                    proof {
                        assert(es.take(list@.len() as int) =~= es);
                    }
                },
            }
            proof {
                assert(path_set(documents@) =~= (if side + 1 == 1 { plain_paths(b, IncludeKind::Document) } else { plain_paths(b, IncludeKind::Document).union(plain_paths(c, IncludeKind::Document)) }));
                assert(path_set(trees@) =~= (if side + 1 == 1 { plain_paths(b, IncludeKind::Tree) } else { plain_paths(b, IncludeKind::Tree).union(plain_paths(c, IncludeKind::Tree)) }));
                assert(pair_set(suffix_roots@) =~= (if side + 1 == 1 { suffix_paths(b) } else { suffix_paths(b).union(suffix_paths(c)) }));
            }
            side = side + 1;
        }
        let chosen = match candidate {
            Some(v) => Some(v),
            None => base,
        };
        let mut document_bindings: Vec<(Vec<u8>, Adapter)> = Vec::new();
        let mut tree_bindings: Vec<(Vec<u8>, Adapter)> = Vec::new();
        let mut suffix_bindings: Vec<(Vec<u8>, (Vec<u8>, Adapter))> = Vec::new();
        let ghost ch = match candidate { Some(v) => entries(v@), None => b };
        match chosen {
            None => {},
            Some(list) => {
                let mut k: usize = 0;
                while k < list.len()
                    invariant
                        k <= list@.len(),
                        ch == entries(list@),
                        binding_map(document_bindings@) == plain_bindings(ch.take(k as int), IncludeKind::Document),
                        binding_map(tree_bindings@) == plain_bindings(ch.take(k as int), IncludeKind::Tree),
                        suffix_binding_map(suffix_bindings@) == suffix_bindings_of(ch.take(k as int)),
                    decreases list@.len() - k,
                {
                    let item = &list[k];
                    proof {
                        assert(ch.take(k + 1).drop_last() =~= ch.take(k as int));
                        assert(ch.take(k + 1).last() == entry_of(*item));
                    }
                    match item.adapter {
                        None => {},
                        Some(adapter) => match &item.suffix {
                            Some(t) => {
                                let ghost before = suffix_bindings@;
                                suffix_bindings.push((owned(item.path.as_slice()), (suffix_bytes(t), adapter)));
                                proof {
                                    assert(suffix_bindings@.drop_last() =~= before);
                                }
                            },
                            None => match item.kind {
                                IncludeKind::Document => {
                                    let ghost before = document_bindings@;
                                    document_bindings.push((owned(item.path.as_slice()), adapter));
                                    proof {
                                        assert(document_bindings@.drop_last() =~= before);
                                    }
                                },
                                IncludeKind::Tree => {
                                    let ghost before = tree_bindings@;
                                    tree_bindings.push((owned(item.path.as_slice()), adapter));
                                    proof {
                                        assert(tree_bindings@.drop_last() =~= before);
                                    }
                                },
                            },
                        },
                    }
                    k = k + 1;
                }
                proof {
                    assert(ch.take(list@.len() as int) =~= ch);
                }
            },
        }
        proof {
            if chosen is None {
                assert(ch =~= Seq::<Entry>::empty());
            }
        }
        Includes { documents, trees, suffix_roots, document_bindings, tree_bindings, suffix_bindings }
    }
}

/// Whether `a` is `p` or a directory above it: `p` itself, or a prefix a `/`
/// follows.
pub open spec fn is_ancestor(a: Seq<u8>, p: Seq<u8>) -> bool {
    a.len() <= p.len() && p.take(a.len() as int) == a && (a.len() == p.len() || p[a.len() as int] == 0x2f)
}

/// The reader bound for `path` by the suffixed or plain tree bindings of
/// its ancestors at or above length `j`, nearest first.
pub open spec fn bind_scan(inc: IncludesView, path: Seq<u8>, j: int) -> Option<Adapter>
    decreases j + 1,
{
    if j < 0 || j > path.len() {
        None
    } else if j == path.len() || path[j] == 0x2f {
        let a = path.take(j);
        if inc.suffix_bindings.contains_key(a) && ends_with(path, inc.suffix_bindings[a].0) {
            Some(inc.suffix_bindings[a].1)
        } else if inc.tree_bindings.contains_key(a) {
            Some(inc.tree_bindings[a])
        } else {
            bind_scan(inc, path, j - 1)
        }
    } else {
        bind_scan(inc, path, j - 1)
    }
}

/// The bound reader for a policy-included path: an exact document wins, then
/// the nearest matching suffixed or plain tree.
pub open spec fn binding_spec(inc: IncludesView, path: Seq<u8>) -> Option<Adapter> {
    if inc.document_bindings.contains_key(path) {
        Some(inc.document_bindings[path])
    } else {
        bind_scan(inc, path, path.len() as int)
    }
}

/// A document include matches exactly its path; a plain tree matches its
/// root and descendants, while a suffixed tree additionally requires the
/// path's basename to end with the suffix, which starts at a `.` and is no
/// longer than the grammar's ceiling on a suffix.
pub open spec fn matches_spec(inc: IncludesView, path: Seq<u8>, suffix_limit: nat) -> bool {
    ||| inc.documents.contains(path)
    ||| exists|t: Seq<u8>| #[trigger] inc.trees.contains(t) && is_ancestor(t, path)
    ||| exists|x: (Seq<u8>, Seq<u8>)| #[trigger] inc.suffix_roots.contains(x) && suffix_selects(x, path, suffix_limit)
}

/// Whether a suffixed tree include selects `path`: the suffix starts at a
/// `.`, holds no `/`, fits the ceiling and ends the path, and the root is an
/// ancestor of it.
pub open spec fn suffix_selects(x: (Seq<u8>, Seq<u8>), path: Seq<u8>, suffix_limit: nat) -> bool {
    &&& 0 < x.0.len() <= suffix_limit
    &&& x.0[0] == 0x2e
    &&& !has_byte(x.0, 0, x.0.len() as int, 0x2f)
    &&& ends_with(path, x.0)
    &&& is_ancestor(x.1, path)
}

proof fn lemma_binding_map_tail(v: Seq<(Vec<u8>, Adapter)>, j: int, key: Seq<u8>)
    requires
        0 <= j <= v.len(),
        forall|m: int| j <= m < v.len() ==> (#[trigger] v[m]).0@ != key,
    ensures
        binding_map(v).contains_key(key) == binding_map(v.take(j)).contains_key(key),
        binding_map(v).contains_key(key) ==> binding_map(v)[key] == binding_map(v.take(j))[key],
    decreases v.len(),
{
    if v.len() > j {
        assert(v.drop_last().take(j) =~= v.take(j));
        lemma_binding_map_tail(v.drop_last(), j, key);
    } else {
        assert(v.take(j) =~= v);
    }
}

proof fn lemma_suffix_binding_map_tail(v: Seq<(Vec<u8>, (Vec<u8>, Adapter))>, j: int, key: Seq<u8>)
    requires
        0 <= j <= v.len(),
        forall|m: int| j <= m < v.len() ==> (#[trigger] v[m]).0@ != key,
    ensures
        suffix_binding_map(v).contains_key(key) == suffix_binding_map(v.take(j)).contains_key(key),
        suffix_binding_map(v).contains_key(key) ==> suffix_binding_map(v)[key] == suffix_binding_map(v.take(j))[key],
    decreases v.len(),
{
    if v.len() > j {
        assert(v.drop_last().take(j) =~= v.take(j));
        lemma_suffix_binding_map_tail(v.drop_last(), j, key);
    } else {
        assert(v.take(j) =~= v);
    }
}

/// Whether two byte strings are equal.
fn same(a: &[u8], b: &[u8]) -> (r: bool)
    ensures
        r == (a@ == b@),
{
    if a.len() != b.len() {
        return false;
    }
    let mut k: usize = 0;
    while k < a.len()
        invariant
            k <= a@.len(),
            a@.len() == b@.len(),
            forall|m: int| 0 <= m < k ==> a@[m] == b@[m],
        decreases a@.len() - k,
    {
        if a[k] != b[k] {
            return false;
        }
        k = k + 1;
    }
    assert(a@ =~= b@);
    true
}

/// The reader a list binds `key` to, the last entry winning.
fn lookup_binding(v: &Vec<(Vec<u8>, Adapter)>, key: &[u8]) -> (r: Option<Adapter>)
    ensures
        r is Some <==> binding_map(v@).contains_key(key@),
        r matches Some(a) ==> a == binding_map(v@)[key@],
{
    let mut j = v.len();
    while j > 0
        invariant
            j <= v@.len(),
            forall|m: int| j <= m < v@.len() ==> (#[trigger] v@[m]).0@ != key@,
        decreases j,
    {
        if same(v[j - 1].0.as_slice(), key) {
            proof {
                lemma_binding_map_tail(v@, j as int, key@);
                assert(v@.take(j as int).drop_last() =~= v@.take(j - 1));
            }
            return Some(v[j - 1].1);
        }
        j = j - 1;
    }
    proof {
        lemma_binding_map_tail(v@, 0, key@);
        assert(v@.take(0) =~= Seq::<(Vec<u8>, Adapter)>::empty());
    }
    None
}

/// The suffix and reader a list binds `key` to, the last entry winning.
fn lookup_suffix_binding<'a>(v: &'a Vec<(Vec<u8>, (Vec<u8>, Adapter))>, key: &[u8]) -> (r: Option<(&'a Vec<u8>, Adapter)>)
    ensures
        r is Some <==> suffix_binding_map(v@).contains_key(key@),
        r matches Some((s, a)) ==> (s@, a) == suffix_binding_map(v@)[key@],
{
    let mut j = v.len();
    while j > 0
        invariant
            j <= v@.len(),
            forall|m: int| j <= m < v@.len() ==> (#[trigger] v@[m]).0@ != key@,
        decreases j,
    {
        if same(v[j - 1].0.as_slice(), key) {
            proof {
                lemma_suffix_binding_map_tail(v@, j as int, key@);
                assert(v@.take(j as int).drop_last() =~= v@.take(j - 1));
            }
            return Some((&v[j - 1].1.0, v[j - 1].1.1));
        }
        j = j - 1;
    }
    proof {
        lemma_suffix_binding_map_tail(v@, 0, key@);
        assert(v@.take(0) =~= Seq::<(Vec<u8>, (Vec<u8>, Adapter))>::empty());
    }
    None
}

/// Whether `t` ends with `p`.
fn ends_with_bytes(t: &[u8], p: &[u8]) -> (b: bool)
    ensures
        b == ends_with(t@, p@),
{
    if p.len() > t.len() {
        return false;
    }
    let tail = vstd::slice::slice_subrange(t, t.len() - p.len(), t.len());
    assert(tail@ =~= t@.skip(t@.len() - p@.len()));
    same(tail, p)
}

/// Whether `a` is `p` or a directory above it.
fn ancestor_of(a: &[u8], p: &[u8]) -> (b: bool)
    ensures
        b == is_ancestor(a@, p@),
{
    if a.len() > p.len() {
        return false;
    }
    let head = vstd::slice::slice_subrange(p, 0, a.len());
    assert(head@ =~= p@.take(a@.len() as int));
    same(head, a) && (a.len() == p.len() || p[a.len()] == 0x2f)
}

impl Includes {
    /// The bound reader for a policy-included path: an exact document wins,
    /// then the nearest matching suffixed or plain tree.
    pub fn binding(&self, path: &[u8]) -> (r: Option<Adapter>)
        ensures
            r == binding_spec(self@, path@),
    {
        if let Some(adapter) = lookup_binding(&self.document_bindings, path) {
            return Some(adapter);
        }
        let mut j = path.len();
        loop
            invariant
                j <= path@.len(),
                !binding_map(self.document_bindings@).contains_key(path@),
                binding_spec(self@, path@) == bind_scan(self@, path@, j as int),
            decreases j,
        {
            if j == path.len() || path[j] == 0x2f {
                let ancestor = vstd::slice::slice_subrange(path, 0, j);
                assert(ancestor@ =~= path@.take(j as int));
                match lookup_suffix_binding(&self.suffix_bindings, ancestor) {
                    Some((suffix, adapter)) => {
                        if ends_with_bytes(path, suffix.as_slice()) {
                            return Some(adapter);
                        }
                    },
                    None => {},
                }
                if let Some(adapter) = lookup_binding(&self.tree_bindings, ancestor) {
                    return Some(adapter);
                }
            }
            assert(bind_scan(self@, path@, j as int) == bind_scan(self@, path@, j - 1));
            if j == 0 {
                return None;
            }
            j = j - 1;
        }
    }

    /// A document include matches exactly its path; a plain tree matches its
    /// root and descendants, while a suffixed tree additionally requires the
    /// exact raw tail. `suffix_limit` is the policy grammar's ceiling on the
    /// bytes of a suffix.
    pub fn matches(&self, path: &[u8], suffix_limit: usize) -> (b: bool)
        ensures
            b == matches_spec(self@, path@, suffix_limit as nat),
    {
        let mut i: usize = 0;
        while i < self.documents.len()
            invariant
                i <= self.documents@.len(),
                forall|k: int| 0 <= k < i ==> self.documents@[k]@ != path@,
            decreases self.documents@.len() - i,
        {
            if same(self.documents[i].as_slice(), path) {
                assert(path_set(self.documents@).contains(path@)) by {
                    assert(self.documents@[i as int]@ == path@);
                }
                return true;
            }
            i = i + 1;
        }
        let mut t: usize = 0;
        while t < self.trees.len()
            invariant
                t <= self.trees@.len(),
                !path_set(self.documents@).contains(path@),
                forall|k: int| 0 <= k < t ==> !is_ancestor(self.trees@[k]@, path@),
            decreases self.trees@.len() - t,
        {
            if ancestor_of(self.trees[t].as_slice(), path) {
                assert(path_set(self.trees@).contains(self.trees@[t as int]@));
                assert(self@.trees.contains(self.trees@[t as int]@));
                return true;
            }
            t = t + 1;
        }
        let mut r: usize = 0;
        while r < self.suffix_roots.len()
            invariant
                r <= self.suffix_roots@.len(),
                !path_set(self.documents@).contains(path@),
                forall|k: int| 0 <= k < self.trees@.len() ==> !is_ancestor(self.trees@[k]@, path@),
                forall|k: int| 0 <= k < r ==> !suffix_selects(((#[trigger] self.suffix_roots@[k]).0@, self.suffix_roots@[k].1@), path@, suffix_limit as nat),
            decreases self.suffix_roots@.len() - r,
        {
            let suffix = self.suffix_roots[r].0.as_slice();
            let root = self.suffix_roots[r].1.as_slice();
            if suffix.len() > 0 && suffix.len() <= suffix_limit && suffix[0] == 0x2e {
                let slash = crate::bytes::find_byte(suffix, 0, suffix.len(), 0x2f);
                proof {
                    crate::bytes::lemma_next_byte(suffix@, 0, suffix@.len() as int, 0x2f);
                }
                if slash == suffix.len() && ends_with_bytes(path, suffix) && ancestor_of(root, path) {
                    assert(pair_set(self.suffix_roots@).contains((suffix@, root@)));
                    assert(self@.suffix_roots.contains((suffix@, root@)));
                    assert(suffix_selects((suffix@, root@), path@, suffix_limit as nat));
                    return true;
                }
            }
            r = r + 1;
        }
        proof {
            assert forall|x: Seq<u8>| #[trigger] path_set(self.trees@).contains(x) implies !is_ancestor(x, path@) by {
                let k = choose|k: int| 0 <= k < self.trees@.len() && self.trees@[k]@ == x;
            }
            assert forall|x: (Seq<u8>, Seq<u8>)| #[trigger] pair_set(self.suffix_roots@).contains(x) implies !suffix_selects(x, path@, suffix_limit as nat) by {
                let k = choose|k: int| 0 <= k < self.suffix_roots@.len() && (#[trigger] self.suffix_roots@[k]).0@ == x.0 && self.suffix_roots@[k].1@ == x.1;
            }
        }
        false
    }
}

} // verus!

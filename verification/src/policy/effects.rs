//! What a change of the scanner policy raises: every include, protected path
//! and disposition the candidate weakens, and every protected path the
//! candidate does not scan.

use crate::bytes::same_bytes;
use crate::order::{insert_sorted, lemma_push_to_set, lemma_is_listing, listing, strictly_sorted, views};
use crate::policy::{
    DocumentInclude, IncludeKind, InventoryState, include_view, include_weakening, weakening_rule,
};
use vstd::prelude::*;

verus! {

/// A finding kind whose disposition a policy may raise.
#[derive(Clone, Copy, Debug, PartialEq, Eq, Structural)]
pub enum PromotableFindingKind {
    ExplicitTargetMissing,
    ExplicitTargetTypeMismatch,
    InvalidReference,
}

impl PromotableFindingKind {
    /// The kind's name in reports.
    pub open spec fn name(self) -> Seq<char> {
        match self {
            PromotableFindingKind::ExplicitTargetMissing => "explicit-target-missing"@,
            PromotableFindingKind::ExplicitTargetTypeMismatch => "explicit-target-type-mismatch"@,
            PromotableFindingKind::InvalidReference => "invalid-reference"@,
        }
    }

    /// The kind's name in reports.
    pub fn as_str(self) -> (r: &'static str)
        ensures
            r@ == self.name(),
    {
        match self {
            PromotableFindingKind::ExplicitTargetMissing => "explicit-target-missing",
            PromotableFindingKind::ExplicitTargetTypeMismatch => "explicit-target-type-mismatch",
            PromotableFindingKind::InvalidReference => "invalid-reference",
        }
    }

    /// The rule a weakened disposition of this kind raises: the kind's name
    /// under `policy/disposition/`.
    pub open spec fn disposition_rule_of(self) -> Seq<char> {
        match self {
            PromotableFindingKind::ExplicitTargetMissing => "policy/disposition/explicit-target-missing"@,
            PromotableFindingKind::ExplicitTargetTypeMismatch => "policy/disposition/explicit-target-type-mismatch"@,
            PromotableFindingKind::InvalidReference => "policy/disposition/invalid-reference"@,
        }
    }

    /// The rule a weakened disposition of this kind raises.
    pub fn disposition_rule(self) -> (r: &'static str)
        ensures
            r@ == self.disposition_rule_of(),
    {
        match self {
            PromotableFindingKind::ExplicitTargetMissing => "policy/disposition/explicit-target-missing",
            PromotableFindingKind::ExplicitTargetTypeMismatch => "policy/disposition/explicit-target-type-mismatch",
            PromotableFindingKind::InvalidReference => "policy/disposition/invalid-reference",
        }
    }
}

/// The disposition rule of a kind is its name under `policy/disposition/`.
pub proof fn lemma_disposition_rule_names_the_kind(k: PromotableFindingKind)
    ensures
        k.disposition_rule_of() == "policy/disposition/"@ + k.name(),
{
    reveal_strlit("policy/disposition/");
    reveal_strlit("explicit-target-missing");
    reveal_strlit("explicit-target-type-mismatch");
    reveal_strlit("invalid-reference");
    reveal_strlit("policy/disposition/explicit-target-missing");
    reveal_strlit("policy/disposition/explicit-target-type-mismatch");
    reveal_strlit("policy/disposition/invalid-reference");
    assert(k.disposition_rule_of() =~= "policy/disposition/"@ + k.name());
}

/// How a finding is reported; a fail is stronger than a warning.
#[derive(Clone, Copy, Debug, PartialEq, Eq, Structural)]
pub enum Disposition {
    Warn,
    Fail,
}

impl Disposition {
    /// The disposition's strength.
    pub open spec fn strength(self) -> nat {
        match self {
            Disposition::Warn => 0,
            Disposition::Fail => 1,
        }
    }

    /// Whether this disposition is weaker than `other`.
    pub fn weaker_than(self, other: Disposition) -> (r: bool)
        ensures
            r == (self.strength() < other.strength()),
    {
        match (self, other) {
            (Disposition::Warn, Disposition::Fail) => true,
            _ => false,
        }
    }
}

/// One raise-only disposition row of a policy.
#[derive(Clone, Copy, Debug, PartialEq, Eq, Structural)]
pub struct FindingDisposition {
    pub finding_kind: PromotableFindingKind,
    pub disposition: Disposition,
}

/// The rows of a scanner policy that its comparison reads.
pub struct ScannerPolicy {
    pub document_includes: Vec<DocumentInclude>,
    pub protected_inventory: Vec<Vec<u8>>,
    pub finding_dispositions: Vec<FindingDisposition>,
}

/// What a control-plane finding reports.
#[derive(Clone, Copy, Debug, PartialEq, Eq, Structural)]
pub enum ControlKind {
    PolicyWeakened,
    CoverageReduced,
    ControlPlaneChanged,
}

/// One control-plane finding, keyed by its exact rule identity.
pub struct ControlSeed {
    pub kind: ControlKind,
    pub rule_id: String,
    pub control_path: Vec<u8>,
}

impl View for ControlSeed {
    type V = (ControlKind, Seq<char>, Seq<u8>);

    open spec fn view(&self) -> (ControlKind, Seq<char>, Seq<u8>) {
        (self.kind, self.rule_id@, self.control_path@)
    }
}

/// The seeds of a list, as values.
pub open spec fn seed_views(v: Seq<ControlSeed>) -> Seq<(ControlKind, Seq<char>, Seq<u8>)> {
    v.map_values(|s: ControlSeed| s@)
}

/// The ceiling on typed analysis errors retained without a floor.
pub const ERRORS_RETAINED: u64 = 64;

/// The ceiling on complete findings without a floor.
pub const COMPLETE_FINDINGS: u64 = 100_000;

/// The policy effects on one run: the candidate's raise-only dispositions,
/// the floor's (none until a floor is applied), the control findings, the
/// digests of the two scanner policies, the digests of the verified external
/// controls (floor, debt, waiver, trusted time, execution constraint) the
/// caller supplies afterwards, and the two ceilings a floor may only tighten.
pub struct Effects {
    pub raised: Vec<FindingDisposition>,
    pub floor_raised: Vec<FindingDisposition>,
    pub controls: Vec<ControlSeed>,
    pub base_digest: Option<Vec<u8>>,
    pub candidate_digest: Option<Vec<u8>>,
    pub floor: Option<Vec<u8>>,
    pub debt: Option<Vec<u8>>,
    pub waiver: Option<Vec<u8>>,
    pub time: Option<Vec<u8>>,
    pub constraint: Option<Vec<u8>>,
    pub errors_retained: u64,
    pub complete_findings: u64,
}

/// The bytes of an optional digest.
pub open spec fn digest_view(d: Option<Vec<u8>>) -> Option<Seq<u8>> {
    match d {
        Some(v) => Some(v@),
        None => None,
    }
}

/// Whether no external control has been supplied yet.
pub open spec fn no_external_controls(e: Effects) -> bool {
    &&& e.floor is None
    &&& e.debt is None
    &&& e.waiver is None
    &&& e.time is None
    &&& e.constraint is None
}

fn copy_digest(d: &Option<Vec<u8>>) -> (r: Option<Vec<u8>>)
    ensures
        digest_view(r) == digest_view(*d),
{
    match d {
        Some(v) => Some(crate::tree::copy_bytes(v.as_slice())),
        None => None,
    }
}

impl Default for Effects {
    /// No dispositions, no controls, the built-in ceilings.
    fn default() -> (r: Effects)
        ensures
            r.raised@.len() == 0,
            r.floor_raised@.len() == 0,
            r.controls@.len() == 0,
            r.base_digest is None,
            r.candidate_digest is None,
            no_external_controls(r),
            r.errors_retained == ERRORS_RETAINED,
            r.complete_findings == COMPLETE_FINDINGS,
    {
        Effects {
            raised: Vec::new(),
            floor_raised: Vec::new(),
            controls: Vec::new(),
            base_digest: None,
            candidate_digest: None,
            floor: None,
            debt: None,
            waiver: None,
            time: None,
            constraint: None,
            errors_retained: ERRORS_RETAINED,
            complete_findings: COMPLETE_FINDINGS,
        }
    }
}

/// A side's document includes; none without a policy.
pub open spec fn includes_of(p: Option<&ScannerPolicy>) -> Seq<DocumentInclude> {
    match p {
        Some(q) => q.document_includes@,
        None => seq![],
    }
}

/// A side's protected inventory; none without a policy.
pub open spec fn inventory_of(p: Option<&ScannerPolicy>) -> Seq<Seq<u8>> {
    match p {
        Some(q) => views(q.protected_inventory@),
        None => seq![],
    }
}

/// A side's disposition rows; none without a policy.
pub open spec fn rows_of(p: Option<&ScannerPolicy>) -> Seq<FindingDisposition> {
    match p {
        Some(q) => q.finding_dispositions@,
        None => seq![],
    }
}

/// The candidate include a base include is compared with: the last one with
/// its path and kind.
pub open spec fn matching_include(candidates: Seq<DocumentInclude>, path: Seq<u8>, kind: IncludeKind) -> Option<DocumentInclude>
    decreases candidates.len(),
{
    if candidates.len() == 0 {
        None
    } else if candidates.last().path@ == path && candidates.last().kind == kind {
        Some(candidates.last())
    } else {
        matching_include(candidates.drop_last(), path, kind)
    }
}

/// The weakening rule each base include raises, in the base's order, at the
/// include's path.
pub open spec fn include_seeds(base: Seq<DocumentInclude>, candidates: Seq<DocumentInclude>) -> Seq<(ControlKind, Seq<char>, Seq<u8>)>
    decreases base.len(),
{
    if base.len() == 0 {
        seq![]
    } else {
        let b = base.last();
        let found = match matching_include(candidates, b.path@, b.kind) {
            Some(c) => Some(include_view(c)),
            None => None,
        };
        include_seeds(base.drop_last(), candidates) + match weakening_rule(include_view(b), found) {
            Some(rule) => seq![(ControlKind::PolicyWeakened, rule, b.path@)],
            None => seq![],
        }
    }
}

/// A removal for each base inventory path the candidate no longer protects,
/// in the base's order.
pub open spec fn removed_seeds(base: Seq<Seq<u8>>, candidate: Seq<Seq<u8>>) -> Seq<(ControlKind, Seq<char>, Seq<u8>)>
    decreases base.len(),
{
    if base.len() == 0 {
        seq![]
    } else {
        removed_seeds(base.drop_last(), candidate) + if candidate.contains(base.last()) {
            seq![]
        } else {
            seq![(ControlKind::PolicyWeakened, "policy/inventory-removed"@, base.last())]
        }
    }
}

/// The disposition the first row of a kind gives, if any.
pub open spec fn first_disposition(rows: Seq<FindingDisposition>, kind: PromotableFindingKind) -> Option<Disposition>
    decreases rows.len(),
{
    if rows.len() == 0 {
        None
    } else if rows[0].finding_kind == kind {
        Some(rows[0].disposition)
    } else {
        first_disposition(rows.drop_first(), kind)
    }
}

/// A weakening for each base disposition row the candidate drops or lowers,
/// in the base's order, at the policy's own path.
pub open spec fn disposition_seeds(base: Seq<FindingDisposition>, candidate: Seq<FindingDisposition>, policy_path: Seq<u8>) -> Seq<(ControlKind, Seq<char>, Seq<u8>)>
    decreases base.len(),
{
    if base.len() == 0 {
        seq![]
    } else {
        let row = base.last();
        let kept = match first_disposition(candidate, row.finding_kind) {
            Some(now) => now.strength() >= row.disposition.strength(),
            None => false,
        };
        disposition_seeds(base.drop_last(), candidate, policy_path) + if kept {
            seq![]
        } else {
            seq![(ControlKind::PolicyWeakened, row.finding_kind.disposition_rule_of(), policy_path)]
        }
    }
}

/// Every path either side protects.
pub open spec fn inventory_set(base: Option<&ScannerPolicy>, candidate: Option<&ScannerPolicy>) -> Set<Seq<u8>> {
    inventory_of(base).to_set() + inventory_of(candidate).to_set()
}

/// The coverage rule each listed path raises under its candidate state.
pub open spec fn coverage_seeds(paths: Seq<Seq<u8>>, states: Seq<InventoryState>) -> Seq<(ControlKind, Seq<char>, Seq<u8>)>
    decreases paths.len(),
{
    if paths.len() == 0 {
        seq![]
    } else {
        let last = paths.len() - 1;
        coverage_seeds(paths.drop_last(), states) + match states[last].rule() {
            Some(rule) => seq![(ControlKind::CoverageReduced, rule, paths[last])],
            None => seq![],
        }
    }
}

/// Every path either side protects, in byte order and once each: the paths
/// whose candidate states `effects` reads, in the order it reads them.
pub fn inventory_union(base: Option<&ScannerPolicy>, candidate: Option<&ScannerPolicy>) -> (r: Vec<Vec<u8>>)
    ensures
        views(r@) == listing(inventory_set(base, candidate)),
        strictly_sorted(views(r@)),
        views(r@).to_set() == inventory_set(base, candidate),
{
    let mut v: Vec<Vec<u8>> = Vec::new();
    if let Some(p) = base {
        let inv = &p.protected_inventory;
        assert(views(inv@.take(0)).to_set() =~= views(v@).to_set());
        for i in 0..inv.len()
            invariant
                strictly_sorted(views(v@)),
                views(v@).to_set() == views(inv@.take(i as int)).to_set(),
        {
            insert_sorted(&mut v, &inv[i]);
            assert(views(inv@.take(i + 1)) =~= views(inv@.take(i as int)).push(inv@[i as int]@));
            proof { lemma_push_to_set(views(inv@.take(i as int)), inv@[i as int]@); }
        }
        assert(inv@.take(inv@.len() as int) =~= inv@);
    } else {
        assert(inventory_of(base).to_set() =~= views(v@).to_set());
    }
    assert(views(v@).to_set() == inventory_of(base).to_set());
    if let Some(p) = candidate {
        let inv = &p.protected_inventory;
        assert(inventory_of(base).to_set() + views(inv@.take(0)).to_set() =~= views(v@).to_set());
        for i in 0..inv.len()
            invariant
                strictly_sorted(views(v@)),
                views(v@).to_set() == inventory_of(base).to_set() + views(inv@.take(i as int)).to_set(),
        {
            insert_sorted(&mut v, &inv[i]);
            assert(views(inv@.take(i + 1)) =~= views(inv@.take(i as int)).push(inv@[i as int]@));
            proof { lemma_push_to_set(views(inv@.take(i as int)), inv@[i as int]@); }
            assert(inventory_of(base).to_set() + views(inv@.take(i + 1)).to_set() =~= (inventory_of(base).to_set() + views(inv@.take(i as int)).to_set()).insert(inv@[i as int]@));
        }
        assert(inv@.take(inv@.len() as int) =~= inv@);
    } else {
        assert(inventory_of(base).to_set() + inventory_of(candidate).to_set() =~= inventory_of(base).to_set());
    }
    assert(views(v@).to_set() =~= inventory_set(base, candidate));
    proof {
        lemma_is_listing(views(v@), inventory_set(base, candidate));
    }
    v
}


/// The candidate include a base include is compared with: the last one with
/// its path and kind.
fn find_include<'a>(candidates: &'a Vec<DocumentInclude>, path: &Vec<u8>, kind: IncludeKind) -> (r: Option<&'a DocumentInclude>)
    ensures
        (match r {
            Some(c) => Some(*c),
            None => None,
        }) == matching_include(candidates@, path@, kind),
{
    let mut k = candidates.len();
    assert(candidates@.take(k as int) =~= candidates@);
    while k > 0
        invariant
            k <= candidates@.len(),
            matching_include(candidates@, path@, kind) == matching_include(candidates@.take(k as int), path@, kind),
        decreases k,
    {
        let c = &candidates[k - 1];
        assert(candidates@.take(k as int).last() == candidates@[k - 1]);
        if c.kind == kind && same_bytes(&c.path, path) {
            return Some(c);
        }
        assert(candidates@.take(k as int).drop_last() =~= candidates@.take(k - 1));
        k = k - 1;
    }
    assert(candidates@.take(0) =~= Seq::<DocumentInclude>::empty());
    None
}

/// Whether a path is among a list's paths.
fn holds_path(v: &Vec<Vec<u8>>, path: &Vec<u8>) -> (r: bool)
    ensures
        r == views(v@).contains(path@),
{
    let mut k: usize = 0;
    while k < v.len()
        invariant
            k <= v@.len(),
            forall|m: int| 0 <= m < k ==> v@[m]@ != path@,
        decreases v@.len() - k,
    {
        if same_bytes(&v[k], path) {
            assert(views(v@)[k as int] == path@);
            return true;
        }
        k = k + 1;
    }
    assert forall|m: int| 0 <= m < views(v@).len() implies views(v@)[m] != path@ by {
        assert(views(v@)[m] == v@[m]@);
    }
    false
}

/// The disposition the first row of a kind gives, if any.
fn first_row(rows: &Vec<FindingDisposition>, kind: PromotableFindingKind) -> (r: Option<Disposition>)
    ensures
        r == first_disposition(rows@, kind),
{
    let mut k: usize = 0;
    assert(rows@.skip(0) =~= rows@);
    while k < rows.len()
        invariant
            k <= rows@.len(),
            first_disposition(rows@, kind) == first_disposition(rows@.skip(k as int), kind),
        decreases rows@.len() - k,
    {
        assert(rows@.skip(k as int)[0] == rows@[k as int]);
        if rows[k].finding_kind == kind {
            return Some(rows[k].disposition);
        }
        assert(rows@.skip(k as int).drop_first() =~= rows@.skip(k + 1));
        k = k + 1;
    }
    assert(rows@.skip(k as int) =~= Seq::<FindingDisposition>::empty());
    None
}

/// A copy of a path.
pub(crate) fn copy_path(p: &Vec<u8>) -> (r: Vec<u8>)
    ensures
        r@ == p@,
{
    let mut r: Vec<u8> = Vec::new();
    for i in 0..p.len()
        invariant
            r@ == p@.take(i as int),
    {
        r.push(p[i]);
        assert(p@.take(i + 1) =~= p@.take(i as int).push(p@[i as int]));
    }
    assert(p@.take(p@.len() as int) =~= p@);
    r
}

/// Compares the two sides of the policy and holds the protected inventory
/// against the candidate's documents. `candidate_documents` gives the
/// candidate state of each path of `inventory_union(base, candidate)`, in
/// its order; `policy_path` is where the scanner policy itself lives, the
/// path a weakened disposition is reported at.
pub fn effects(
    base: Option<&ScannerPolicy>,
    candidate: Option<&ScannerPolicy>,
    base_digest: &Option<Vec<u8>>,
    candidate_digest: &Option<Vec<u8>>,
    policy_path: &Vec<u8>,
    candidate_documents: &[InventoryState],
) -> (r: Effects)
    requires
        candidate_documents@.len() == listing(inventory_set(base, candidate)).len(),
    ensures
        seed_views(r.controls@) == include_seeds(includes_of(base), includes_of(candidate))
            + removed_seeds(inventory_of(base), inventory_of(candidate))
            + disposition_seeds(rows_of(base), rows_of(candidate), policy_path@)
            + coverage_seeds(listing(inventory_set(base, candidate)), candidate_documents@),
        r.raised@ == rows_of(candidate),
        r.floor_raised@.len() == 0,
        digest_view(r.base_digest) == digest_view(*base_digest),
        digest_view(r.candidate_digest) == digest_view(*candidate_digest),
        no_external_controls(r),
        r.errors_retained == ERRORS_RETAINED,
        r.complete_findings == COMPLETE_FINDINGS,
{
    let mut controls: Vec<ControlSeed> = Vec::new();
    let no_includes: Vec<DocumentInclude> = Vec::new();
    let no_paths: Vec<Vec<u8>> = Vec::new();
    let no_rows: Vec<FindingDisposition> = Vec::new();
    let (base_includes, base_inventory, base_rows) = match base {
        Some(p) => (&p.document_includes, &p.protected_inventory, &p.finding_dispositions),
        None => (&no_includes, &no_paths, &no_rows),
    };
    let (candidate_includes, candidate_inventory, candidate_rows) = match candidate {
        Some(p) => (&p.document_includes, &p.protected_inventory, &p.finding_dispositions),
        None => (&no_includes, &no_paths, &no_rows),
    };
    assert(base_includes@ == includes_of(base));
    assert(views(base_inventory@) =~= inventory_of(base));
    assert(views(candidate_inventory@) =~= inventory_of(candidate));
    // the includes the candidate drops or weakens
    for i in 0..base_includes.len()
        invariant
            seed_views(controls@) == include_seeds(base_includes@.take(i as int), candidate_includes@),
    {
        let row = &base_includes[i];
        let found = find_include(candidate_includes, &row.path, row.kind);
        let rule = include_weakening(row, found);
        assert(base_includes@.take(i + 1).drop_last() =~= base_includes@.take(i as int));
        if let Some(rule) = rule {
            controls.push(ControlSeed {
                kind: ControlKind::PolicyWeakened,
                rule_id: rule.to_owned(),
                control_path: copy_path(&row.path),
            });
        }
        assert(seed_views(controls@) =~= include_seeds(base_includes@.take(i + 1), candidate_includes@));
    }
    assert(base_includes@.take(base_includes@.len() as int) =~= base_includes@);
    let ghost included = seed_views(controls@);
    // the protected paths the candidate drops
    for i in 0..base_inventory.len()
        invariant
            seed_views(controls@) == included + removed_seeds(views(base_inventory@).take(i as int), views(candidate_inventory@)),
    {
        let member = &base_inventory[i];
        let kept = holds_path(candidate_inventory, member);
        assert(views(base_inventory@).take(i + 1).drop_last() =~= views(base_inventory@).take(i as int));
        assert(views(base_inventory@).take(i + 1).last() == member@);
        let ghost pre = seed_views(controls@);
        if !kept {
            controls.push(ControlSeed {
                kind: ControlKind::PolicyWeakened,
                rule_id: "policy/inventory-removed".to_owned(),
                control_path: copy_path(member),
            });
            assert(seed_views(controls@) =~= pre.push((ControlKind::PolicyWeakened, "policy/inventory-removed"@, member@)));
        } else {
            assert(seed_views(controls@) =~= pre);
        }
        assert(seed_views(controls@) =~= included + removed_seeds(views(base_inventory@).take(i + 1), views(candidate_inventory@)));
    }
    assert(views(base_inventory@).take(base_inventory@.len() as int) =~= views(base_inventory@));
    let ghost removed = seed_views(controls@);
    // the dispositions the candidate drops or lowers
    for i in 0..base_rows.len()
        invariant
            seed_views(controls@) == removed + disposition_seeds(base_rows@.take(i as int), candidate_rows@, policy_path@),
    {
        let row = base_rows[i];
        let now = first_row(candidate_rows, row.finding_kind);
        let kept = match now {
            Some(d) => !d.weaker_than(row.disposition),
            None => false,
        };
        assert(base_rows@.take(i + 1).drop_last() =~= base_rows@.take(i as int));
        assert(base_rows@.take(i + 1).last() == row);
        let ghost pre = seed_views(controls@);
        if !kept {
            controls.push(ControlSeed {
                kind: ControlKind::PolicyWeakened,
                rule_id: row.finding_kind.disposition_rule().to_owned(),
                control_path: copy_path(policy_path),
            });
            assert(seed_views(controls@) =~= pre.push((ControlKind::PolicyWeakened, row.finding_kind.disposition_rule_of(), policy_path@)));
        } else {
            assert(seed_views(controls@) =~= pre);
        }
        assert(seed_views(controls@) =~= removed + disposition_seeds(base_rows@.take(i + 1), candidate_rows@, policy_path@));
    }
    assert(base_rows@.take(base_rows@.len() as int) =~= base_rows@);
    let ghost weakened = seed_views(controls@);
    // the protected paths the candidate does not scan
    let inventory = inventory_union(base, candidate);
    for i in 0..inventory.len()
        invariant
            views(inventory@) == listing(inventory_set(base, candidate)),
            candidate_documents@.len() == inventory@.len(),
            seed_views(controls@) == weakened + coverage_seeds(views(inventory@).take(i as int), candidate_documents@),
    {
        let state = candidate_documents[i];
        assert(views(inventory@).take(i + 1).drop_last() =~= views(inventory@).take(i as int));
        assert(views(inventory@).take(i + 1)[i as int] == inventory@[i as int]@);
        let ghost pre = seed_views(controls@);
        if let Some(rule) = state.coverage_rule() {
            controls.push(ControlSeed {
                kind: ControlKind::CoverageReduced,
                rule_id: rule.to_owned(),
                control_path: copy_path(&inventory[i]),
            });
            assert(seed_views(controls@) =~= pre.push((ControlKind::CoverageReduced, rule@, inventory@[i as int]@)));
        } else {
            assert(seed_views(controls@) =~= pre);
        }
        assert(seed_views(controls@) =~= weakened + coverage_seeds(views(inventory@).take(i + 1), candidate_documents@));
    }
    assert(views(inventory@).take(inventory@.len() as int) =~= views(inventory@));
    let mut raised: Vec<FindingDisposition> = Vec::new();
    for i in 0..candidate_rows.len()
        invariant
            raised@ == candidate_rows@.take(i as int),
    {
        raised.push(candidate_rows[i]);
        assert(candidate_rows@.take(i + 1) =~= candidate_rows@.take(i as int).push(candidate_rows@[i as int]));
    }
    assert(candidate_rows@.take(candidate_rows@.len() as int) =~= candidate_rows@);
    Effects {
        raised,
        floor_raised: Vec::new(),
        controls,
        base_digest: copy_digest(base_digest),
        candidate_digest: copy_digest(candidate_digest),
        floor: None,
        debt: None,
        waiver: None,
        time: None,
        constraint: None,
        errors_retained: ERRORS_RETAINED,
        complete_findings: COMPLETE_FINDINGS,
    }
}


/// No two includes name the same path with the same kind.
pub open spec fn include_keys_unique(v: Seq<DocumentInclude>) -> bool {
    forall|i: int, j: int|
        0 <= i < j < v.len() ==> !((#[trigger] v[i]).path@ == (#[trigger] v[j]).path@ && v[i].kind == v[j].kind)
}

/// No two disposition rows name the same kind.
pub open spec fn row_kinds_unique(v: Seq<FindingDisposition>) -> bool {
    forall|i: int, j: int| 0 <= i < j < v.len() ==> (#[trigger] v[i]).finding_kind != (#[trigger] v[j]).finding_kind
}

proof fn lemma_matching_include_finds(v: Seq<DocumentInclude>, k: int)
    requires
        include_keys_unique(v),
        0 <= k < v.len(),
    ensures
        matching_include(v, v[k].path@, v[k].kind) == Some(v[k]),
    decreases v.len(),
{
    if k < v.len() - 1 {
        let w = v.drop_last();
        assert(!(v[k].path@ == v.last().path@ && v[k].kind == v.last().kind)) by {
            assert(v.last() == v[v.len() - 1]);
        }
        assert(include_keys_unique(w)) by {
            assert forall|i: int, j: int| 0 <= i < j < w.len() implies !((#[trigger] w[i]).path@ == (#[trigger] w[j]).path@ && w[i].kind == w[j].kind) by {
                assert(w[i] == v[i] && w[j] == v[j]);
            }
        }
        assert(w[k] == v[k]);
        lemma_matching_include_finds(w, k);
    }
}

proof fn lemma_first_disposition_finds(v: Seq<FindingDisposition>, k: int)
    requires
        row_kinds_unique(v),
        0 <= k < v.len(),
    ensures
        first_disposition(v, v[k].finding_kind) == Some(v[k].disposition),
    decreases v.len(),
{
    if k > 0 {
        let w = v.drop_first();
        assert(v[0].finding_kind != v[k].finding_kind);
        assert(row_kinds_unique(w)) by {
            assert forall|i: int, j: int| 0 <= i < j < w.len() implies (#[trigger] w[i]).finding_kind != (#[trigger] w[j]).finding_kind by {
                assert(w[i] == v[i + 1] && w[j] == v[j + 1]);
            }
        }
        assert(w[k - 1] == v[k]);
        lemma_first_disposition_finds(w, k - 1);
    }
}

/// A policy compared with itself weakens nothing: every include, protected
/// path and disposition is kept, so the comparison raises only the coverage
/// rules of paths the candidate does not scan. Includes are keyed by path and
/// kind and rows by kind, as the policy's own rows are.
pub proof fn lemma_unchanged_policy_weakens_nothing(p: Option<&ScannerPolicy>, policy_path: Seq<u8>)
    requires
        include_keys_unique(includes_of(p)),
        row_kinds_unique(rows_of(p)),
    ensures
        include_seeds(includes_of(p), includes_of(p)) == Seq::<(ControlKind, Seq<char>, Seq<u8>)>::empty(),
        removed_seeds(inventory_of(p), inventory_of(p)) == Seq::<(ControlKind, Seq<char>, Seq<u8>)>::empty(),
        disposition_seeds(rows_of(p), rows_of(p), policy_path) == Seq::<(ControlKind, Seq<char>, Seq<u8>)>::empty(),
{
    let v = includes_of(p);
    assert forall|n: int| 0 <= n <= v.len() implies #[trigger] include_seeds(v.take(n), v) == Seq::<(ControlKind, Seq<char>, Seq<u8>)>::empty() by {
        lemma_include_prefix_kept(v, n);
    }
    assert(v.take(v.len() as int) =~= v);
    let w = inventory_of(p);
    assert forall|n: int| 0 <= n <= w.len() implies #[trigger] removed_seeds(w.take(n), w) == Seq::<(ControlKind, Seq<char>, Seq<u8>)>::empty() by {
        lemma_inventory_prefix_kept(w, n);
    }
    assert(w.take(w.len() as int) =~= w);
    let r = rows_of(p);
    assert forall|n: int| 0 <= n <= r.len() implies #[trigger] disposition_seeds(r.take(n), r, policy_path) == Seq::<(ControlKind, Seq<char>, Seq<u8>)>::empty() by {
        lemma_rows_prefix_kept(r, n, policy_path);
    }
    assert(r.take(r.len() as int) =~= r);
}

proof fn lemma_include_prefix_kept(v: Seq<DocumentInclude>, n: int)
    requires
        include_keys_unique(v),
        0 <= n <= v.len(),
    ensures
        include_seeds(v.take(n), v) == Seq::<(ControlKind, Seq<char>, Seq<u8>)>::empty(),
    decreases n,
{
    if n > 0 {
        assert(v.take(n).drop_last() =~= v.take(n - 1));
        assert(v.take(n).last() == v[n - 1]);
        lemma_include_prefix_kept(v, n - 1);
        lemma_matching_include_finds(v, n - 1);
        assert(include_seeds(v.take(n), v) =~= Seq::<(ControlKind, Seq<char>, Seq<u8>)>::empty());
    }
}

proof fn lemma_inventory_prefix_kept(w: Seq<Seq<u8>>, n: int)
    requires
        0 <= n <= w.len(),
    ensures
        removed_seeds(w.take(n), w) == Seq::<(ControlKind, Seq<char>, Seq<u8>)>::empty(),
    decreases n,
{
    if n > 0 {
        assert(w.take(n).drop_last() =~= w.take(n - 1));
        assert(w.take(n).last() == w[n - 1]);
        assert(w.contains(w[n - 1]));
        lemma_inventory_prefix_kept(w, n - 1);
        assert(removed_seeds(w.take(n), w) =~= Seq::<(ControlKind, Seq<char>, Seq<u8>)>::empty());
    }
}

proof fn lemma_rows_prefix_kept(r: Seq<FindingDisposition>, n: int, policy_path: Seq<u8>)
    requires
        row_kinds_unique(r),
        0 <= n <= r.len(),
    ensures
        disposition_seeds(r.take(n), r, policy_path) == Seq::<(ControlKind, Seq<char>, Seq<u8>)>::empty(),
    decreases n,
{
    if n > 0 {
        assert(r.take(n).drop_last() =~= r.take(n - 1));
        assert(r.take(n).last() == r[n - 1]);
        lemma_rows_prefix_kept(r, n - 1, policy_path);
        lemma_first_disposition_finds(r, n - 1);
        assert(disposition_seeds(r.take(n), r, policy_path) =~= Seq::<(ControlKind, Seq<char>, Seq<u8>)>::empty());
    }
}

} // verus!

//! The policy trace of one finding: the built-in disposition, the raises a
//! repository policy and an organization floor make, the enforce-introduced
//! downgrade, and the debt and waiver exceptions, each a step whose before is
//! the preceding after; and the defects that keep a debt or waiver item from
//! applying.

use crate::policy::{FindingDisposition, PromotableFindingKind};
use crate::policy::effects::first_disposition;
use crate::text::concat;
use vstd::prelude::*;

verus! {

/// How a finding is reported, weakest first.
#[derive(Clone, Copy, Debug, PartialEq, Eq, Structural)]
pub enum Disposition {
    Record,
    Warn,
    Fail,
}

impl Disposition {
    /// The disposition's strength.
    pub open spec fn rank(self) -> nat {
        match self {
            Disposition::Record => 0,
            Disposition::Warn => 1,
            Disposition::Fail => 2,
        }
    }

    /// Whether this disposition is stronger than `other`.
    pub fn stronger_than(self, other: Disposition) -> (r: bool)
        ensures
            r == (self.rank() > other.rank()),
    {
        match (self, other) {
            (Disposition::Fail, Disposition::Warn) | (Disposition::Fail, Disposition::Record) | (Disposition::Warn, Disposition::Record) => true,
            _ => false,
        }
    }

    /// A policy row's disposition as a report disposition.
    pub open spec fn of_policy(d: crate::policy::Disposition) -> Disposition {
        match d {
            crate::policy::Disposition::Warn => Disposition::Warn,
            crate::policy::Disposition::Fail => Disposition::Fail,
        }
    }

    /// A policy row's disposition as a report disposition.
    pub fn from_policy(d: crate::policy::Disposition) -> (r: Disposition)
        ensures
            r == Disposition::of_policy(d),
    {
        match d {
            crate::policy::Disposition::Warn => Disposition::Warn,
            crate::policy::Disposition::Fail => Disposition::Fail,
        }
    }
}

/// Where a step of the trace comes from.
#[derive(Clone, Copy, Debug, PartialEq, Eq, Structural)]
pub enum StepSource {
    BuiltIn,
    ResolvedProjection,
    RepositoryPolicy,
    OrganizationFloor,
    DebtSnapshot,
    WaiverBundle,
}

impl StepSource {
    /// The source's name in reports.
    pub open spec fn name(self) -> Seq<char> {
        match self {
            StepSource::BuiltIn => "built-in"@,
            StepSource::ResolvedProjection => "resolved-projection"@,
            StepSource::RepositoryPolicy => "repository-policy"@,
            StepSource::OrganizationFloor => "organization-floor"@,
            StepSource::DebtSnapshot => "debt-snapshot"@,
            StepSource::WaiverBundle => "waiver-bundle"@,
        }
    }

    /// The source's name in reports.
    pub fn as_str(self) -> (r: &'static str)
        ensures
            r@ == self.name(),
    {
        match self {
            StepSource::BuiltIn => "built-in",
            StepSource::ResolvedProjection => "resolved-projection",
            StepSource::RepositoryPolicy => "repository-policy",
            StepSource::OrganizationFloor => "organization-floor",
            StepSource::DebtSnapshot => "debt-snapshot",
            StepSource::WaiverBundle => "waiver-bundle",
        }
    }
}

/// One step of a finding's policy trace.
pub struct PolicyStep {
    pub source: StepSource,
    pub rule_id: String,
    pub before: Disposition,
    pub after: Disposition,
}

/// A step as values: source, rule, before, after.
pub type StepView = (StepSource, Seq<char>, Disposition, Disposition);

impl View for PolicyStep {
    type V = (StepSource, Seq<char>, Disposition, Disposition);

    open spec fn view(&self) -> (StepSource, Seq<char>, Disposition, Disposition) {
        (self.source, self.rule_id@, self.before, self.after)
    }
}

/// A finding's dispositions and the steps that led to them.
pub struct Trace {
    pub configured: Disposition,
    pub effective: Disposition,
    pub steps: Vec<PolicyStep>,
}

/// The steps as values.
pub open spec fn step_views(v: Seq<PolicyStep>) -> Seq<StepView> {
    v.map_values(|s: PolicyStep| s@)
}

/// Where the steps end: the last step's after, or the configured
/// disposition before any step.
pub open spec fn current_of(t: Trace) -> Disposition {
    if t.steps@.len() == 0 {
        t.configured
    } else {
        t.steps@.last().after
    }
}

/// Each step starts where the one before it ended, and the effective
/// disposition is where the steps end.
pub open spec fn chained(t: Trace) -> bool {
    &&& forall|i: int, j: int| 0 <= i && j == i + 1 && j < t.steps@.len() ==> (#[trigger] t.steps@[j]).before == (#[trigger] t.steps@[i]).after
    &&& t.effective == current_of(t)
}

/// Where the steps end.
pub fn current(t: &Trace) -> (r: Disposition)
    ensures
        r == current_of(*t),
{
    if t.steps.len() == 0 {
        t.configured
    } else {
        t.steps[t.steps.len() - 1].after
    }
}

/// The raise a list of rows gives a finding of `kind`: the first row of its
/// kind.
pub open spec fn raise_target(kind: Option<PromotableFindingKind>, raised: Seq<FindingDisposition>) -> Option<Disposition> {
    match kind {
        Some(k) => match first_disposition(raised, k) {
            Some(d) => Some(Disposition::of_policy(d)),
            None => None,
        },
        None => None,
    }
}

/// The first row of a kind.
fn first_raise(raised: &[FindingDisposition], kind: PromotableFindingKind) -> (r: Option<crate::policy::Disposition>)
    ensures
        r == first_disposition(raised@, kind),
{
    let mut k: usize = 0;
    assert(raised@.skip(0) =~= raised@);
    while k < raised.len()
        invariant
            k <= raised@.len(),
            first_disposition(raised@, kind) == first_disposition(raised@.skip(k as int), kind),
        decreases raised@.len() - k,
    {
        assert(raised@.skip(k as int)[0] == raised@[k as int]);
        if raised[k].finding_kind == kind {
            return Some(raised[k].disposition);
        }
        assert(raised@.skip(k as int).drop_first() =~= raised@.skip(k + 1));
        k = k + 1;
    }
    assert(raised@.skip(k as int) =~= Seq::<FindingDisposition>::empty());
    None
}

/// Where the steps end, read from their values.
proof fn lemma_current_of_views(t: Trace)
    ensures
        step_views(t.steps@).len() == t.steps@.len(),
        t.steps@.len() > 0 ==> current_of(t) == step_views(t.steps@).last().3,
{
    if t.steps@.len() > 0 {
        assert(step_views(t.steps@).last() == t.steps@.last()@);
    }
}

/// Pushes one step from where the trace ends.
fn push_step(t: &mut Trace, source: StepSource, rule_id: String, after: Disposition)
    requires
        chained(*old(t)),
    ensures
        step_views(final(t).steps@) == step_views(old(t).steps@).push((source, rule_id@, current_of(*old(t)), after)),
        final(t).configured == old(t).configured,
        final(t).effective == after,
        chained(*final(t)),
{
    let before = current(t);
    let ghost old_steps = t.steps@;
    t.steps.push(PolicyStep { source, rule_id, before, after });
    t.effective = after;
    assert(step_views(t.steps@) =~= step_views(old_steps).push((source, rule_id@, before, after)));
    assert forall|i: int, j: int| 0 <= i && j == i + 1 && j < t.steps@.len() implies (#[trigger] t.steps@[j]).before == (#[trigger] t.steps@[i]).after by {
        if j < old_steps.len() {
            assert(t.steps@[j] == old_steps[j] && t.steps@[i] == old_steps[i]);
        } else {
            assert(t.steps@[i] == old_steps.last());
        }
    }
}

/// Steps two and three: a matching rule applies only when it strictly
/// raises the disposition, and its step starts where the trace ends.
pub fn apply_raise(
    t: &mut Trace,
    kind: Option<PromotableFindingKind>,
    raised: &[FindingDisposition],
    source: StepSource,
    prefix: &str,
)
    requires
        chained(*old(t)),
    ensures
        chained(*final(t)),
        final(t).configured == old(t).configured,
        current_of(*final(t)).rank() >= current_of(*old(t)).rank(),
        match raise_target(kind, raised@) {
            Some(target) => if target.rank() > current_of(*old(t)).rank() {
                step_views(final(t).steps@) == step_views(old(t).steps@).push(
                    (source, prefix@ + "/"@ + kind.unwrap().name(), current_of(*old(t)), target),
                )
            } else {
                step_views(final(t).steps@) == step_views(old(t).steps@) && final(t).effective == old(t).effective
            },
            None => step_views(final(t).steps@) == step_views(old(t).steps@) && final(t).effective == old(t).effective,
        },
{
    let k = match kind {
        Some(k) => k,
        None => return,
    };
    let target = match first_raise(raised, k) {
        Some(d) => Disposition::from_policy(d),
        None => return,
    };
    let now = current(t);
    if target.stronger_than(now) {
        let rule = concat(concat(prefix, "/").as_str(), k.as_str());
        push_step(t, source, rule, target);
        proof {
            lemma_current_of_views(*t);
        }
    }
}

/// The policy's raises on one finding: a finding the change resolved, or
/// one without a candidate fact, takes none; otherwise the repository
/// policy, then the floor, may raise it, and the configured and effective
/// dispositions become where the steps end.
pub fn apply_policy(
    t: &mut Trace,
    kind: Option<PromotableFindingKind>,
    resolved: bool,
    has_candidate_fact: bool,
    repository: &[FindingDisposition],
    floor: &[FindingDisposition],
)
    requires
        chained(*old(t)),
    ensures
        chained(*final(t)),
        (resolved || !has_candidate_fact) ==> step_views(final(t).steps@) == step_views(old(t).steps@) && final(t).configured == old(t).configured && final(t).effective == old(t).effective,
        !(resolved || !has_candidate_fact) ==> final(t).configured == current_of(*final(t)),
        current_of(*final(t)).rank() >= current_of(*old(t)).rank(),
        forall|k: int| 0 <= k < old(t).steps@.len() ==> #[trigger] step_views(final(t).steps@)[k] == step_views(old(t).steps@)[k],
        step_views(final(t).steps@).len() <= old(t).steps@.len() + 2,
{
    if resolved || !has_candidate_fact {
        return;
    }
    let ghost s0 = step_views(t.steps@);
    apply_raise(t, kind, repository, StepSource::RepositoryPolicy, "repository");
    let ghost s1 = step_views(t.steps@);
    apply_raise(t, kind, floor, StepSource::OrganizationFloor, "floor");
    let ghost s2 = step_views(t.steps@);
    assert(forall|k: int| 0 <= k < s0.len() ==> s1[k] == s0[k]);
    assert(forall|k: int| 0 <= k < s1.len() ==> s2[k] == s1[k]);
    let now = current(t);
    t.configured = now;
    t.effective = now;
}

/// Under a profile that blocks only what a change introduces, a failing
/// finding that was already there is lowered to a warning by a built-in
/// step.
pub fn enforce_introduced(t: &mut Trace, pre_existing: bool, kind_name: &str)
    requires
        chained(*old(t)),
    ensures
        chained(*final(t)),
        final(t).configured == old(t).configured,
        if old(t).effective == Disposition::Fail && pre_existing {
            &&& step_views(final(t).steps@) == step_views(old(t).steps@).push(
                (StepSource::BuiltIn, "scanner-policy-defaults/"@ + kind_name@ + "/enforce-introduced"@, Disposition::Fail, Disposition::Warn),
            )
            &&& final(t).effective == Disposition::Warn
        } else {
            step_views(final(t).steps@) == step_views(old(t).steps@) && final(t).effective == old(t).effective
        },
{
    if t.effective == Disposition::Fail && pre_existing {
        let rule = concat(concat("scanner-policy-defaults/", kind_name).as_str(), "/enforce-introduced");
        push_step(t, StepSource::BuiltIn, rule, Disposition::Warn);
    }
}

/// The application and overlap law: a finding matched by both a valid debt
/// item and a valid waiver applies neither and reports the overlap; a valid
/// debt step is taken even as a no-op and ends at a warning; a waiver step is
/// exactly a fail lowered to a warning, and a finding not failing takes
/// none.
pub fn apply_exception(t: &mut Trace, debt: Option<&str>, waiver: Option<&str>) -> (overlap: bool)
    requires
        chained(*old(t)),
    ensures
        chained(*final(t)),
        final(t).configured == old(t).configured,
        overlap == (debt is Some && waiver is Some),
        match (debt, waiver) {
            (Some(d), None) => step_views(final(t).steps@) == step_views(old(t).steps@).push(
                (StepSource::DebtSnapshot, "debt/"@ + d@, current_of(*old(t)), Disposition::Warn),
            ) && final(t).effective == Disposition::Warn,
            (None, Some(w)) => if current_of(*old(t)) == Disposition::Fail {
                step_views(final(t).steps@) == step_views(old(t).steps@).push(
                    (StepSource::WaiverBundle, "waiver/"@ + w@, Disposition::Fail, Disposition::Warn),
                ) && final(t).effective == Disposition::Warn
            } else {
                step_views(final(t).steps@) == step_views(old(t).steps@) && final(t).effective == old(t).effective
            },
            _ => step_views(final(t).steps@) == step_views(old(t).steps@) && final(t).effective == old(t).effective,
        },
{
    match (debt, waiver) {
        (Some(_), Some(_)) => true,
        (Some(d), None) => {
            let rule = concat("debt/", d);
            push_step(t, StepSource::DebtSnapshot, rule, Disposition::Warn);
            false
        },
        (None, Some(w)) => {
            if current(t) == Disposition::Fail {
                let rule = concat("waiver/", w);
                push_step(t, StepSource::WaiverBundle, rule, Disposition::Warn);
            }
            false
        },
        (None, None) => false,
    }
}

/// A trace as values: configured, effective, and the steps.
pub type TraceView = (Disposition, Disposition, Seq<StepView>);

pub open spec fn trace_view(t: Trace) -> TraceView {
    (t.configured, t.effective, step_views(t.steps@))
}

/// Where a trace's steps end.
pub open spec fn ends(v: TraceView) -> Disposition {
    if v.2.len() == 0 {
        v.0
    } else {
        v.2.last().3
    }
}

/// What one list of raise rows does to a trace.
pub open spec fn raised_by(v: TraceView, kind: Option<PromotableFindingKind>, raised: Seq<FindingDisposition>, source: StepSource, prefix: Seq<char>) -> TraceView {
    match raise_target(kind, raised) {
        Some(target) => if target.rank() > ends(v).rank() {
            (v.0, target, v.2.push((source, prefix + "/"@ + kind.unwrap().name(), ends(v), target)))
        } else {
            v
        },
        None => v,
    }
}

/// What the repository policy and then the floor do to a finding's trace.
pub open spec fn policy_applied(v: TraceView, kind: Option<PromotableFindingKind>, resolved: bool, has_candidate_fact: bool, repository: Seq<FindingDisposition>, floor: Seq<FindingDisposition>) -> TraceView {
    if resolved || !has_candidate_fact {
        v
    } else {
        let v2 = raised_by(
            raised_by(v, kind, repository, StepSource::RepositoryPolicy, "repository"@),
            kind,
            floor,
            StepSource::OrganizationFloor,
            "floor"@,
        );
        (ends(v2), ends(v2), v2.2)
    }
}

/// What enforcing only introduced findings does to a trace.
pub open spec fn enforced(v: TraceView, pre_existing: bool, kind_name: Seq<char>) -> TraceView {
    if v.1 == Disposition::Fail && pre_existing {
        (v.0, Disposition::Warn, v.2.push(
            (StepSource::BuiltIn, "scanner-policy-defaults/"@ + kind_name + "/enforce-introduced"@, Disposition::Fail, Disposition::Warn),
        ))
    } else {
        v
    }
}

/// What a valid debt item or waiver does to a trace.
pub open spec fn excepted(v: TraceView, debt: Option<Seq<char>>, waiver: Option<Seq<char>>) -> TraceView {
    match (debt, waiver) {
        (Some(d), None) => (v.0, Disposition::Warn, v.2.push((StepSource::DebtSnapshot, "debt/"@ + d, ends(v), Disposition::Warn))),
        (None, Some(w)) => if ends(v) == Disposition::Fail {
            (v.0, Disposition::Warn, v.2.push((StepSource::WaiverBundle, "waiver/"@ + w, Disposition::Fail, Disposition::Warn)))
        } else {
            v
        },
        _ => v,
    }
}

proof fn lemma_trace_ends(t: Trace)
    requires
        chained(t),
    ensures
        ends(trace_view(t)) == current_of(t),
        t.effective == ends(trace_view(t)),
{
    lemma_current_of_views(t);
}

/// One finding as the policy passes read and change it: its key, its kind
/// (where a policy can raise it) and the kind's name, its attribution,
/// whether it has a candidate fact, its trace, and the valid debt item and
/// waiver that select it, if any.
pub struct PolicyFinding {
    pub key: Vec<u8>,
    pub kind: Option<PromotableFindingKind>,
    pub kind_name: String,
    pub attribution: crate::evaluate::Attribution,
    pub has_candidate_fact: bool,
    pub trace: Trace,
    pub debt: Option<String>,
    pub waiver: Option<String>,
}

pub open spec fn opt_text(o: Option<String>) -> Option<Seq<char>> {
    match o {
        Some(s) => Some(s@),
        None => None,
    }
}

/// What the policy passes make of one finding's trace: the raises, then,
/// under a profile blocking only introduced findings, the lowering of a
/// failing pre-existing one, then, where exceptions are in force, its valid
/// debt item or waiver.
pub open spec fn passed(f: PolicyFinding, repository: Seq<FindingDisposition>, floor: Seq<FindingDisposition>, introduced_only: bool, exceptions: bool) -> TraceView {
    let v1 = policy_applied(
        trace_view(f.trace),
        f.kind,
        f.attribution == crate::evaluate::Attribution::Resolved,
        f.has_candidate_fact,
        repository,
        floor,
    );
    let v2 = if introduced_only {
        enforced(v1, f.attribution == crate::evaluate::Attribution::PreExisting, f.kind_name@)
    } else {
        v1
    };
    if exceptions {
        excepted(v2, opt_text(f.debt), opt_text(f.waiver))
    } else {
        v2
    }
}

/// Whether a finding is selected by both a valid debt item and a valid
/// waiver, which applies neither and reports the overlap.
pub open spec fn overlapping(f: PolicyFinding) -> bool {
    f.debt is Some && f.waiver is Some
}

fn pass_one(f: &mut PolicyFinding, repository: &[FindingDisposition], floor: &[FindingDisposition], introduced_only: bool, exceptions: bool) -> (overlap: bool)
    requires
        chained(old(f).trace),
    ensures
        chained(final(f).trace),
        trace_view(final(f).trace) == passed(*old(f), repository@, floor@, introduced_only, exceptions),
        final(f).key == old(f).key,
        final(f).kind == old(f).kind,
        final(f).kind_name == old(f).kind_name,
        final(f).attribution == old(f).attribution,
        final(f).has_candidate_fact == old(f).has_candidate_fact,
        final(f).debt == old(f).debt,
        final(f).waiver == old(f).waiver,
        overlap == (exceptions && overlapping(*old(f))),
{
    let resolved = f.attribution == crate::evaluate::Attribution::Resolved;
    let pre_existing = f.attribution == crate::evaluate::Attribution::PreExisting;
    let ghost t0 = f.trace;
    proof {
        lemma_trace_ends(t0);
    }
    if !(resolved || !f.has_candidate_fact) {
        apply_raise(&mut f.trace, f.kind, repository, StepSource::RepositoryPolicy, "repository");
        let ghost t1 = f.trace;
        proof {
            lemma_trace_ends(t1);
            reveal_strlit("repository");
        }
        apply_raise(&mut f.trace, f.kind, floor, StepSource::OrganizationFloor, "floor");
        proof {
            lemma_trace_ends(f.trace);
            reveal_strlit("floor");
        }
        let now = current(&f.trace);
        f.trace.configured = now;
        f.trace.effective = now;
    }
    let ghost v1 = trace_view(f.trace);
    proof {
        lemma_trace_ends(f.trace);
    }
    if introduced_only {
        enforce_introduced(&mut f.trace, pre_existing, f.kind_name.as_str());
    }
    proof {
        lemma_trace_ends(f.trace);
    }
    let mut overlap = false;
    if exceptions {
        let debt = match &f.debt {
            Some(d) => Some(d.as_str()),
            None => None,
        };
        let waiver = match &f.waiver {
            Some(w) => Some(w.as_str()),
            None => None,
        };
        overlap = apply_exception(&mut f.trace, debt, waiver);
        proof {
            lemma_trace_ends(f.trace);
        }
    }
    overlap
}

/// The policy passes over every finding: each finding's trace becomes what
/// the raises, the profile and the exceptions make of it, and the overlap is
/// reported where exceptions are in force and some finding is selected by
/// both a valid debt item and a valid waiver.
pub fn apply_policy_passes(
    findings: &mut Vec<PolicyFinding>,
    repository: &[FindingDisposition],
    floor: &[FindingDisposition],
    introduced_only: bool,
    exceptions: bool,
) -> (overlap: bool)
    requires
        forall|i: int| 0 <= i < old(findings)@.len() ==> chained((#[trigger] old(findings)@[i]).trace),
    ensures
        final(findings)@.len() == old(findings)@.len(),
        forall|i: int| 0 <= i < final(findings)@.len() ==> {
            &&& chained((#[trigger] final(findings)@[i]).trace)
            &&& trace_view(final(findings)@[i].trace) == passed(old(findings)@[i], repository@, floor@, introduced_only, exceptions)
            &&& final(findings)@[i].key == old(findings)@[i].key
            &&& final(findings)@[i].attribution == old(findings)@[i].attribution
        },
        overlap == (exceptions && exists|i: int| 0 <= i < old(findings)@.len() && overlapping(#[trigger] old(findings)@[i])),
{
    let ghost start = findings@;
    let mut overlap = false;
    let mut i: usize = 0;
    while i < findings.len()
        invariant
            i <= findings@.len(),
            findings@.len() == start.len(),
            forall|k: int| i <= k < findings@.len() ==> #[trigger] findings@[k] == start[k],
            forall|k: int| 0 <= k < start.len() ==> chained((#[trigger] start[k]).trace),
            forall|k: int| 0 <= k < i ==> {
                &&& chained((#[trigger] findings@[k]).trace)
                &&& trace_view(findings@[k].trace) == passed(start[k], repository@, floor@, introduced_only, exceptions)
                &&& findings@[k].key == start[k].key
                &&& findings@[k].attribution == start[k].attribution
            },
            overlap == (exceptions && exists|k: int| 0 <= k < i && overlapping(#[trigger] start[k])),
        decreases start.len() - i,
    {
        let mut f = findings.remove(i);
        assert(f == start[i as int]);
        let o = pass_one(&mut f, repository, floor, introduced_only, exceptions);
        findings.insert(i, f);
        proof {
            if exceptions && overlapping(start[i as int]) {
                assert(exists|k: int| 0 <= k < i + 1 && overlapping(#[trigger] start[k]));
            }
            if exceptions && exists|k: int| 0 <= k < i + 1 && overlapping(#[trigger] start[k]) {
                let k = choose|k: int| 0 <= k < i + 1 && overlapping(#[trigger] start[k]);
                if k < i {
                    assert(exists|m: int| 0 <= m < i && overlapping(#[trigger] start[m]));
                }
            }
        }
        overlap = overlap || o;
        i = i + 1;
    }
    overlap
}

/// Whether `new` is what the policy passes make of `old`, finding by finding.
pub open spec fn passes_done(old: Seq<PolicyFinding>, new: Seq<PolicyFinding>, repository: Seq<FindingDisposition>, floor: Seq<FindingDisposition>, introduced_only: bool, exceptions: bool) -> bool {
    &&& new.len() == old.len()
    &&& forall|i: int| 0 <= i < new.len() ==> {
        &&& chained((#[trigger] new[i]).trace)
        &&& trace_view(new[i].trace) == passed(old[i], repository, floor, introduced_only, exceptions)
        &&& new[i].key == old[i].key
        &&& new[i].attribution == old[i].attribution
    }
}

/// The position of the first finding whose key no other key sorts before,
/// among the first `n`.
pub open spec fn least_key(s: Seq<PolicyFinding>, n: int) -> int
    decreases n,
{
    if n <= 1 {
        0
    } else {
        let j = least_key(s, n - 1);
        if crate::order::sorts_before(s[n - 1].key@, s[j].key@) {
            n - 1
        } else {
            j
        }
    }
}

/// The findings in key order, a finding before any later one with the same
/// key.
pub open spec fn by_key(s: Seq<PolicyFinding>) -> Seq<PolicyFinding>
    decreases s.len(),
{
    if s.len() == 0 {
        s
    } else {
        let j = least_key(s, s.len() as int);
        if 0 <= j < s.len() {
            seq![s[j]] + by_key(s.remove(j))
        } else {
            s
        }
    }
}

proof fn lemma_least_key_range(s: Seq<PolicyFinding>, n: int)
    requires
        1 <= n <= s.len(),
    ensures
        0 <= least_key(s, n) < n,
    decreases n,
{
    if n > 1 {
        lemma_least_key_range(s, n - 1);
    }
}

fn least_key_exec(v: &Vec<PolicyFinding>) -> (j: usize)
    requires
        v@.len() > 0,
    ensures
        j == least_key(v@, v@.len() as int),
        j < v@.len(),
{
    let mut j: usize = 0;
    let mut n: usize = 1;
    while n < v.len()
        invariant
            1 <= n <= v@.len(),
            j == least_key(v@, n as int),
            j < n,
        decreases v@.len() - n,
    {
        if crate::order::sorts_before_bytes(&v[n].key, &v[j].key) {
            j = n;
        }
        n = n + 1;
    }
    j
}

/// The findings in key order, a finding before any later one with the same
/// key.
pub fn sort_by_key(v: Vec<PolicyFinding>) -> (r: Vec<PolicyFinding>)
    ensures
        r@ == by_key(v@),
{
    let mut rest = v;
    let mut out: Vec<PolicyFinding> = Vec::new();
    let ghost start = rest@;
    assert(out@ + by_key(rest@) =~= by_key(start));
    while rest.len() > 0
        invariant
            out@ + by_key(rest@) == by_key(start),
        decreases rest@.len(),
    {
        let j = least_key_exec(&rest);
        let ghost before = rest@;
        let f = rest.remove(j);
        assert(rest@ == before.remove(j as int));
        assert(by_key(before) == seq![before[j as int]] + by_key(before.remove(j as int)));
        let ghost o = out@;
        out.push(f);
        assert(out@ == o.push(before[j as int]));
        assert(out@ + by_key(rest@) =~= o + (seq![before[j as int]] + by_key(rest@)));
    }
    assert(by_key(rest@) =~= rest@);
    assert(out@ + by_key(rest@) =~= out@);
    out
}

proof fn lemma_least_key_min(s: Seq<PolicyFinding>, n: int)
    requires
        1 <= n <= s.len(),
    ensures
        0 <= least_key(s, n) < n,
        forall|k: int| 0 <= k < n ==> !crate::order::sorts_before(#[trigger] s[k].key@, s[least_key(s, n)].key@),
    decreases n,
{
    if n > 1 {
        lemma_least_key_min(s, n - 1);
        let j = least_key(s, n - 1);
        if crate::order::sorts_before(s[n - 1].key@, s[j].key@) {
            assert forall|k: int| 0 <= k < n implies !crate::order::sorts_before(#[trigger] s[k].key@, s[n - 1].key@) by {
                if k == n - 1 {
                    crate::order::lemma_sorts_before_irreflexive(s[k].key@);
                } else if crate::order::sorts_before(s[k].key@, s[n - 1].key@) {
                    crate::order::lemma_sorts_before_transitive(s[k].key@, s[n - 1].key@, s[j].key@);
                }
            }
        }
    } else {
        crate::order::lemma_sorts_before_irreflexive(s[0].key@);
    }
}

proof fn lemma_by_key_members(s: Seq<PolicyFinding>)
    ensures
        by_key(s).len() == s.len(),
        forall|i: int| 0 <= i < s.len() ==> exists|k: int| 0 <= k < s.len() && s[k] == #[trigger] by_key(s)[i],
    decreases s.len(),
{
    if s.len() > 0 {
        lemma_least_key_range(s, s.len() as int);
        let j = least_key(s, s.len() as int);
        let rest = s.remove(j);
        lemma_by_key_members(rest);
        let r = by_key(s);
        assert(r == seq![s[j]] + by_key(rest));
        assert forall|i: int| 0 <= i < s.len() implies exists|k: int| 0 <= k < s.len() && s[k] == #[trigger] r[i] by {
            if i == 0 {
                assert(s[j] == r[0]);
            } else {
                assert(r[i] == by_key(rest)[i - 1]);
                let k = choose|k: int| 0 <= k < rest.len() && rest[k] == #[trigger] by_key(rest)[i - 1];
                if k < j {
                    assert(s[k] == rest[k]);
                } else {
                    assert(s[k + 1] == rest[k]);
                }
            }
        }
    }
}

/// The findings come out in key order: no later finding's key sorts before
/// an earlier one's.
pub proof fn lemma_by_key_sorted(s: Seq<PolicyFinding>)
    ensures
        by_key(s).len() == s.len(),
        forall|i: int, j: int| 0 <= i < j < by_key(s).len() ==> !crate::order::sorts_before(
            #[trigger] by_key(s)[j].key@,
            #[trigger] by_key(s)[i].key@,
        ),
    decreases s.len(),
{
    lemma_by_key_members(s);
    if s.len() > 0 {
        lemma_least_key_min(s, s.len() as int);
        let m = least_key(s, s.len() as int);
        let rest = s.remove(m);
        lemma_by_key_sorted(rest);
        lemma_by_key_members(rest);
        let r = by_key(s);
        assert(r == seq![s[m]] + by_key(rest));
        assert forall|i: int, j: int| 0 <= i < j < r.len() implies !crate::order::sorts_before(
            #[trigger] r[j].key@,
            #[trigger] r[i].key@,
        ) by {
            assert(r[j] == by_key(rest)[j - 1]);
            if i == 0 {
                assert(r[0] == s[m]);
                let k = choose|k: int| 0 <= k < rest.len() && rest[k] == #[trigger] by_key(rest)[j - 1];
                if k < m {
                    assert(s[k] == rest[k]);
                } else {
                    assert(s[k + 1] == rest[k]);
                }
            } else {
                assert(r[i] == by_key(rest)[i - 1]);
            }
        }
    }
}

/// The policy passes over every finding, then the findings in key order:
/// each trace is what the raises, the profile and the exceptions make of it,
/// and the overlap is reported where exceptions are in force and some finding
/// is selected by both a valid debt item and a valid waiver.
pub fn evaluate_with_policy(
    findings: Vec<PolicyFinding>,
    repository: &[FindingDisposition],
    floor: &[FindingDisposition],
    introduced_only: bool,
    exceptions: bool,
) -> (r: (Vec<PolicyFinding>, bool))
    requires
        forall|i: int| 0 <= i < findings@.len() ==> chained((#[trigger] findings@[i]).trace),
    ensures
        exists|mid: Seq<PolicyFinding>| passes_done(findings@, mid, repository@, floor@, introduced_only, exceptions) && r.0@ == by_key(mid),
        r.1 == (exceptions && exists|i: int| 0 <= i < findings@.len() && overlapping(#[trigger] findings@[i])),
{
    let mut all = findings;
    let overlap = apply_policy_passes(&mut all, repository, floor, introduced_only, exceptions);
    let ghost mid = all@;
    let sorted = sort_by_key(all);
    assert(passes_done(findings@, mid, repository@, floor@, introduced_only, exceptions));
    (sorted, overlap)
}

/// Why a waiver item does not apply, in the order the checks run.
#[derive(Clone, Copy, Debug, PartialEq, Eq, Structural)]
pub enum WaiverDefect {
    NotYet,
    Expired,
    Issuer,
    Kind,
    SameOwner,
    Key,
    Fact,
}

impl WaiverDefect {
    /// The suffix of the defect's rule, after `waiver/<id>/`.
    pub open spec fn suffix(self) -> Seq<char> {
        match self {
            WaiverDefect::NotYet => "not-yet"@,
            WaiverDefect::Expired => "expired"@,
            WaiverDefect::Issuer => "issuer"@,
            WaiverDefect::Kind => "kind"@,
            WaiverDefect::SameOwner => "same-owner"@,
            WaiverDefect::Key => "key"@,
            WaiverDefect::Fact => "fact"@,
        }
    }

    /// The suffix of the defect's rule, after `waiver/<id>/`.
    pub fn as_str(self) -> (r: &'static str)
        ensures
            r@ == self.suffix(),
    {
        match self {
            WaiverDefect::NotYet => "not-yet",
            WaiverDefect::Expired => "expired",
            WaiverDefect::Issuer => "issuer",
            WaiverDefect::Kind => "kind",
            WaiverDefect::SameOwner => "same-owner",
            WaiverDefect::Key => "key",
            WaiverDefect::Fact => "fact",
        }
    }
}

/// Whether the current candidate finding a waiver's key names has the kind
/// and the fact the waiver authorized.
#[derive(Clone, Copy, Debug, PartialEq, Eq, Structural)]
pub struct TargetCheck {
    pub kind_matches: bool,
    pub fact_matches: bool,
}

/// What the checks of one waiver item found: the evaluation instant before
/// its start or at or after its expiry, its issuer among the authorized, its
/// kind among the waivable, its owner its issuer, and, where its key names a
/// current candidate finding, how that finding compares.
#[derive(Clone, Copy, Debug, PartialEq, Eq, Structural)]
pub struct WaiverCheck {
    pub before_start: bool,
    pub expired: bool,
    pub issuer_authorized: bool,
    pub kind_waivable: bool,
    pub owner_is_issuer: bool,
    pub target: Option<TargetCheck>,
}

/// The defects of a waiver item, in the order the checks run.
pub open spec fn waiver_defects_of(c: WaiverCheck) -> Seq<WaiverDefect> {
    (if c.before_start { seq![WaiverDefect::NotYet] } else { seq![] })
        + (if c.expired { seq![WaiverDefect::Expired] } else { seq![] })
        + (if !c.issuer_authorized { seq![WaiverDefect::Issuer] } else { seq![] })
        + (if !c.kind_waivable { seq![WaiverDefect::Kind] } else { seq![] })
        + (if c.owner_is_issuer { seq![WaiverDefect::SameOwner] } else { seq![] })
        + match c.target {
            Some(t) =>
                (if !t.kind_matches { seq![WaiverDefect::Key] } else { seq![] })
                + (if !t.fact_matches { seq![WaiverDefect::Fact] } else { seq![] }),
            None => seq![],
        }
}

/// The defects of a waiver item, in the order the checks run; the item is
/// valid when it has none and its key names a current candidate finding.
pub fn waiver_defects(c: WaiverCheck) -> (r: (Vec<WaiverDefect>, bool))
    ensures
        r.0@ == waiver_defects_of(c),
        r.1 == (waiver_defects_of(c).len() == 0 && c.target is Some),
{
    let mut v: Vec<WaiverDefect> = Vec::new();
    if c.before_start {
        v.push(WaiverDefect::NotYet);
    }
    let ghost a = v@;
    if c.expired {
        v.push(WaiverDefect::Expired);
    }
    let ghost b = v@;
    if !c.issuer_authorized {
        v.push(WaiverDefect::Issuer);
    }
    let ghost d = v@;
    if !c.kind_waivable {
        v.push(WaiverDefect::Kind);
    }
    let ghost e = v@;
    if c.owner_is_issuer {
        v.push(WaiverDefect::SameOwner);
    }
    let ghost f = v@;
    if let Some(t) = c.target {
        if !t.kind_matches {
            v.push(WaiverDefect::Key);
        }
        if !t.fact_matches {
            v.push(WaiverDefect::Fact);
        }
    }
    proof {
        let t = match c.target {
            Some(t) =>
                (if !t.kind_matches { seq![WaiverDefect::Key] } else { seq![] })
                + (if !t.fact_matches { seq![WaiverDefect::Fact] } else { seq![] }),
            None => seq![],
        };
        assert(v@ =~= f + t);
        assert(f =~= e + (if c.owner_is_issuer { seq![WaiverDefect::SameOwner] } else { seq![] }));
        assert(e =~= d + (if !c.kind_waivable { seq![WaiverDefect::Kind] } else { seq![] }));
        assert(d =~= b + (if !c.issuer_authorized { seq![WaiverDefect::Issuer] } else { seq![] }));
        assert(b =~= a + (if c.expired { seq![WaiverDefect::Expired] } else { seq![] }));
        assert(a =~= (if c.before_start { seq![WaiverDefect::NotYet] } else { seq![] }));
        assert(v@ =~= waiver_defects_of(c));
    }
    let valid = v.len() == 0 && c.target.is_some();
    (v, valid)
}

/// Why a debt item does not apply.
#[derive(Clone, Copy, Debug, PartialEq, Eq, Structural)]
pub enum DebtDefect {
    Expired,
    Worsened,
}

impl DebtDefect {
    /// The suffix of the defect's rule, after `debt/<id>/`.
    pub open spec fn suffix(self) -> Seq<char> {
        match self {
            DebtDefect::Expired => "expired"@,
            DebtDefect::Worsened => "fact"@,
        }
    }

    /// The suffix of the defect's rule, after `debt/<id>/`.
    pub fn as_str(self) -> (r: &'static str)
        ensures
            r@ == self.suffix(),
    {
        match self {
            DebtDefect::Expired => "expired",
            DebtDefect::Worsened => "fact",
        }
    }
}

/// The defects of a debt item whose key names a current candidate finding:
/// expiry before fact inequality, both able to stand together; the item is
/// valid when it has neither.
pub fn debt_defects(expired: bool, fact_equal: bool) -> (r: (Vec<DebtDefect>, bool))
    ensures
        r.0@ == (if expired { seq![DebtDefect::Expired] } else { seq![] }) + (if !fact_equal { seq![DebtDefect::Worsened] } else { seq![] }),
        r.1 == (!expired && fact_equal),
{
    let mut v: Vec<DebtDefect> = Vec::new();
    if expired {
        v.push(DebtDefect::Expired);
    }
    let ghost a = v@;
    if !fact_equal {
        v.push(DebtDefect::Worsened);
    }
    assert(v@ =~= a + (if !fact_equal { seq![DebtDefect::Worsened] } else { seq![] }));
    assert(a =~= (if expired { seq![DebtDefect::Expired] } else { seq![] }));
    (v, !expired && fact_equal)
}

} // verus!

use amiss::evaluate::trace::{
    evaluate_with_policy, PolicyFinding,
};
use amiss::evaluate::Attribution;
use amiss::evaluate::trace::{
    apply_exception, apply_policy, apply_raise, current, debt_defects, enforce_introduced,
    waiver_defects, DebtDefect, Disposition, PolicyStep, StepSource, TargetCheck, Trace,
    WaiverCheck, WaiverDefect,
};
use amiss::policy::{Disposition as RowDisposition, FindingDisposition, PromotableFindingKind};

fn built_in(after: Disposition) -> Trace {
    Trace {
        configured: after,
        effective: after,
        steps: vec![PolicyStep {
            source: StepSource::BuiltIn,
            rule_id: "scanner-policy-defaults/explicit-target-missing/observe".to_owned(),
            before: Disposition::Record,
            after,
        }],
    }
}

fn rows(kind: PromotableFindingKind, disposition: RowDisposition) -> Vec<FindingDisposition> {
    vec![FindingDisposition { finding_kind: kind, disposition }]
}

fn steps(t: &Trace) -> Vec<(StepSource, String, Disposition, Disposition)> {
    t.steps.iter().map(|s| (s.source, s.rule_id.clone(), s.before, s.after)).collect()
}

#[test]
fn a_raise_applies_only_when_it_raises() {
    let kind = Some(PromotableFindingKind::ExplicitTargetMissing);
    let mut t = built_in(Disposition::Warn);
    apply_raise(&mut t, kind, &rows(PromotableFindingKind::ExplicitTargetMissing, RowDisposition::Fail), StepSource::RepositoryPolicy, "repository");
    assert_eq!(
        steps(&t)[1],
        (StepSource::RepositoryPolicy, "repository/explicit-target-missing".to_owned(), Disposition::Warn, Disposition::Fail)
    );
    assert_eq!((current(&t), t.effective), (Disposition::Fail, Disposition::Fail));
    // the same rule again, or a weaker one, adds nothing
    apply_raise(&mut t, kind, &rows(PromotableFindingKind::ExplicitTargetMissing, RowDisposition::Fail), StepSource::OrganizationFloor, "floor");
    apply_raise(&mut t, kind, &rows(PromotableFindingKind::ExplicitTargetMissing, RowDisposition::Warn), StepSource::OrganizationFloor, "floor");
    assert_eq!(t.steps.len(), 2);
    // a row of another kind, or a finding no row can name, adds nothing
    let mut u = built_in(Disposition::Record);
    apply_raise(&mut u, kind, &rows(PromotableFindingKind::InvalidReference, RowDisposition::Fail), StepSource::RepositoryPolicy, "repository");
    apply_raise(&mut u, None, &rows(PromotableFindingKind::InvalidReference, RowDisposition::Fail), StepSource::RepositoryPolicy, "repository");
    assert_eq!(u.steps.len(), 1);
}

#[test]
fn the_policy_raises_and_settles_the_configured_disposition() {
    let kind = Some(PromotableFindingKind::InvalidReference);
    let mut t = built_in(Disposition::Record);
    apply_policy(
        &mut t,
        kind,
        false,
        true,
        &rows(PromotableFindingKind::InvalidReference, RowDisposition::Warn),
        &rows(PromotableFindingKind::InvalidReference, RowDisposition::Fail),
    );
    assert_eq!(
        steps(&t)[1..].to_vec(),
        vec![
            (StepSource::RepositoryPolicy, "repository/invalid-reference".to_owned(), Disposition::Record, Disposition::Warn),
            (StepSource::OrganizationFloor, "floor/invalid-reference".to_owned(), Disposition::Warn, Disposition::Fail),
        ]
    );
    assert_eq!((t.configured, t.effective), (Disposition::Fail, Disposition::Fail));
    // a resolved finding takes no raise
    let mut r = built_in(Disposition::Record);
    apply_policy(&mut r, kind, true, true, &rows(PromotableFindingKind::InvalidReference, RowDisposition::Fail), &[]);
    assert_eq!((r.steps.len(), r.configured), (1, Disposition::Record));
}

#[test]
fn enforce_introduced_lowers_only_a_failing_pre_existing_finding() {
    let mut t = built_in(Disposition::Fail);
    enforce_introduced(&mut t, true, "explicit-target-missing");
    assert_eq!(
        steps(&t)[1],
        (
            StepSource::BuiltIn,
            "scanner-policy-defaults/explicit-target-missing/enforce-introduced".to_owned(),
            Disposition::Fail,
            Disposition::Warn
        )
    );
    assert_eq!(t.effective, Disposition::Warn);
    let mut u = built_in(Disposition::Fail);
    enforce_introduced(&mut u, false, "explicit-target-missing");
    assert_eq!((u.steps.len(), u.effective), (1, Disposition::Fail));
}

#[test]
fn exceptions_follow_the_application_and_overlap_law() {
    let mut both = built_in(Disposition::Fail);
    assert!(apply_exception(&mut both, Some("d1"), Some("w1")));
    assert_eq!((both.steps.len(), both.effective), (1, Disposition::Fail));

    let mut debt = built_in(Disposition::Warn);
    assert!(!apply_exception(&mut debt, Some("d1"), None));
    assert_eq!(steps(&debt)[1], (StepSource::DebtSnapshot, "debt/d1".to_owned(), Disposition::Warn, Disposition::Warn));

    let mut waived = built_in(Disposition::Fail);
    assert!(!apply_exception(&mut waived, None, Some("w1")));
    assert_eq!(steps(&waived)[1], (StepSource::WaiverBundle, "waiver/w1".to_owned(), Disposition::Fail, Disposition::Warn));
    assert_eq!(waived.effective, Disposition::Warn);

    let mut warned = built_in(Disposition::Warn);
    assert!(!apply_exception(&mut warned, None, Some("w1")));
    assert_eq!((warned.steps.len(), warned.effective), (1, Disposition::Warn));
}

#[test]
fn waiver_defects_come_in_check_order() {
    let clean = WaiverCheck {
        before_start: false,
        expired: false,
        issuer_authorized: true,
        kind_waivable: true,
        owner_is_issuer: false,
        target: Some(TargetCheck { kind_matches: true, fact_matches: true }),
    };
    assert_eq!(waiver_defects(clean), (vec![], true));
    assert_eq!(waiver_defects(WaiverCheck { target: None, ..clean }), (vec![], false));
    let all = WaiverCheck {
        before_start: true,
        expired: true,
        issuer_authorized: false,
        kind_waivable: false,
        owner_is_issuer: true,
        target: Some(TargetCheck { kind_matches: false, fact_matches: false }),
    };
    let (defects, valid) = waiver_defects(all);
    assert!(!valid);
    assert_eq!(
        defects.iter().map(|d| d.as_str()).collect::<Vec<_>>(),
        vec!["not-yet", "expired", "issuer", "kind", "same-owner", "key", "fact"]
    );
    assert_eq!(waiver_defects(WaiverCheck { expired: true, ..clean }).0, vec![WaiverDefect::Expired]);
}

#[test]
fn debt_defects_put_expiry_before_the_fact() {
    assert_eq!(debt_defects(false, true), (vec![], true));
    assert_eq!(debt_defects(true, false), (vec![DebtDefect::Expired, DebtDefect::Worsened], false));
    assert_eq!(debt_defects(false, false).0.iter().map(|d| d.as_str()).collect::<Vec<_>>(), vec!["fact"]);
    assert_eq!(StepSource::WaiverBundle.as_str(), "waiver-bundle");
}

fn finding(key: &str, attribution: Attribution, debt: Option<&str>, waiver: Option<&str>) -> PolicyFinding {
    PolicyFinding {
        key: key.as_bytes().to_vec(),
        kind: Some(PromotableFindingKind::ExplicitTargetMissing),
        kind_name: "explicit-target-missing".to_owned(),
        attribution,
        has_candidate_fact: attribution != Attribution::Resolved,
        trace: built_in(Disposition::Warn),
        debt: debt.map(str::to_owned),
        waiver: waiver.map(str::to_owned),
    }
}

#[test]
fn the_policy_passes_raise_lower_except_and_order_by_key() {
    let findings = vec![
        finding("k3", Attribution::PreExisting, None, None),
        finding("k1", Attribution::Introduced, None, Some("w1")),
        finding("k2", Attribution::Resolved, None, None),
        finding("k0", Attribution::Introduced, Some("d0"), None),
    ];
    let repository = rows(PromotableFindingKind::ExplicitTargetMissing, RowDisposition::Fail);
    let (out, overlap) = evaluate_with_policy(findings, &repository, &[], true, true);
    assert!(!overlap);
    let keys: Vec<Vec<u8>> = out.iter().map(|f| f.key.clone()).collect();
    assert_eq!(keys, vec![b"k0".to_vec(), b"k1".to_vec(), b"k2".to_vec(), b"k3".to_vec()]);
    // debt lowers to a warning even after the raise
    assert_eq!(out[0].trace.effective, Disposition::Warn);
    assert_eq!(steps(&out[0].trace).last().unwrap().1, "debt/d0");
    // a waiver lowers a raised fail
    assert_eq!(out[1].trace.configured, Disposition::Fail);
    assert_eq!(out[1].trace.effective, Disposition::Warn);
    assert_eq!(steps(&out[1].trace).last().unwrap().1, "waiver/w1");
    // a resolved finding takes no raise
    assert_eq!(out[2].trace.steps.len(), 1);
    // a pre-existing failure is lowered under introduced-only enforcement
    assert_eq!(
        steps(&out[3].trace).last().unwrap().1,
        "scanner-policy-defaults/explicit-target-missing/enforce-introduced"
    );
    assert_eq!(out[3].trace.effective, Disposition::Warn);
}

#[test]
fn a_finding_under_both_a_debt_and_a_waiver_is_an_overlap() {
    let findings = vec![finding("k", Attribution::Introduced, Some("d"), Some("w"))];
    let (out, overlap) = evaluate_with_policy(findings, &[], &[], false, true);
    assert!(overlap);
    assert_eq!(out[0].trace.steps.len(), 1);
    let (_, off) = evaluate_with_policy(vec![finding("k", Attribution::Introduced, Some("d"), Some("w"))], &[], &[], false, false);
    assert!(!off);
}

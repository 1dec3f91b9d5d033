use amiss::external::{external_gate, external_reason, Admitted, Answer, Checked, ControlError, UnavailableReason};

fn none() -> Checked {
    Checked { time: None, constraint: None, semantic: Answer::Verified, debt: None, waiver: None }
}

#[test]
fn controls_fail_in_the_fatal_order() {
    let bad = Answer::Rejected(ControlError::ConfigurationInvalid);
    let all_bad = Checked { time: Some(bad), constraint: Some(bad), semantic: bad, debt: Some(bad), waiver: Some(bad) };
    assert_eq!(
        external_gate(all_bad, true),
        Err((UnavailableReason::InvalidExternalControl, ControlError::ConfigurationInvalid))
    );
    let semantic_unreadable = Checked { semantic: Answer::Rejected(ControlError::Unreadable), ..none() };
    assert_eq!(external_gate(semantic_unreadable, true), Err((UnavailableReason::NotParsed, ControlError::Unreadable)));
    let waiver_mismatch = Checked {
        time: Some(Answer::Verified),
        debt: Some(Answer::Verified),
        waiver: Some(Answer::Rejected(ControlError::BindingMismatch)),
        ..none()
    };
    assert_eq!(
        external_gate(waiver_mismatch, true),
        Err((UnavailableReason::ControlBindingMismatch, ControlError::BindingMismatch))
    );
}

#[test]
fn exceptions_need_a_tree_and_trusted_time() {
    let debt_only = Checked { debt: Some(Answer::Verified), ..none() };
    assert_eq!(
        external_gate(debt_only, false),
        Err((UnavailableReason::ControlBindingMismatch, ControlError::BindingMismatch))
    );
    assert_eq!(
        external_gate(debt_only, true),
        Err((UnavailableReason::InvalidExternalControl, ControlError::TrustedTimeInvalid))
    );
    let timed = Checked { time: Some(Answer::Verified), ..debt_only };
    assert_eq!(
        external_gate(timed, true),
        Ok(Admitted { time: true, constraint: false, debt: true, waiver: false })
    );
    assert_eq!(
        external_gate(Checked { time: Some(Answer::Verified), ..none() }, false),
        Ok(Admitted { time: true, constraint: false, debt: false, waiver: false })
    );
}

#[test]
fn a_rejection_names_its_reason() {
    assert_eq!(external_reason(ControlError::BindingMismatch).as_str(), "control-binding-mismatch");
    assert_eq!(external_reason(ControlError::TrustedTimeInvalid).as_str(), "invalid-external-control");
    assert_eq!(external_reason(ControlError::ConfigurationInvalid).as_str(), "invalid-external-control");
    assert_eq!(external_reason(ControlError::Unreadable).as_str(), "not-parsed");
}

//! The admission of the wrapper-supplied external controls: trusted time, an
//! execution constraint, semantic evidence, a debt snapshot and a waiver
//! bundle, checked in the fatal order.

use vstd::prelude::*;

verus! {

/// How a supplied control was rejected, as far as admission tells
/// rejections apart.
#[derive(Clone, Copy, Debug, PartialEq, Eq, Structural)]
pub enum ControlError {
    BindingMismatch,
    TrustedTimeInvalid,
    ConfigurationInvalid,
    Unreadable,
}

/// Why the controls are unavailable to the run.
#[derive(Clone, Copy, Debug, PartialEq, Eq, Structural)]
pub enum UnavailableReason {
    ControlBindingMismatch,
    InvalidExternalControl,
    NotParsed,
}

impl UnavailableReason {
    /// The reason's name in reports.
    pub open spec fn name(self) -> Seq<char> {
        match self {
            UnavailableReason::ControlBindingMismatch => "control-binding-mismatch"@,
            UnavailableReason::InvalidExternalControl => "invalid-external-control"@,
            UnavailableReason::NotParsed => "not-parsed"@,
        }
    }

    /// The reason's name in reports.
    pub fn as_str(self) -> (r: &'static str)
        ensures
            r@ == self.name(),
    {
        match self {
            UnavailableReason::ControlBindingMismatch => "control-binding-mismatch",
            UnavailableReason::InvalidExternalControl => "invalid-external-control",
            UnavailableReason::NotParsed => "not-parsed",
        }
    }
}

/// The reason a rejected control anchors: binding mismatches and invalid
/// controls name themselves, and any other defect leaves the stage merely
/// not parsed.
pub open spec fn reason_of(e: ControlError) -> UnavailableReason {
    match e {
        ControlError::BindingMismatch => UnavailableReason::ControlBindingMismatch,
        ControlError::TrustedTimeInvalid | ControlError::ConfigurationInvalid => UnavailableReason::InvalidExternalControl,
        ControlError::Unreadable => UnavailableReason::NotParsed,
    }
}

/// The reason a rejected control anchors.
pub fn external_reason(e: ControlError) -> (r: UnavailableReason)
    ensures
        r == reason_of(e),
{
    match e {
        ControlError::BindingMismatch => UnavailableReason::ControlBindingMismatch,
        ControlError::TrustedTimeInvalid | ControlError::ConfigurationInvalid => UnavailableReason::InvalidExternalControl,
        ControlError::Unreadable => UnavailableReason::NotParsed,
    }
}

/// What verifying one supplied control answered.
#[derive(Clone, Copy, Debug, PartialEq, Eq, Structural)]
pub enum Answer {
    Verified,
    Rejected(ControlError),
}

/// What verifying each supplied control answered; `None` where the wrapper
/// supplied none. Semantic evidence is always bound, so it always answers.
#[derive(Clone, Copy, Debug, PartialEq, Eq, Structural)]
pub struct Checked {
    pub time: Option<Answer>,
    pub constraint: Option<Answer>,
    pub semantic: Answer,
    pub debt: Option<Answer>,
    pub waiver: Option<Answer>,
}

/// Which verified controls join the run.
#[derive(Clone, Copy, Debug, PartialEq, Eq, Structural)]
pub struct Admitted {
    pub time: bool,
    pub constraint: bool,
    pub debt: bool,
    pub waiver: bool,
}

/// Admission in the fatal order: trusted time, the constraint and the
/// semantic evidence first; without a candidate tree a debt or waiver
/// control is a binding mismatch, since both are bound to a tree; with one,
/// a debt or waiver control without trusted time is invalid, and then debt
/// and the waiver are checked in turn.
pub open spec fn gate_of(c: Checked, has_candidate_tree: bool) -> Result<Admitted, (UnavailableReason, ControlError)> {
    match (c.time, c.constraint, c.semantic) {
        (Some(Answer::Rejected(e)), _, _) => Err((UnavailableReason::InvalidExternalControl, e)),
        (_, Some(Answer::Rejected(e)), _) => Err((UnavailableReason::InvalidExternalControl, e)),
        (_, _, Answer::Rejected(e)) => Err((reason_of(e), e)),
        _ => if !has_candidate_tree {
            if c.debt is Some || c.waiver is Some {
                Err((UnavailableReason::ControlBindingMismatch, ControlError::BindingMismatch))
            } else {
                Ok(Admitted { time: c.time is Some, constraint: c.constraint is Some, debt: false, waiver: false })
            }
        } else if (c.debt is Some || c.waiver is Some) && c.time is None {
            Err((UnavailableReason::InvalidExternalControl, ControlError::TrustedTimeInvalid))
        } else {
            match (c.debt, c.waiver) {
                (Some(Answer::Rejected(e)), _) => Err((reason_of(e), e)),
                (_, Some(Answer::Rejected(e))) => Err((reason_of(e), e)),
                _ => Ok(Admitted { time: c.time is Some, constraint: c.constraint is Some, debt: c.debt is Some, waiver: c.waiver is Some }),
            }
        },
    }
}

/// Verifies the supplied external controls against the run in the fatal
/// order; an expiry-bearing control without a verified trusted instant is
/// invalid, and a rejected control has no effect beyond its reason and row.
pub fn external_gate(c: Checked, has_candidate_tree: bool) -> (r: Result<Admitted, (UnavailableReason, ControlError)>)
    ensures
        r == gate_of(c, has_candidate_tree),
{
    if let Some(Answer::Rejected(e)) = c.time {
        return Err((UnavailableReason::InvalidExternalControl, e));
    }
    if let Some(Answer::Rejected(e)) = c.constraint {
        return Err((UnavailableReason::InvalidExternalControl, e));
    }
    if let Answer::Rejected(e) = c.semantic {
        return Err((external_reason(e), e));
    }
    if !has_candidate_tree {
        if c.debt.is_some() || c.waiver.is_some() {
            return Err((UnavailableReason::ControlBindingMismatch, ControlError::BindingMismatch));
        }
        return Ok(Admitted { time: c.time.is_some(), constraint: c.constraint.is_some(), debt: false, waiver: false });
    }
    if (c.debt.is_some() || c.waiver.is_some()) && c.time.is_none() {
        return Err((UnavailableReason::InvalidExternalControl, ControlError::TrustedTimeInvalid));
    }
    if let Some(Answer::Rejected(e)) = c.debt {
        return Err((external_reason(e), e));
    }
    if let Some(Answer::Rejected(e)) = c.waiver {
        return Err((external_reason(e), e));
    }
    Ok(Admitted {
        time: c.time.is_some(),
        constraint: c.constraint.is_some(),
        debt: c.debt.is_some(),
        waiver: c.waiver.is_some(),
    })
}

/// A debt or waiver control never joins a run without trusted time, and
/// never one without a candidate tree.
pub proof fn lemma_exceptions_need_time_and_tree(c: Checked, has_candidate_tree: bool)
    ensures
        gate_of(c, has_candidate_tree) matches Ok(a) ==> ((a.debt || a.waiver) ==> a.time && has_candidate_tree),
{
}

} // verus!

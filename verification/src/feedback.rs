//! The feedback list: the three kinds of item a person acts on, and
//! which of them a finding becomes.

use crate::evaluate::{attribution_of, Attribution};
use vstd::prelude::*;

verus! {

/// What a reader of the feedback is asked to do with one item.
#[derive(Clone, Copy, Debug, PartialEq, Eq, PartialOrd, Ord, Structural)]
pub enum Action {
    Fix,
    Check,
    Existing,
}

impl Action {
    /// The word an action is written as.
    pub open spec fn word(self) -> Seq<char> {
        match self {
            Action::Fix => "fix"@,
            Action::Check => "check"@,
            Action::Existing => "existing"@,
        }
    }

    /// The word an action is written as.
    pub fn as_str(self) -> (s: &'static str)
        ensures
            s@ == self.word(),
    {
        match self {
            Action::Fix => "fix",
            Action::Check => "check",
            Action::Existing => "existing",
        }
    }
}

/// Which side of a comparison a finding's location is on.
#[derive(Clone, Copy, Debug, PartialEq, Eq, Structural)]
pub enum LocationSide {
    Base,
    Candidate,
    Control,
    Global,
}

/// The action a finding asks for by its attribution: a failure this change
/// introduced is a Fix, one already there is Existing, one nobody can place
/// is a Check, one the change resolved asks for nothing; a finding with no
/// attribution is a Fix unless it sits on the base side.
pub open spec fn attributed_action(attribution: Attribution, side: LocationSide) -> Option<Action> {
    match attribution {
        Attribution::Introduced => Some(Action::Fix),
        Attribution::PreExisting => Some(Action::Existing),
        Attribution::Unknown => Some(Action::Check),
        Attribution::Resolved => None,
        Attribution::NotApplicable => match side {
            LocationSide::Base => None,
            _ => Some(Action::Fix),
        },
    }
}

/// The action a finding asks for by its attribution.
pub fn attributed(attribution: Attribution, side: LocationSide) -> (a: Option<Action>)
    ensures
        a == attributed_action(attribution, side),
{
    match attribution {
        Attribution::Introduced => Some(Action::Fix),
        Attribution::PreExisting => Some(Action::Existing),
        Attribution::Unknown => Some(Action::Check),
        Attribution::Resolved => None,
        Attribution::NotApplicable => match side {
            LocationSide::Candidate | LocationSide::Control | LocationSide::Global => Some(
                Action::Fix,
            ),
            LocationSide::Base => None,
        },
    }
}

/// The action a finding asks for: a reference whose dependency changed under
/// an unchanged paragraph is always a Check; otherwise its attribution
/// decides.
pub open spec fn action_for(check: bool, attribution: Attribution, side: LocationSide) -> Option<Action> {
    if check {
        Some(Action::Check)
    } else {
        attributed_action(attribution, side)
    }
}

/// The action a finding asks for, given whether one of its candidate
/// observations is a dependency that changed under an unchanged subject.
pub fn classify_action(check: bool, attribution: Attribution, side: LocationSide) -> (a: Option<Action>)
    ensures
        a == action_for(check, attribution, side),
{
    if check {
        return Some(Action::Check);
    }
    attributed(attribution, side)
}

/// A reference this change broke is a Fix: failing only on the candidate
/// side it is introduced, and an introduced finding asks for a fix; the same
/// failure on both sides is the backlog, and a failure only on the base side
/// asks for nothing.
pub proof fn lemma_broken_by_this_change_is_a_fix(same_failure: bool, side: LocationSide)
    ensures
        action_for(false, attribution_of(false, true, same_failure), side) == Some(Action::Fix),
        action_for(false, attribution_of(true, true, true), side) == Some(Action::Existing),
        action_for(false, attribution_of(true, false, same_failure), side) is None,
{
}

} // verus!

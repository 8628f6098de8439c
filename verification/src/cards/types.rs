//! The scheduling states, ratings and draft states of cards.

use vstd::prelude::*;

use crate::text::str_eq;

verus! {

/// Where a card stands in the spaced-repetition cycle.
#[derive(Debug, Clone, Copy, PartialEq, Eq, Structural)]
pub enum State {
    New,
    Learning,
    Review,
    Relearning,
}

/// The state a stored number stands for; unknown numbers read as `New`.
pub open spec fn state_of_i32(v: i32) -> State {
    if v == 1 {
        State::Learning
    } else if v == 2 {
        State::Review
    } else if v == 3 {
        State::Relearning
    } else {
        State::New
    }
}

/// The number a state is stored as.
pub open spec fn state_code(s: State) -> i32 {
    match s {
        State::New => 0,
        State::Learning => 1,
        State::Review => 2,
        State::Relearning => 3,
    }
}

impl State {
    /// Reads a stored state number.
    pub fn from_i32(v: i32) -> (s: State)
        ensures
            s == state_of_i32(v),
    {
        match v {
            1 => State::Learning,
            2 => State::Review,
            3 => State::Relearning,
            _ => State::New,
        }
    }

    /// The number this state is stored as.
    pub fn to_i32(&self) -> (v: i32)
        ensures
            v == state_code(*self),
    {
        match self {
            State::New => 0,
            State::Learning => 1,
            State::Review => 2,
            State::Relearning => 3,
        }
    }
}

/// Reading back the stored number of a state gives the state.
pub proof fn law_state_code_roundtrip(s: State)
    ensures
        state_of_i32(state_code(s)) == s,
{
}

/// How well a card was recalled.
#[derive(Debug, Clone, Copy, PartialEq, Eq, Structural)]
pub enum Rating {
    Again,
    Hard,
    Good,
    Easy,
}

/// The rating a number stands for: 1 to 4, and nothing else.
pub open spec fn rating_of_i32(v: i32) -> Option<Rating> {
    if v == 1 {
        Some(Rating::Again)
    } else if v == 2 {
        Some(Rating::Hard)
    } else if v == 3 {
        Some(Rating::Good)
    } else if v == 4 {
        Some(Rating::Easy)
    } else {
        None
    }
}

/// The number a rating is stored as.
pub open spec fn rating_code(r: Rating) -> i32 {
    match r {
        Rating::Again => 1,
        Rating::Hard => 2,
        Rating::Good => 3,
        Rating::Easy => 4,
    }
}

impl Rating {
    /// Reads a rating number.
    pub fn from_i32(v: i32) -> (r: Option<Rating>)
        ensures
            r == rating_of_i32(v),
            r is Some <==> 1 <= v <= 4,
    {
        match v {
            1 => Some(Rating::Again),
            2 => Some(Rating::Hard),
            3 => Some(Rating::Good),
            4 => Some(Rating::Easy),
            _ => None,
        }
    }

    /// The number this rating is stored as.
    pub fn to_i32(&self) -> (v: i32)
        ensures
            v == rating_code(*self),
    {
        match self {
            Rating::Again => 1,
            Rating::Hard => 2,
            Rating::Good => 3,
            Rating::Easy => 4,
        }
    }
}

/// Reading back the stored number of a rating gives the rating.
pub proof fn law_rating_code_roundtrip(r: Rating)
    ensures
        rating_of_i32(rating_code(r)) == Some(r),
{
}

/// The review state of a generated card draft.
#[derive(Debug, Clone, Copy, PartialEq, Eq, Structural)]
pub enum DraftState {
    Draft,
    Approved,
    Rejected,
}

/// The text a draft state is stored as.
pub open spec fn draft_state_text(d: DraftState) -> Seq<char> {
    match d {
        DraftState::Draft => "draft"@,
        DraftState::Approved => "approved"@,
        DraftState::Rejected => "rejected"@,
    }
}

/// The draft state a stored text stands for; unknown text reads as `Draft`.
pub open spec fn draft_state_of(s: Seq<char>) -> DraftState {
    if s == "approved"@ {
        DraftState::Approved
    } else if s == "rejected"@ {
        DraftState::Rejected
    } else {
        DraftState::Draft
    }
}

impl DraftState {
    /// The text this state is stored as.
    pub fn as_str(&self) -> (s: &'static str)
        ensures
            s@ == draft_state_text(*self),
    {
        match self {
            DraftState::Draft => "draft",
            DraftState::Approved => "approved",
            DraftState::Rejected => "rejected",
        }
    }

    /// Reads a stored draft state.
    pub fn from_state_str(s: &str) -> (d: DraftState)
        ensures
            d == draft_state_of(s@),
    {
        if str_eq(s, "approved") {
            DraftState::Approved
        } else if str_eq(s, "rejected") {
            DraftState::Rejected
        } else {
            DraftState::Draft
        }
    }
}

/// Reading back the stored text of a draft state gives the state.
pub proof fn law_draft_state_roundtrip(d: DraftState)
    ensures
        draft_state_of(draft_state_text(d)) == d,
{
    reveal_strlit("draft");
    reveal_strlit("approved");
    reveal_strlit("rejected");
    assert("draft"@[0] != "approved"@[0]);
    assert("draft"@[0] != "rejected"@[0]);
    assert("approved"@[0] != "rejected"@[0]);
}

} // verus!

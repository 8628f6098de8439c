//! The decisions of draft review: what a typed answer means, and the tally
//! of approved and rejected drafts.

use vstd::prelude::*;

use crate::text::{seq_eq, str_chars, trim, trim_chars};

verus! {

/// What was typed for one pending draft.
#[derive(Debug, Clone, Copy, PartialEq, Eq, Structural)]
pub enum DraftChoice {
    /// `y` or `Y`: turn the draft into a card.
    Approve,
    /// `n` or `N`: reject the draft.
    Reject,
    /// `q` or `Q`: stop reviewing.
    Quit,
    /// Anything else, an empty line among it: leave the draft pending.
    Skip,
}

/// The meaning of a typed answer, surrounding whitespace ignored.
pub open spec fn draft_choice(input: Seq<char>) -> DraftChoice {
    let t = trim(input);
    if t == "y"@ || t == "Y"@ {
        DraftChoice::Approve
    } else if t == "n"@ || t == "N"@ {
        DraftChoice::Reject
    } else if t == "q"@ || t == "Q"@ {
        DraftChoice::Quit
    } else {
        DraftChoice::Skip
    }
}

/// Whether the trimmed answer is `lower` or `upper`.
fn is_either(t: &[char], lower: &str, upper: &str) -> (r: bool)
    ensures
        r == (t@ == lower@ || t@ == upper@),
{
    let l = str_chars(lower);
    let u = str_chars(upper);
    seq_eq(t, l.as_slice()) || seq_eq(t, u.as_slice())
}

/// Reads what was typed for a draft.
pub fn parse_draft_choice(input: &str) -> (r: DraftChoice)
    ensures
        r == draft_choice(input@),
{
    let chars = str_chars(input);
    let t = trim_chars(chars.as_slice());
    if is_either(t.as_slice(), "y", "Y") {
        DraftChoice::Approve
    } else if is_either(t.as_slice(), "n", "N") {
        DraftChoice::Reject
    } else if is_either(t.as_slice(), "q", "Q") {
        DraftChoice::Quit
    } else {
        DraftChoice::Skip
    }
}

/// How many drafts were approved and rejected so far.
pub struct DraftTally {
    pub approved: usize,
    pub rejected: usize,
}

impl DraftTally {
    /// Nothing reviewed yet.
    pub fn new() -> (t: DraftTally)
        ensures
            t.approved == 0,
            t.rejected == 0,
    {
        DraftTally { approved: 0, rejected: 0 }
    }

    /// Counts `choice` (once its approval or rejection is stored) and says
    /// whether review goes on: it stops at `Quit` only.
    pub fn step(&mut self, choice: DraftChoice) -> (go_on: bool)
        requires
            old(self).approved + old(self).rejected < usize::MAX,
        ensures
            go_on == (choice != DraftChoice::Quit),
            final(self).approved == old(self).approved + (if choice == DraftChoice::Approve {
                1int
            } else {
                0int
            }),
            final(self).rejected == old(self).rejected + (if choice == DraftChoice::Reject {
                1int
            } else {
                0int
            }),
    {
        match choice {
            DraftChoice::Approve => {
                self.approved = self.approved + 1;
                true
            },
            DraftChoice::Reject => {
                self.rejected = self.rejected + 1;
                true
            },
            DraftChoice::Quit => false,
            DraftChoice::Skip => true,
        }
    }

    /// How many drafts were decided, approved or rejected.
    pub fn decided(&self) -> (n: usize)
        requires
            self.approved + self.rejected <= usize::MAX,
        ensures
            n == self.approved + self.rejected,
    {
        self.approved + self.rejected
    }
}


/// What a typed answer means, stated case by case: `y`/`Y` approve, `n`/`N`
/// reject, `q`/`Q` quit, all around whitespace ignored; anything else skips.
pub proof fn law_draft_choice_keys(input: Seq<char>)
    ensures
        (trim(input) == "y"@ || trim(input) == "Y"@) ==> draft_choice(input) == DraftChoice::Approve,
        (trim(input) == "n"@ || trim(input) == "N"@) ==> draft_choice(input) == DraftChoice::Reject,
        (trim(input) == "q"@ || trim(input) == "Q"@) ==> draft_choice(input) == DraftChoice::Quit,
        !(trim(input) == "y"@ || trim(input) == "Y"@ || trim(input) == "n"@ || trim(input) == "N"@
            || trim(input) == "q"@ || trim(input) == "Q"@) ==> draft_choice(input)
            == DraftChoice::Skip,
{
    reveal_strlit("y");
    reveal_strlit("Y");
    reveal_strlit("n");
    reveal_strlit("N");
    reveal_strlit("q");
    reveal_strlit("Q");
    let t = trim(input);
    if t == "q"@ || t == "Q"@ {
        assert(t.len() == 1);
        assert(t != "y"@ && t != "Y"@ && t != "n"@ && t != "N"@) by {
            assert(t[0] != 'y' && t[0] != 'Y' && t[0] != 'n' && t[0] != 'N');
        }
    }
    if t == "n"@ || t == "N"@ {
        assert(t != "y"@ && t != "Y"@) by {
            assert(t[0] != 'y' && t[0] != 'Y');
        }
    }
}

} // verus!

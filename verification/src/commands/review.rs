//! The decisions of a review session: how many cards may still be reviewed
//! today, and what a typed answer means.

use vstd::prelude::*;

use crate::cards::types::{rating_of_i32, Rating};
use crate::text::{decimal, push_decimal, push_str, seq_eq, str_chars, trim, trim_chars, chars_to_string};

verus! {

/// `min(limit, max(daily_limit - today_reviewed, 0))`.
pub open spec fn effective_limit_spec(limit: int, daily_limit: int, today_reviewed: int) -> int {
    let remaining = if daily_limit - today_reviewed > 0 {
        daily_limit - today_reviewed
    } else {
        0
    };
    if limit < remaining {
        limit
    } else {
        remaining
    }
}

/// The number of cards this session may review: the requested limit, but no
/// more than what is left of the daily limit. Never negative unless `limit` is.
pub fn effective_limit(limit: i32, daily_limit: i32, today_reviewed: i32) -> (r: i32)
    ensures
        r == effective_limit_spec(limit as int, daily_limit as int, today_reviewed as int),
        r <= limit,
        r <= (if daily_limit - today_reviewed > 0 { daily_limit - today_reviewed } else { 0 }),
{
    let d = daily_limit as i64 - today_reviewed as i64;
    let remaining: i64 = if d > 0 {
        d
    } else {
        0
    };
    if (limit as i64) < remaining {
        limit
    } else {
        remaining as i32
    }
}

/// What the learner typed after seeing the answer.
#[derive(Debug, Clone, Copy, PartialEq, Eq, Structural)]
pub enum ReviewChoice {
    Quit,
    Rate(Rating),
    Invalid,
}

/// Whether `c` is an ASCII digit.
pub open spec fn is_digit(c: char) -> bool {
    '0' <= c && c <= '9'
}

/// Whether `s` is made of ASCII digits only.
pub open spec fn all_digits(s: Seq<char>) -> bool {
    forall|i: int| 0 <= i < s.len() ==> is_digit(#[trigger] s[i])
}

/// The number the digits `s` spell.
pub open spec fn digits_value(s: Seq<char>) -> nat
    decreases s.len(),
{
    if s.len() == 0 {
        0
    } else {
        digits_value(s.drop_last()) * 10 + ((s.last() as u32) - ('0' as u32)) as nat
    }
}

/// The digits of an integer literal, without one leading `+`.
pub open spec fn unsigned_body(s: Seq<char>) -> Seq<char> {
    if s.len() > 0 && s[0] == '+' {
        s.drop_first()
    } else {
        s
    }
}

/// The meaning of a typed answer: `q` or `Q` quits; an integer 1 to 4 (as
/// `str::parse::<i32>` reads it, so a leading `+` and zeros are allowed) rates;
/// anything else is invalid. Surrounding whitespace is ignored.
pub open spec fn review_choice(input: Seq<char>) -> ReviewChoice {
    let t = trim(input);
    let b = unsigned_body(t);
    if t == "q"@ || t == "Q"@ {
        ReviewChoice::Quit
    } else if b.len() > 0 && all_digits(b) && 1 <= digits_value(b) <= 4 {
        ReviewChoice::Rate(rating_of_i32(digits_value(b) as i32).unwrap())
    } else {
        ReviewChoice::Invalid
    }
}

/// `digits_value` capped at 5, step by step.
proof fn lemma_capped_step(x: nat, d: nat)
    requires
        d <= 9,
    ensures
        (if x < 5 { x } else { 5 }) * 10 + d >= 5 ==> x * 10 + d >= 5,
        x * 10 + d >= 5 ==> (if x < 5 { x } else { 5 }) * 10 + d >= 5,
        x < 5 ==> (if x < 5 { x } else { 5 }) == x,
{
}

/// Reads what the learner typed.
pub fn parse_rating_choice(input: &str) -> (r: ReviewChoice)
    ensures
        r == review_choice(input@),
{
    let chars = str_chars(input);
    let t = trim_chars(chars.as_slice());
    let q = str_chars("q");
    let big_q = str_chars("Q");
    if seq_eq(t.as_slice(), q.as_slice()) || seq_eq(t.as_slice(), big_q.as_slice()) {
        return ReviewChoice::Quit;
    }
    let start: usize = if t.len() > 0 && t[0] == '+' {
        1
    } else {
        0
    };
    let ghost b = unsigned_body(t@);
    assert(b =~= t@.skip(start as int));
    if start >= t.len() {
        return ReviewChoice::Invalid;
    }
    let mut value: u32 = 0;
    let mut i: usize = start;
    while i < t.len()
        invariant
            start <= i <= t@.len(),
            t@ == trim(input@),
            t@ != "q"@ && t@ != "Q"@,
            b == unsigned_body(t@),
            b == t@.skip(start as int),
            all_digits(t@.subrange(start as int, i as int)),
            value == (if digits_value(t@.subrange(start as int, i as int)) < 5 {
                digits_value(t@.subrange(start as int, i as int))
            } else {
                5
            }),
        decreases t.len() - i,
    {
        let c = t[i];
        if !('0' <= c && c <= '9') {
            assert(b[i - start] == c);
            assert(!is_digit(b[i - start]));
            assert(!all_digits(b));
            return ReviewChoice::Invalid;
        }
        let d = (c as u32) - ('0' as u32);
        let ghost pre = t@.subrange(start as int, i + 1);
        assert(pre.drop_last() =~= t@.subrange(start as int, i as int));
        proof {
            lemma_capped_step(digits_value(pre.drop_last()), d as nat);
        }
        let next = value * 10 + d;
        value = if next < 5 {
            next
        } else {
            5
        };
        i = i + 1;
    }
    assert(t@.subrange(start as int, t@.len() as int) =~= b);
    match value {
        1 => ReviewChoice::Rate(Rating::Again),
        2 => ReviewChoice::Rate(Rating::Hard),
        3 => ReviewChoice::Rate(Rating::Good),
        4 => ReviewChoice::Rate(Rating::Easy),
        _ => ReviewChoice::Invalid,
    }
}


/// What happened to the card the session put up.
#[derive(Debug, Clone, Copy, PartialEq, Eq, Structural)]
pub enum ReviewEvent {
    /// The due card is no longer stored.
    CardMissing,
    /// The learner saw the answer and typed this.
    Answered(ReviewChoice),
}

/// What the session does next.
#[derive(Debug, Clone, Copy, PartialEq, Eq, Structural)]
pub enum ReviewAction {
    /// Go on to the next due card without recording anything.
    NextCard,
    /// Schedule the card with this rating, log the review, then go on.
    Record(Rating),
    /// End the session; what was recorded stays recorded.
    Stop,
}

/// The action that answers an event.
pub open spec fn review_action(event: ReviewEvent) -> ReviewAction {
    match event {
        ReviewEvent::CardMissing => ReviewAction::NextCard,
        ReviewEvent::Answered(ReviewChoice::Quit) => ReviewAction::Stop,
        ReviewEvent::Answered(ReviewChoice::Invalid) => ReviewAction::NextCard,
        ReviewEvent::Answered(ReviewChoice::Rate(r)) => ReviewAction::Record(r),
    }
}

/// A review session in progress: how many cards were rated so far.
pub struct ReviewSession {
    pub reviewed: usize,
}

impl ReviewSession {
    /// A session that has rated nothing yet.
    pub fn new() -> (s: ReviewSession)
        ensures
            s.reviewed == 0,
    {
        ReviewSession { reviewed: 0 }
    }

    /// Decides what to do after `event`: a rating is recorded and counted,
    /// `q` stops, an invalid answer or a missing card moves on.
    pub fn step(&mut self, event: ReviewEvent) -> (a: ReviewAction)
        requires
            old(self).reviewed < usize::MAX,
        ensures
            a == review_action(event),
            final(self).reviewed == old(self).reviewed + (if a is Record { 1int } else { 0int }),
    {
        let a = match event {
            ReviewEvent::CardMissing => ReviewAction::NextCard,
            ReviewEvent::Answered(ReviewChoice::Quit) => ReviewAction::Stop,
            ReviewEvent::Answered(ReviewChoice::Invalid) => ReviewAction::NextCard,
            ReviewEvent::Answered(ReviewChoice::Rate(r)) => ReviewAction::Record(r),
        };
        if let ReviewAction::Record(_) = a {
            self.reviewed = self.reviewed + 1;
        }
        a
    }
}

/// How the next review date is shown: "明天" (tomorrow) for at most one day
/// ahead, else the number of days followed by "天后" (days later).
pub open spec fn next_review_label_spec(days_until: int) -> Seq<char> {
    if days_until <= 1 {
        "明天"@
    } else {
        decimal(days_until as nat) + "天后"@
    }
}

/// The label for a next review `days_until` whole days ahead.
pub fn next_review_label(days_until: i64) -> (r: String)
    ensures
        r@ == next_review_label_spec(days_until as int),
{
    let mut out: Vec<char> = Vec::new();
    if days_until <= 1 {
        push_str(&mut out, "明天");
    } else {
        push_decimal(&mut out, days_until as u64);
        push_str(&mut out, "天后");
    }
    chars_to_string(out.as_slice())
}


/// What a typed rating means, key by key: `q` or `Q` quits, `1` to `4` rate
/// Again, Hard, Good and Easy, all around whitespace ignored; `5`, `0` and an
/// empty answer are invalid.
pub proof fn law_rating_keys(input: Seq<char>)
    ensures
        (trim(input) == "q"@ || trim(input) == "Q"@) ==> review_choice(input) == ReviewChoice::Quit,
        trim(input) == "1"@ ==> review_choice(input) == ReviewChoice::Rate(Rating::Again),
        trim(input) == "2"@ ==> review_choice(input) == ReviewChoice::Rate(Rating::Hard),
        trim(input) == "3"@ ==> review_choice(input) == ReviewChoice::Rate(Rating::Good),
        trim(input) == "4"@ ==> review_choice(input) == ReviewChoice::Rate(Rating::Easy),
        (trim(input) == "5"@ || trim(input) == "0"@ || trim(input).len() == 0) ==> review_choice(
            input,
        ) == ReviewChoice::Invalid,
{
    reveal_strlit("q");
    reveal_strlit("Q");
    reveal_strlit("0");
    reveal_strlit("1");
    reveal_strlit("2");
    reveal_strlit("3");
    reveal_strlit("4");
    reveal_strlit("5");
    let t = trim(input);
    if t.len() == 1 && t[0] != '+' {
        assert(t.drop_last() =~= Seq::<char>::empty());
        assert(t.last() == t[0]);
        assert(unsigned_body(t) == t);
        assert(digits_value(t) == digits_value(t.drop_last()) * 10 + ((t.last() as u32) - ('0' as u32)) as nat);
        assert(digits_value(Seq::<char>::empty()) == 0);
    }
}

} // verus!

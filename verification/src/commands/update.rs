//! Re-reading a card file against what is stored: which cards are new, which
//! changed their question, and which stay as they are.

use vstd::prelude::*;

use crate::cards::hash::{question_fingerprint, question_hash};
use crate::parser::{ParsedCard, ParsedCardView};
use crate::text::seq_eq;

verus! {

/// What the store holds of a card, as far as updating needs it.
pub struct StoredCard {
    pub id: String,
    pub card_index: i32,
    pub question_hash: String,
}

/// The mathematical content of a `StoredCard`.
pub struct StoredCardView {
    pub id: Seq<char>,
    pub card_index: i32,
    pub question_hash: Seq<char>,
}

impl View for StoredCard {
    type V = StoredCardView;

    open spec fn view(&self) -> StoredCardView {
        StoredCardView {
            id: self.id@,
            card_index: self.card_index,
            question_hash: self.question_hash@,
        }
    }
}

impl DeepView for StoredCard {
    type V = StoredCardView;

    open spec fn deep_view(&self) -> StoredCardView {
        self@
    }
}

/// What to do with one parsed card.
#[derive(Debug)]
pub enum CardAction {
    /// The stored card at `slot` has the same question: leave it alone.
    Skip { slot: usize },
    /// The stored card at `slot` has another question: store the new content
    /// and fingerprint, and start its schedule afresh when `reset_schedule`.
    Update { slot: usize, question_hash: String, reset_schedule: bool },
    /// No stored card has this position: add it with a fresh schedule.
    Insert { question_hash: String },
}

/// The mathematical content of a `CardAction`.
pub enum CardActionView {
    Skip { slot: nat },
    Update { slot: nat, question_hash: Seq<char>, reset_schedule: bool },
    Insert { question_hash: Seq<char> },
}

impl View for CardAction {
    type V = CardActionView;

    open spec fn view(&self) -> CardActionView {
        match self {
            CardAction::Skip { slot } => CardActionView::Skip { slot: *slot as nat },
            CardAction::Update { slot, question_hash, reset_schedule } => CardActionView::Update {
                slot: *slot as nat,
                question_hash: question_hash@,
                reset_schedule: *reset_schedule,
            },
            CardAction::Insert { question_hash } => CardActionView::Insert {
                question_hash: question_hash@,
            },
        }
    }
}

impl DeepView for CardAction {
    type V = CardActionView;

    open spec fn deep_view(&self) -> CardActionView {
        self@
    }
}

/// The stored card at position `index` of the file: the last one listed, as
/// when the list is collected into a map keyed by position.
pub open spec fn find_stored(stored: Seq<StoredCardView>, index: i32) -> Option<nat>
    decreases stored.len(),
{
    if stored.len() == 0 {
        None
    } else if stored.last().card_index == index {
        Some((stored.len() - 1) as nat)
    } else {
        find_stored(stored.drop_last(), index)
    }
}

/// The action for one parsed card. A card whose question fingerprint is
/// unchanged is skipped (answer-only edits keep the schedule); a changed
/// question is updated, with the schedule reset unless `keep_schedule`; a new
/// position is inserted.
pub open spec fn planned_action(
    parsed: ParsedCardView,
    stored: Seq<StoredCardView>,
    keep_schedule: bool,
) -> CardActionView {
    let h = question_fingerprint(parsed.question);
    match find_stored(stored, parsed.card_index) {
        Some(k) => if stored[k as int].question_hash == h {
            CardActionView::Skip { slot: k }
        } else {
            CardActionView::Update { slot: k, question_hash: h, reset_schedule: !keep_schedule }
        },
        None => CardActionView::Insert { question_hash: h },
    }
}

proof fn lemma_find_stored(stored: Seq<StoredCardView>, index: i32)
    ensures
        find_stored(stored, index) matches Some(k) ==> k < stored.len()
            && stored[k as int].card_index == index,
    decreases stored.len(),
{
    if stored.len() > 0 {
        lemma_find_stored(stored.drop_last(), index);
    }
}

fn find_slot(stored: &Vec<StoredCard>, index: i32) -> (r: Option<usize>)
    ensures
        match find_stored(stored.deep_view(), index) {
            Some(k) => r == Some(k as usize) && k < stored@.len(),
            None => r is None,
        },
        r matches Some(i) ==> find_stored(stored.deep_view(), index) == Some(i as nat),
{
    let ghost sv = stored.deep_view();
    let mut i: usize = stored.len();
    assert(sv.take(stored@.len() as int) =~= sv);
    while i > 0
        invariant
            i <= stored@.len(),
            sv == stored.deep_view(),
            find_stored(sv, index) == find_stored(sv.take(i as int), index),
        decreases i,
    {
        let ghost pre = sv.take(i as int);
        assert(pre.drop_last() =~= sv.take(i - 1));
        assert(pre.last() == stored@[i - 1]@);
        if stored[i - 1].card_index == index {
            return Some(i - 1);
        }
        i = i - 1;
    }
    None
}

/// Decides, for each parsed card in order, what the store must do.
pub fn plan_update(parsed: &Vec<ParsedCard>, stored: &Vec<StoredCard>, keep_schedule: bool) -> (r:
    Vec<CardAction>)
    ensures
        r@.len() == parsed@.len(),
        forall|i: int|
            0 <= i < parsed@.len() ==> (#[trigger] r@[i])@ == planned_action(
                parsed@[i]@,
                stored.deep_view(),
                keep_schedule,
            ),
{
    let mut r: Vec<CardAction> = Vec::new();
    let mut i: usize = 0;
    while i < parsed.len()
        invariant
            i <= parsed@.len(),
            r@.len() == i,
            forall|j: int|
                0 <= j < i ==> (#[trigger] r@[j])@ == planned_action(
                    parsed@[j]@,
                    stored.deep_view(),
                    keep_schedule,
                ),
        decreases parsed.len() - i,
    {
        let p = &parsed[i];
        let h = question_hash(p.question.as_str());
        proof {
            assert(stored.deep_view().take(stored@.len() as int) =~= stored.deep_view());
        }
        let ghost hv = h@;
        let ghost pv = parsed@[i as int]@;
        assert(hv == question_fingerprint(pv.question));
        assert(pv.card_index == p.card_index);
        let found = find_slot(stored, p.card_index);
        let action = match found {
            Some(k) => {
                let hs = crate::text::str_chars(stored[k].question_hash.as_str());
                let hc = crate::text::str_chars(h.as_str());
                assert(stored.deep_view()[k as int] == stored@[k as int]@);
                assert(find_stored(stored.deep_view(), pv.card_index) == Some(k as nat));
                if seq_eq(hs.as_slice(), hc.as_slice()) {
                    assert(stored.deep_view()[k as int].question_hash == hv);
                    assert(planned_action(pv, stored.deep_view(), keep_schedule) == CardActionView::Skip { slot: k as nat });
                    CardAction::Skip { slot: k }
                } else {
                    assert(stored.deep_view()[k as int].question_hash != hv);
                    assert(planned_action(pv, stored.deep_view(), keep_schedule) == (CardActionView::Update { slot: k as nat, question_hash: hv, reset_schedule: !keep_schedule }));
                    CardAction::Update { slot: k, question_hash: h, reset_schedule: !keep_schedule }
                }
            },
            None => CardAction::Insert { question_hash: h },
        };
        assert(parsed@[i as int]@.question == p.question@);
        assert(action@ == planned_action(parsed@[i as int]@, stored.deep_view(), keep_schedule));
        r.push(action);
        i = i + 1;
    }
    r
}

/// Counts of inserted, updated and skipped cards in a plan.
pub open spec fn action_counts(actions: Seq<CardActionView>) -> (nat, nat, nat)
    decreases actions.len(),
{
    if actions.len() == 0 {
        (0, 0, 0)
    } else {
        let (n, u, s) = action_counts(actions.drop_last());
        match actions.last() {
            CardActionView::Insert { .. } => (n + 1, u, s),
            CardActionView::Update { .. } => (n, u + 1, s),
            CardActionView::Skip { .. } => (n, u, s + 1),
        }
    }
}

/// The counts of a plan are how many of its actions are inserts, updates and
/// skips: every update counts as updated, whether or not it resets the
/// schedule, and every action is counted once.
pub proof fn law_counts_tally_actions(actions: Seq<CardActionView>)
    ensures
        action_counts(actions) == (
            actions.filter(|a: CardActionView| a is Insert).len(),
            actions.filter(|a: CardActionView| a is Update).len(),
            actions.filter(|a: CardActionView| a is Skip).len(),
        ),
        action_counts(actions).0 + action_counts(actions).1 + action_counts(actions).2
            == actions.len(),
    decreases actions.len(),
{
    let fi = |a: CardActionView| a is Insert;
    let fu = |a: CardActionView| a is Update;
    let fs = |a: CardActionView| a is Skip;
    if actions.len() > 0 {
        let pre = actions.drop_last();
        let x = actions.last();
        law_counts_tally_actions(pre);
        assert(pre.push(x) =~= actions);
        pre.lemma_filter_push(x, fi);
        pre.lemma_filter_push(x, fu);
        pre.lemma_filter_push(x, fs);
    } else {
        reveal(Seq::filter);
        assert(actions.filter(fi).len() == 0);
        assert(actions.filter(fu).len() == 0);
        assert(actions.filter(fs).len() == 0);
    }
}

/// How many cards a plan inserts, updates and skips.
pub fn count_actions(actions: &Vec<CardAction>) -> (r: (usize, usize, usize))
    ensures
        (r.0 as nat, r.1 as nat, r.2 as nat) == action_counts(actions.deep_view()),
{
    let ghost av = actions.deep_view();
    let mut n: usize = 0;
    let mut u: usize = 0;
    let mut s: usize = 0;
    let mut i: usize = 0;
    assert(av.take(0) =~= Seq::<CardActionView>::empty());
    while i < actions.len()
        invariant
            i <= actions@.len(),
            av == actions.deep_view(),
            (n as nat, u as nat, s as nat) == action_counts(av.take(i as int)),
            n + u + s == i,
        decreases actions.len() - i,
    {
        let ghost pre = av.take(i + 1);
        assert(pre.drop_last() =~= av.take(i as int));
        assert(pre.last() == actions@[i as int]@);
        match &actions[i] {
            CardAction::Insert { .. } => n = n + 1,
            CardAction::Update { .. } => u = u + 1,
            CardAction::Skip { .. } => s = s + 1,
        }
        i = i + 1;
    }
    assert(av.take(actions@.len() as int) =~= av);
    (n, u, s)
}

// ===== Re-importing is safe =====

/// The store after carrying out `action` for parsed card `p`; an inserted card
/// gets the id `new_id`.
pub open spec fn apply_action(
    stored: Seq<StoredCardView>,
    p: ParsedCardView,
    action: CardActionView,
    new_id: Seq<char>,
) -> Seq<StoredCardView> {
    match action {
        CardActionView::Skip { .. } => stored,
        CardActionView::Update { slot, question_hash, .. } => if slot < stored.len() {
            stored.update(slot as int, StoredCardView { question_hash, ..stored[slot as int] })
        } else {
            stored
        },
        CardActionView::Insert { question_hash } => stored.push(
            StoredCardView { id: new_id, card_index: p.card_index, question_hash },
        ),
    }
}

/// The store after carrying out, in order, the plan made against `orig` for `parsed`.
pub open spec fn replay(
    orig: Seq<StoredCardView>,
    parsed: Seq<ParsedCardView>,
    keep_schedule: bool,
    new_ids: Seq<Seq<char>>,
) -> Seq<StoredCardView>
    decreases parsed.len(),
{
    if parsed.len() == 0 {
        orig
    } else {
        let p = parsed.last();
        apply_action(
            replay(orig, parsed.drop_last(), keep_schedule, new_ids),
            p,
            planned_action(p, orig, keep_schedule),
            new_ids[parsed.len() - 1],
        )
    }
}

/// Parsed cards occupy distinct positions of their file.
pub open spec fn distinct_positions(parsed: Seq<ParsedCardView>) -> bool {
    forall|i: int, j: int|
        0 <= i < parsed.len() && 0 <= j < parsed.len() && i != j ==> parsed[i].card_index
            != parsed[j].card_index
}

/// `find_stored` is the last entry at the position.
proof fn lemma_find_stored_char(s: Seq<StoredCardView>, x: i32)
    ensures
        match find_stored(s, x) {
            Some(k) => k < s.len() && s[k as int].card_index == x && forall|j: int|
                k < j < s.len() ==> s[j].card_index != x,
            None => forall|j: int| 0 <= j < s.len() ==> s[j].card_index != x,
        },
    decreases s.len(),
{
    if s.len() > 0 {
        lemma_find_stored_char(s.drop_last(), x);
        if s.last().card_index != x {
            assert forall|j: int| 0 <= j < s.len() - 1 implies s[j] == s.drop_last()[j] by {}
        }
    }
}

/// An entry at the position with none after it is what `find_stored` finds.
proof fn lemma_find_stored_is(s: Seq<StoredCardView>, x: i32, k: int)
    requires
        0 <= k < s.len(),
        s[k].card_index == x,
        forall|j: int| k < j < s.len() ==> s[j].card_index != x,
    ensures
        find_stored(s, x) == Some(k as nat),
{
    lemma_find_stored_char(s, x);
    match find_stored(s, x) {
        Some(k2) => {
            if (k2 as int) < k {
                assert(s[k].card_index != x);
            } else if (k2 as int) > k {
                assert(s[k2 as int].card_index != x);
            }
        },
        None => {
            assert(s[k].card_index != x);
        },
    }
}

/// `find_stored` looks at positions only.
proof fn lemma_find_stored_positions(s1: Seq<StoredCardView>, s2: Seq<StoredCardView>, x: i32)
    requires
        s1.len() == s2.len(),
        forall|j: int| 0 <= j < s1.len() ==> s1[j].card_index == s2[j].card_index,
    ensures
        find_stored(s1, x) == find_stored(s2, x),
    decreases s1.len(),
{
    if s1.len() > 0 {
        lemma_find_stored_positions(s1.drop_last(), s2.drop_last(), x);
    }
}

/// What holds of the store after the first `n` actions of a re-import.
pub open spec fn replay_inv(
    orig: Seq<StoredCardView>,
    parsed: Seq<ParsedCardView>,
    n: int,
    a: Seq<StoredCardView>,
) -> bool {
    &&& a.len() >= orig.len()
    &&& forall|j: int| 0 <= j < orig.len() ==> (#[trigger] a[j]).card_index == orig[j].card_index
    &&& forall|j: int|
        orig.len() <= j < a.len() ==> exists|i: int|
            0 <= i < n && parsed[i].card_index == (#[trigger] a[j]).card_index
    &&& forall|j: int|
        0 <= j < orig.len() ==> (#[trigger] a[j]).question_hash == orig[j].question_hash
            || exists|i: int| 0 <= i < n && parsed[i].card_index == orig[j].card_index
    &&& forall|i: int|
        0 <= i < n ==> ((#[trigger] find_stored(a, parsed[i].card_index)) matches Some(k)
            && a[k as int].question_hash == question_fingerprint(parsed[i].question))
}

proof fn lemma_replay_step(
    orig: Seq<StoredCardView>,
    parsed: Seq<ParsedCardView>,
    keep_schedule: bool,
    new_ids: Seq<Seq<char>>,
    n: int,
)
    requires
        0 <= n < parsed.len(),
        distinct_positions(parsed),
        replay_inv(orig, parsed, n, replay(orig, parsed.take(n), keep_schedule, new_ids)),
    ensures
        replay_inv(orig, parsed, n + 1, replay(orig, parsed.take(n + 1), keep_schedule, new_ids)),
{
    let a = replay(orig, parsed.take(n), keep_schedule, new_ids);
    assert(parsed.take(n + 1).drop_last() =~= parsed.take(n));
    let p = parsed[n];
    assert(parsed.take(n + 1).last() == p);
    let x = p.card_index;
    let h = question_fingerprint(p.question);
    let act = planned_action(p, orig, keep_schedule);
    let a2 = replay(orig, parsed.take(n + 1), keep_schedule, new_ids);
    assert(a2 == apply_action(a, p, act, new_ids[n]));
    lemma_find_stored_char(orig, x);
    // Appended entries belong to earlier cards, so none is at position x.
    assert forall|j: int| orig.len() <= j < a.len() implies a[j].card_index != x by {
        let i = choose|i: int| 0 <= i < n && parsed[i].card_index == a[j].card_index;
        assert(parsed[i].card_index != parsed[n].card_index);
    }
    match find_stored(orig, x) {
        Some(k) => {
            assert(a[k as int].card_index == x);
            assert forall|j: int| k < j < a.len() implies a[j].card_index != x by {
                if j < orig.len() {
                    assert(a[j].card_index == orig[j].card_index);
                }
            }
            lemma_find_stored_is(a, x, k as int);
            if a[k as int].question_hash != orig[k as int].question_hash {
                let i = choose|i: int| 0 <= i < n && parsed[i].card_index == orig[k as int].card_index;
                assert(parsed[i].card_index != parsed[n].card_index);
            }
            if orig[k as int].question_hash == h {
                assert(a2 == a);
            } else {
                assert(a2 == a.update(k as int, StoredCardView { question_hash: h, ..a[k as int] }));
                lemma_find_stored_positions(a2, a, x);
                assert forall|i: int| 0 <= i < n + 1 implies ((#[trigger] find_stored(a2, parsed[i].card_index)) matches Some(k3)
                    && a2[k3 as int].question_hash == question_fingerprint(parsed[i].question)) by {
                    lemma_find_stored_positions(a2, a, parsed[i].card_index);
                    if i < n {
                        let k3 = find_stored(a, parsed[i].card_index).unwrap();
                        lemma_find_stored_char(a, parsed[i].card_index);
                        assert(parsed[i].card_index != parsed[n].card_index);
                        assert(k3 != k);
                    }
                }
                assert forall|j: int| 0 <= j < orig.len() implies (#[trigger] a2[j]).question_hash == orig[j].question_hash
                    || exists|i: int| 0 <= i < n + 1 && parsed[i].card_index == orig[j].card_index by {
                    if j == k as int {
                        assert(parsed[n].card_index == orig[j].card_index);
                    } else if a[j].question_hash != orig[j].question_hash {
                        let i = choose|i: int| 0 <= i < n && parsed[i].card_index == orig[j].card_index;
                        assert(0 <= i < n + 1);
                    }
                }
                assert forall|j: int| orig.len() <= j < a2.len() implies exists|i: int|
                    0 <= i < n + 1 && parsed[i].card_index == (#[trigger] a2[j]).card_index by {
                    let i = choose|i: int| 0 <= i < n && parsed[i].card_index == a[j].card_index;
                    assert(0 <= i < n + 1);
                }
            }
        },
        None => {
            assert(a2 == a.push(StoredCardView { id: new_ids[n], card_index: x, question_hash: h }));
            assert forall|j: int| 0 <= j < a.len() implies a[j].card_index != x by {
                if j < orig.len() {
                    assert(a[j].card_index == orig[j].card_index);
                }
            }
            lemma_find_stored_is(a2, x, a.len() as int);
            assert forall|i: int| 0 <= i < n + 1 implies ((#[trigger] find_stored(a2, parsed[i].card_index)) matches Some(k3)
                && a2[k3 as int].question_hash == question_fingerprint(parsed[i].question)) by {
                if i < n {
                    assert(parsed[i].card_index != parsed[n].card_index);
                    assert(a2.drop_last() =~= a);
                    let k3 = find_stored(a, parsed[i].card_index).unwrap();
                    lemma_find_stored_char(a, parsed[i].card_index);
                    assert(a2[k3 as int] == a[k3 as int]);
                }
            }
            assert forall|j: int| 0 <= j < orig.len() implies (#[trigger] a2[j]).question_hash == orig[j].question_hash
                || exists|i: int| 0 <= i < n + 1 && parsed[i].card_index == orig[j].card_index by {
                assert(a2[j] == a[j]);
                if a[j].question_hash != orig[j].question_hash {
                    let i = choose|i: int| 0 <= i < n && parsed[i].card_index == orig[j].card_index;
                    assert(0 <= i < n + 1);
                }
            }
            assert forall|j: int| orig.len() <= j < a2.len() implies exists|i: int|
                0 <= i < n + 1 && parsed[i].card_index == (#[trigger] a2[j]).card_index by {
                if j < a.len() {
                    assert(a2[j] == a[j]);
                    let i = choose|i: int| 0 <= i < n && parsed[i].card_index == a[j].card_index;
                    assert(0 <= i < n + 1);
                } else {
                    assert(parsed[n].card_index == a2[j].card_index);
                }
            }
            assert forall|j: int| 0 <= j < orig.len() implies (#[trigger] a2[j]).card_index == orig[j].card_index by {
                assert(a2[j] == a[j]);
            }
        },
    }
}

proof fn lemma_replay_prefix(
    orig: Seq<StoredCardView>,
    parsed: Seq<ParsedCardView>,
    keep_schedule: bool,
    new_ids: Seq<Seq<char>>,
    n: int,
)
    requires
        0 <= n <= parsed.len(),
        distinct_positions(parsed),
    ensures
        replay_inv(orig, parsed, n, replay(orig, parsed.take(n), keep_schedule, new_ids)),
    decreases n,
{
    if n == 0 {
        assert(parsed.take(0) =~= Seq::<ParsedCardView>::empty());
    } else {
        lemma_replay_prefix(orig, parsed, keep_schedule, new_ids, n - 1);
        lemma_replay_step(orig, parsed, keep_schedule, new_ids, n - 1);
    }
}

/// Importing the same cards again right after an import changes nothing:
/// once the plan for `parsed` has been carried out, a new plan for the same
/// cards skips every one of them (cards sit at distinct positions, as both
/// parsers number them).
pub proof fn law_reimport_skips(
    orig: Seq<StoredCardView>,
    parsed: Seq<ParsedCardView>,
    keep_schedule: bool,
    new_ids: Seq<Seq<char>>,
)
    requires
        distinct_positions(parsed),
    ensures
        forall|i: int|
            0 <= i < parsed.len() ==> (#[trigger] planned_action(
                parsed[i],
                replay(orig, parsed, keep_schedule, new_ids),
                keep_schedule,
            )) is Skip,
{
    lemma_replay_prefix(orig, parsed, keep_schedule, new_ids, parsed.len() as int);
    assert(parsed.take(parsed.len() as int) =~= parsed);
}


/// How one parsed card is planned, by the stored cards at its position: when
/// the last stored card there has the same question fingerprint, it is
/// skipped; when its fingerprint differs, it is updated (content and
/// fingerprint), with its schedule reset exactly when `keep_schedule` is
/// off; when no stored card has the position, the card is inserted.
pub proof fn law_plan_by_position_and_fingerprint(
    p: ParsedCardView,
    stored: Seq<StoredCardView>,
    keep_schedule: bool,
)
    ensures
        forall|k: int|
            0 <= k < stored.len() && #[trigger] stored[k].card_index == p.card_index && (forall|j: int|
                k < j < stored.len() ==> stored[j].card_index != p.card_index) ==> {
                &&& stored[k].question_hash == question_fingerprint(p.question) ==> planned_action(
                    p,
                    stored,
                    keep_schedule,
                ) == (CardActionView::Skip { slot: k as nat })
                &&& stored[k].question_hash != question_fingerprint(p.question) ==> planned_action(
                    p,
                    stored,
                    keep_schedule,
                ) == (CardActionView::Update {
                    slot: k as nat,
                    question_hash: question_fingerprint(p.question),
                    reset_schedule: !keep_schedule,
                })
            },
        (forall|j: int| 0 <= j < stored.len() ==> stored[j].card_index != p.card_index)
            ==> planned_action(p, stored, keep_schedule) == (CardActionView::Insert {
            question_hash: question_fingerprint(p.question),
        }),
{
    assert forall|k: int|
        0 <= k < stored.len() && #[trigger] stored[k].card_index == p.card_index && (forall|j: int|
            k < j < stored.len() ==> stored[j].card_index != p.card_index) implies {
        &&& stored[k].question_hash == question_fingerprint(p.question) ==> planned_action(
            p,
            stored,
            keep_schedule,
        ) == (CardActionView::Skip { slot: k as nat })
        &&& stored[k].question_hash != question_fingerprint(p.question) ==> planned_action(
            p,
            stored,
            keep_schedule,
        ) == (CardActionView::Update {
            slot: k as nat,
            question_hash: question_fingerprint(p.question),
            reset_schedule: !keep_schedule,
        })
    } by {
        lemma_find_stored_is(stored, p.card_index, k);
    }
    lemma_find_stored_char(stored, p.card_index);
}

} // verus!

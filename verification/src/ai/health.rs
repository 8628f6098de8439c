//! The read-only quality checks over the knowledge base: answers that are too
//! short, questions that are near duplicates, cards long overdue.

use vstd::prelude::*;

use crate::text::str_chars;

verus! {

/// A card's text as the checks read it.
pub struct CardText {
    pub id: String,
    pub question: String,
    pub answer: String,
}

/// Answers shorter than this many characters are reported.
pub const SHORT_ANSWER_CHARS: usize = 20;

/// Cards overdue by more than this many days are reported.
pub const STALE_DAYS: i64 = 30;

/// Two questions whose character sets overlap strongly: `shared` distinct
/// characters in common out of `total` distinct characters in either.
#[derive(Debug, Clone, Copy, PartialEq, Eq, Structural)]
pub struct DuplicatePair {
    pub first: usize,
    pub second: usize,
    pub shared: usize,
    pub total: usize,
}

/// Whether `c` occurs in `v`.
fn contains_char(v: &[char], c: char) -> (r: bool)
    ensures
        r == v@.contains(c),
{
    let mut i: usize = 0;
    while i < v.len()
        invariant
            i <= v@.len(),
            forall|j: int| 0 <= j < i ==> v@[j] != c,
        decreases v.len() - i,
    {
        if v[i] == c {
            assert(v@[i as int] == c);
            return true;
        }
        i = i + 1;
    }
    false
}

/// The distinct characters of `s`, each once.
fn distinct_chars(s: &[char]) -> (r: Vec<char>)
    ensures
        r@.no_duplicates(),
        r@.to_set() == s@.to_set(),
{
    let mut r: Vec<char> = Vec::new();
    let mut i: usize = 0;
    assert(r@.to_set() =~= s@.take(0).to_set());
    while i < s.len()
        invariant
            i <= s@.len(),
            r@.no_duplicates(),
            r@.to_set() == s@.take(i as int).to_set(),
        decreases s.len() - i,
    {
        let c = s[i];
        assert(s@.take(i + 1) =~= s@.take(i as int).push(c));
        proof {
            s@.take(i as int).lemma_push_to_set_commute(c);
        }
        if !contains_char(r.as_slice(), c) {
            let ghost r0 = r@;
            r.push(c);
            proof {
                r0.lemma_push_to_set_commute(c);
            }
            assert(r@.no_duplicates()) by {
                assert forall|a: int, b: int| 0 <= a < r@.len() && 0 <= b < r@.len() && a != b implies r@[a] != r@[b] by {
                    if a == r0.len() as int {
                        assert(!r0.contains(c));
                        assert(r0[b] == r@[b]);
                    } else if b == r0.len() as int {
                        assert(!r0.contains(c));
                        assert(r0[a] == r@[a]);
                    }
                }
            }
        } else {
            assert(r@.to_set().contains(c));
            assert(r@.to_set() =~= r@.to_set().insert(c));
        }
        i = i + 1;
    }
    assert(s@.take(s@.len() as int) =~= s@);
    r
}

/// The number of distinct characters two texts share.
pub open spec fn shared_chars(a: Seq<char>, b: Seq<char>) -> nat {
    a.to_set().intersect(b.to_set()).len()
}

/// The number of distinct characters in either text.
pub open spec fn union_chars(a: Seq<char>, b: Seq<char>) -> nat {
    a.to_set().union(b.to_set()).len()
}

/// Shared and total distinct characters of two texts (the parts of their
/// Jaccard similarity).
pub fn jaccard_counts(a: &str, b: &str) -> (r: (usize, usize))
    ensures
        r.0 == shared_chars(a@, b@),
        r.1 == union_chars(a@, b@),
{
    let ac = str_chars(a);
    let bc = str_chars(b);
    let da = distinct_chars(ac.as_slice());
    let db = distinct_chars(bc.as_slice());
    let mut common: Vec<char> = Vec::new();
    let mut i: usize = 0;
    assert(common@.to_set() =~= da@.take(0).to_set().intersect(b@.to_set()));
    while i < da.len()
        invariant
            i <= da@.len(),
            da@.no_duplicates(),
            db@.to_set() == b@.to_set(),
            common@.no_duplicates(),
            common@.len() <= i,
            common@.to_set() == da@.take(i as int).to_set().intersect(b@.to_set()),
        decreases da.len() - i,
    {
        let c = da[i];
        assert(da@.take(i + 1) =~= da@.take(i as int).push(c));
        proof {
            da@.take(i as int).lemma_push_to_set_commute(c);
        }
        if contains_char(db.as_slice(), c) {
            let ghost c0 = common@;
            common.push(c);
            proof {
                c0.lemma_push_to_set_commute(c);
                assert(db@.to_set().contains(c));
                assert(!da@.take(i as int).contains(c)) by {
                    if da@.take(i as int).contains(c) {
                        let k = choose|k: int| 0 <= k < i && da@.take(i as int)[k] == c;
                        assert(da@[k] == da@[i as int]);
                    }
                }
                assert(!c0.to_set().contains(c));
                assert(!c0.contains(c));
                assert forall|p: int, q: int| 0 <= p < common@.len() && 0 <= q < common@.len() && p != q implies common@[p] != common@[q] by {
                    if p == c0.len() as int {
                        assert(c0[q] == common@[q]);
                    } else if q == c0.len() as int {
                        assert(c0[p] == common@[p]);
                    }
                }
            }
            assert(common@.to_set() =~= da@.take(i + 1).to_set().intersect(b@.to_set()));
        } else {
            assert(!b@.to_set().contains(c));
            assert(common@.to_set() =~= da@.take(i + 1).to_set().intersect(b@.to_set()));
        }
        i = i + 1;
    }
    assert(da@.take(da@.len() as int) =~= da@);
    let mut all: Vec<char> = Vec::new();
    let mut k: usize = 0;
    assert(all@ =~= da@.take(0));
    while k < da.len()
        invariant
            k <= da@.len(),
            all@ == da@.take(k as int),
        decreases da.len() - k,
    {
        all.push(da[k]);
        k = k + 1;
        assert(all@ =~= da@.take(k as int));
    }
    assert(all@ =~= da@);
    let mut j: usize = 0;
    assert(db@.take(0).to_set() =~= Set::<char>::empty());
    assert(all@.to_set() =~= a@.to_set().union(db@.take(0).to_set()));
    while j < db.len()
        invariant
            j <= db@.len(),
            da@.to_set() == a@.to_set(),
            db@.no_duplicates(),
            all@.no_duplicates(),
            all@.to_set() == a@.to_set().union(db@.take(j as int).to_set()),
        decreases db.len() - j,
    {
        let c = db[j];
        assert(db@.take(j + 1) =~= db@.take(j as int).push(c));
        proof {
            db@.take(j as int).lemma_push_to_set_commute(c);
        }
        if !contains_char(da.as_slice(), c) {
            let ghost u0 = all@;
            all.push(c);
            proof {
                u0.lemma_push_to_set_commute(c);
                assert(!a@.to_set().contains(c));
                assert(!db@.take(j as int).contains(c)) by {
                    if db@.take(j as int).contains(c) {
                        let q = choose|q: int| 0 <= q < j && db@.take(j as int)[q] == c;
                        assert(db@[q] == db@[j as int]);
                    }
                }
                assert(!u0.to_set().contains(c));
                assert(!u0.contains(c));
                assert forall|p: int, q: int| 0 <= p < all@.len() && 0 <= q < all@.len() && p != q implies all@[p] != all@[q] by {
                    if p == u0.len() as int {
                        assert(u0[q] == all@[q]);
                    } else if q == u0.len() as int {
                        assert(u0[p] == all@[p]);
                    }
                }
            }
            assert(all@.to_set() =~= a@.to_set().union(db@.take(j + 1).to_set()));
        } else {
            assert(a@.to_set().contains(c));
            assert(all@.to_set() =~= a@.to_set().union(db@.take(j + 1).to_set()));
        }
        j = j + 1;
    }
    assert(db@.take(db@.len() as int) =~= db@);
    proof {
        common@.unique_seq_to_set();
        all@.unique_seq_to_set();
    }
    (common.len(), all.len())
}

/// Whether two questions are near duplicates: Jaccard similarity of their
/// character sets above 0.8 (no pair of empty questions qualifies).
pub open spec fn near_duplicate(shared: nat, total: nat) -> bool {
    total > 0 && 5 * shared > 4 * total
}

/// Executable `near_duplicate`.
pub fn is_near(shared: usize, total: usize) -> (r: bool)
    ensures
        r == near_duplicate(shared as nat, total as nat),
{
    total > 0 && 5 * (shared as u128) > 4 * (total as u128)
}

/// The near-duplicate pairs `(i, j)` for `j` from `j0` up, `i` fixed.
pub open spec fn row_pairs(qs: Seq<Seq<char>>, i: int, j0: int) -> Seq<DuplicatePair>
    decreases qs.len() - j0,
{
    if i < 0 || j0 < 0 || i >= qs.len() || j0 >= qs.len() {
        seq![]
    } else {
        let sh = shared_chars(qs[i], qs[j0]);
        let un = union_chars(qs[i], qs[j0]);
        (if near_duplicate(sh, un) {
            seq![
                DuplicatePair {
                    first: i as usize,
                    second: j0 as usize,
                    shared: sh as usize,
                    total: un as usize,
                },
            ]
        } else {
            seq![]
        }) + row_pairs(qs, i, j0 + 1)
    }
}

/// All near-duplicate pairs `i < j` with `i` from `i0` up, in row order.
pub open spec fn pairs_from(qs: Seq<Seq<char>>, i0: int) -> Seq<DuplicatePair>
    decreases qs.len() - i0,
{
    if i0 < 0 || i0 >= qs.len() {
        seq![]
    } else {
        row_pairs(qs, i0, i0 + 1) + pairs_from(qs, i0 + 1)
    }
}

/// Finds the near-duplicate question pairs, `(0,1), (0,2), ..., (1,2), ...` in order.
pub fn find_duplicates(questions: &Vec<String>) -> (r: Vec<DuplicatePair>)
    ensures
        r@ == pairs_from(questions.deep_view(), 0),
{
    let ghost qs = questions.deep_view();
    let n = questions.len();
    let mut out: Vec<DuplicatePair> = Vec::new();
    let mut i: usize = 0;
    while i < n
        invariant
            i <= n == qs.len(),
            qs == questions.deep_view(),
            pairs_from(qs, 0) == out@ + pairs_from(qs, i as int),
        decreases n - i,
    {
        let mut j: usize = i + 1;
        assert(pairs_from(qs, i as int) == row_pairs(qs, i as int, j as int) + pairs_from(qs, i + 1));
        while j < n
            invariant
                i < n == qs.len(),
                i < j <= n,
                qs == questions.deep_view(),
                pairs_from(qs, 0) == out@ + row_pairs(qs, i as int, j as int) + pairs_from(qs, i + 1),
            decreases n - j,
        {
            let (sh, un) = jaccard_counts(questions[i].as_str(), questions[j].as_str());
            let ghost o0 = out@;
            if is_near(sh, un) {
                out.push(DuplicatePair { first: i, second: j, shared: sh, total: un });
            }
            assert(out@ + row_pairs(qs, i as int, j + 1) =~= o0 + row_pairs(qs, i as int, j as int));
            j = j + 1;
        }
        assert(row_pairs(qs, i as int, n as int) =~= Seq::<DuplicatePair>::empty());
        assert(out@ + pairs_from(qs, i + 1) =~= out@ + row_pairs(qs, i as int, n as int) + pairs_from(qs, i + 1));
        i = i + 1;
    }
    assert(pairs_from(qs, n as int) =~= Seq::<DuplicatePair>::empty());
    assert(out@ =~= out@ + pairs_from(qs, n as int));
    out
}

/// Whether an answer is too short: fewer than `SHORT_ANSWER_CHARS` characters.
pub open spec fn short_answer(answer: Seq<char>) -> bool {
    answer.len() < SHORT_ANSWER_CHARS
}

/// The positions, in order, of the cards whose answers are too short.
pub open spec fn short_positions(cards: Seq<(Seq<char>, Seq<char>, Seq<char>)>) -> Seq<usize>
    decreases cards.len(),
{
    if cards.len() == 0 {
        seq![]
    } else if short_answer(cards.last().2) {
        short_positions(cards.drop_last()).push((cards.len() - 1) as usize)
    } else {
        short_positions(cards.drop_last())
    }
}

/// The content of a `CardText`.
pub open spec fn card_text_view(c: CardText) -> (Seq<char>, Seq<char>, Seq<char>) {
    (c.id@, c.question@, c.answer@)
}

/// The positions of the cards whose answers are too short.
pub fn short_answers(cards: &Vec<CardText>) -> (r: Vec<usize>)
    ensures
        r@ == short_positions(cards@.map_values(|c: CardText| card_text_view(c))),
{
    let ghost cv = cards@.map_values(|c: CardText| card_text_view(c));
    let mut r: Vec<usize> = Vec::new();
    let mut i: usize = 0;
    assert(cv.take(0) =~= Seq::<(Seq<char>, Seq<char>, Seq<char>)>::empty());
    while i < cards.len()
        invariant
            i <= cards@.len(),
            cv == cards@.map_values(|c: CardText| card_text_view(c)),
            r@ == short_positions(cv.take(i as int)),
        decreases cards.len() - i,
    {
        let ghost pre = cv.take(i + 1);
        assert(pre.drop_last() =~= cv.take(i as int));
        assert(pre.last() == card_text_view(cards@[i as int]));
        let a = str_chars(cards[i].answer.as_str());
        if a.len() < SHORT_ANSWER_CHARS {
            r.push(i);
        }
        i = i + 1;
    }
    assert(cv.take(cards@.len() as int) =~= cv);
    r
}

/// Whether a card overdue by `days_overdue` days is reported as stale.
pub fn is_stale(days_overdue: i64) -> (r: bool)
    ensures
        r == (days_overdue > STALE_DAYS),
{
    days_overdue > STALE_DAYS
}


/// Whether `p` names the near-duplicate pair `i < j` of `qs`, with its counts of
/// shared and of all distinct characters.
pub open spec fn is_pair_of(qs: Seq<Seq<char>>, p: DuplicatePair) -> bool {
    &&& p.first < p.second < qs.len()
    &&& p.shared == shared_chars(qs[p.first as int], qs[p.second as int])
    &&& p.total == union_chars(qs[p.first as int], qs[p.second as int])
    &&& near_duplicate(
        shared_chars(qs[p.first as int], qs[p.second as int]),
        union_chars(qs[p.first as int], qs[p.second as int]),
    )
}

/// The character counts of two texts of at most `isize::MAX` characters fit
/// in a `usize`.
proof fn lemma_counts_fit(a: Seq<char>, b: Seq<char>)
    requires
        a.len() <= isize::MAX,
        b.len() <= isize::MAX,
    ensures
        shared_chars(a, b) <= usize::MAX,
        union_chars(a, b) <= usize::MAX,
{
    a.lemma_cardinality_of_set();
    b.lemma_cardinality_of_set();
    vstd::set_lib::lemma_len_union(a.to_set(), b.to_set());
    vstd::set_lib::lemma_len_intersect(a.to_set(), b.to_set());
}

proof fn lemma_row_pairs(qs: Seq<Seq<char>>, i: int, j0: int)
    requires
        0 <= i < j0,
        qs.len() <= usize::MAX,
        forall|k: int| 0 <= k < qs.len() ==> (#[trigger] qs[k]).len() <= isize::MAX,
    ensures
        forall|k: int|
            0 <= k < row_pairs(qs, i, j0).len() ==> {
                let p = #[trigger] row_pairs(qs, i, j0)[k];
                &&& is_pair_of(qs, p)
                &&& p.first == i
                &&& j0 <= p.second
            },
        forall|j: int|
            j0 <= j < qs.len() && near_duplicate(shared_chars(qs[i], qs[j]), union_chars(qs[i], qs[j]))
                ==> exists|k: int|
                0 <= k < row_pairs(qs, i, j0).len() && (#[trigger] row_pairs(qs, i, j0)[k]).first == i
                    && row_pairs(qs, i, j0)[k].second == j,
        forall|k1: int, k2: int|
            0 <= k1 < k2 < row_pairs(qs, i, j0).len() ==> (#[trigger] row_pairs(qs, i, j0)[k1]).second
                < (#[trigger] row_pairs(qs, i, j0)[k2]).second,
    decreases qs.len() - j0,
{
    if i < qs.len() && j0 < qs.len() {
        lemma_row_pairs(qs, i, j0 + 1);
        let sh = shared_chars(qs[i], qs[j0]);
        let un = union_chars(qs[i], qs[j0]);
        lemma_counts_fit(qs[i], qs[j0]);
        let rest = row_pairs(qs, i, j0 + 1);
        let r = row_pairs(qs, i, j0);
        if near_duplicate(sh, un) {
            let head = DuplicatePair {
                first: i as usize,
                second: j0 as usize,
                shared: sh as usize,
                total: un as usize,
            };
            assert(r == seq![head] + rest);
            assert forall|k: int| 0 <= k < r.len() implies {
                let p = #[trigger] r[k];
                &&& is_pair_of(qs, p)
                &&& p.first == i
                &&& j0 <= p.second
            } by {
                if k > 0 {
                    assert(r[k] == rest[k - 1]);
                }
            }
            assert forall|j: int|
                j0 <= j < qs.len() && near_duplicate(shared_chars(qs[i], qs[j]), union_chars(qs[i], qs[j]))
                    implies exists|k: int|
                0 <= k < r.len() && (#[trigger] r[k]).first == i && r[k].second == j by {
                if j == j0 {
                    assert(r[0] == head);
                } else {
                    let k = choose|k: int|
                        0 <= k < rest.len() && (#[trigger] rest[k]).first == i && rest[k].second == j;
                    assert(r[k + 1] == rest[k]);
                }
            }
            assert forall|k1: int, k2: int| 0 <= k1 < k2 < r.len() implies (#[trigger] r[k1]).second
                < (#[trigger] r[k2]).second by {
                assert(r[k2] == rest[k2 - 1]);
                if k1 > 0 {
                    assert(r[k1] == rest[k1 - 1]);
                }
            }
        } else {
            assert(r =~= rest);
        }
    }
}

/// The health check reports each pair of near-duplicate questions exactly
/// once, as positions `first < second`, row by row: every reported pair is
/// one whose similarity (shared over all distinct characters, both counts
/// carried with the pair) is above 0.8, every such pair is reported, and the
/// pairs come in increasing order of `(first, second)`. Questions are no
/// longer than a `String` can be.
pub proof fn law_duplicates_are_all_near_pairs(qs: Seq<Seq<char>>)
    requires
        qs.len() <= usize::MAX,
        forall|k: int| 0 <= k < qs.len() ==> (#[trigger] qs[k]).len() <= isize::MAX,
    ensures
        forall|k: int| 0 <= k < pairs_from(qs, 0).len() ==> is_pair_of(qs, #[trigger] pairs_from(qs, 0)[k]),
        forall|i: int, j: int|
            0 <= i < j < qs.len() && near_duplicate(shared_chars(qs[i], qs[j]), union_chars(qs[i], qs[j]))
                ==> exists|k: int|
                0 <= k < pairs_from(qs, 0).len() && (#[trigger] pairs_from(qs, 0)[k]).first == i
                    && pairs_from(qs, 0)[k].second == j,
        forall|k1: int, k2: int|
            0 <= k1 < k2 < pairs_from(qs, 0).len() ==> {
                let p1 = #[trigger] pairs_from(qs, 0)[k1];
                let p2 = #[trigger] pairs_from(qs, 0)[k2];
                p1.first < p2.first || (p1.first == p2.first && p1.second < p2.second)
            },
{
    lemma_pairs_from(qs, 0);
}

proof fn lemma_pairs_from(qs: Seq<Seq<char>>, i0: int)
    requires
        0 <= i0,
        qs.len() <= usize::MAX,
        forall|k: int| 0 <= k < qs.len() ==> (#[trigger] qs[k]).len() <= isize::MAX,
    ensures
        forall|k: int|
            0 <= k < pairs_from(qs, i0).len() ==> {
                let p = #[trigger] pairs_from(qs, i0)[k];
                is_pair_of(qs, p) && i0 <= p.first
            },
        forall|i: int, j: int|
            i0 <= i < j < qs.len() && near_duplicate(shared_chars(qs[i], qs[j]), union_chars(qs[i], qs[j]))
                ==> exists|k: int|
                0 <= k < pairs_from(qs, i0).len() && (#[trigger] pairs_from(qs, i0)[k]).first == i
                    && pairs_from(qs, i0)[k].second == j,
        forall|k1: int, k2: int|
            0 <= k1 < k2 < pairs_from(qs, i0).len() ==> {
                let p1 = #[trigger] pairs_from(qs, i0)[k1];
                let p2 = #[trigger] pairs_from(qs, i0)[k2];
                p1.first < p2.first || (p1.first == p2.first && p1.second < p2.second)
            },
    decreases qs.len() - i0,
{
    if i0 < qs.len() {
        lemma_row_pairs(qs, i0, i0 + 1);
        lemma_pairs_from(qs, i0 + 1);
        let row = row_pairs(qs, i0, i0 + 1);
        let rest = pairs_from(qs, i0 + 1);
        let all = pairs_from(qs, i0);
        assert(all == row + rest);
        assert forall|k: int| 0 <= k < all.len() implies {
            let p = #[trigger] all[k];
            is_pair_of(qs, p) && i0 <= p.first
        } by {
            if k < row.len() {
                assert(all[k] == row[k]);
            } else {
                assert(all[k] == rest[k - row.len()]);
            }
        }
        assert forall|i: int, j: int|
            i0 <= i < j < qs.len() && near_duplicate(shared_chars(qs[i], qs[j]), union_chars(qs[i], qs[j]))
                implies exists|k: int|
            0 <= k < all.len() && (#[trigger] all[k]).first == i && all[k].second == j by {
            if i == i0 {
                let k = choose|k: int|
                    0 <= k < row.len() && (#[trigger] row[k]).first == i && row[k].second == j;
                assert(all[k] == row[k]);
            } else {
                let k = choose|k: int|
                    0 <= k < rest.len() && (#[trigger] rest[k]).first == i && rest[k].second == j;
                assert(all[k + row.len()] == rest[k]);
            }
        }
        assert forall|k1: int, k2: int| 0 <= k1 < k2 < all.len() implies {
            let p1 = #[trigger] all[k1];
            let p2 = #[trigger] all[k2];
            p1.first < p2.first || (p1.first == p2.first && p1.second < p2.second)
        } by {
            if k2 < row.len() {
                assert(all[k1] == row[k1]);
                assert(all[k2] == row[k2]);
            } else if k1 < row.len() {
                assert(all[k1] == row[k1]);
                assert(all[k2] == rest[k2 - row.len()]);
            } else {
                assert(all[k1] == rest[k1 - row.len()]);
                assert(all[k2] == rest[k2 - row.len()]);
            }
        }
    }
}


/// The short-answer check reports exactly the cards whose answers have fewer
/// than 20 characters, each once, in card order.
pub proof fn law_short_answers_under_twenty_chars(cards: Seq<(Seq<char>, Seq<char>, Seq<char>)>)
    requires
        cards.len() <= usize::MAX,
    ensures
        forall|i: int|
            0 <= i < cards.len() ==> (short_positions(cards).contains(i as usize) <==> (
            #[trigger] cards[i]).2.len() < 20),
        forall|a: int, b: int|
            0 <= a < b < short_positions(cards).len() ==> (#[trigger] short_positions(cards)[a]) < (
            #[trigger] short_positions(cards)[b]),
        forall|a: int|
            0 <= a < short_positions(cards).len() ==> (#[trigger] short_positions(cards)[a]) < cards.len(),
    decreases cards.len(),
{
    if cards.len() > 0 {
        let pre = cards.drop_last();
        law_short_answers_under_twenty_chars(pre);
        let r = short_positions(cards);
        let r0 = short_positions(pre);
        let n = (cards.len() - 1) as usize;
        assert forall|i: int|
            0 <= i < cards.len() implies (r.contains(i as usize) <==> (#[trigger] cards[i]).2.len()
            < 20) by {
            if i < cards.len() - 1 {
                assert(cards[i] == pre[i]);
                if r.contains(i as usize) {
                    let a = choose|a: int| 0 <= a < r.len() && r[a] == i as usize;
                    if a < r0.len() {
                        assert(r0[a] == r[a]);
                    } else {
                        assert(r[a] == n);
                    }
                }
                if r0.contains(i as usize) {
                    let a = choose|a: int| 0 <= a < r0.len() && r0[a] == i as usize;
                    assert(r[a] == r0[a]);
                }
            } else {
                if short_answer(cards.last().2) {
                    assert(r[r.len() - 1] == n);
                } else {
                    if r.contains(i as usize) {
                        let a = choose|a: int| 0 <= a < r.len() && r[a] == i as usize;
                        assert(r0[a] == r[a]);
                    }
                }
            }
        }
    }
}

/// Cards are reported as stale once they are more than 30 days overdue.
pub proof fn law_stale_after_thirty_days(days_overdue: i64)
    ensures
        (days_overdue > STALE_DAYS) <==> days_overdue > 30,
{
}

} // verus!

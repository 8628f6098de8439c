//! Writing interactively made cards to a Markdown card file.

use vstd::prelude::*;

use super::edit::{join_comma, join_with_comma};
use crate::text::{
    append_chars, chars_to_string, has_prefix, lines, lines_of, push_str, seq_eq, starts_with,
    str_chars, str_eq, trim, trim_chars,
};

verus! {

/// A card as typed in by the user.
pub struct RawCard {
    pub question: String,
    pub answer: String,
    pub tags: Vec<String>,
}

/// The mathematical content of a `RawCard`.
pub struct RawCardView {
    pub question: Seq<char>,
    pub answer: Seq<char>,
    pub tags: Seq<Seq<char>>,
}

impl View for RawCard {
    type V = RawCardView;

    open spec fn view(&self) -> RawCardView {
        RawCardView { question: self.question@, answer: self.answer@, tags: self.tags.deep_view() }
    }
}

impl DeepView for RawCard {
    type V = RawCardView;

    open spec fn deep_view(&self) -> RawCardView {
        self@
    }
}

/// Whether a front matter block (between `---` lines) already has a `tags:` line.
pub open spec fn frontmatter_has_tags(ls: Seq<Seq<char>>, in_frontmatter: bool) -> bool
    decreases ls.len(),
{
    if ls.len() == 0 {
        false
    } else {
        let t = trim(ls[0]);
        if t == "---"@ {
            if in_frontmatter {
                false
            } else {
                frontmatter_has_tags(ls.drop_first(), true)
            }
        } else if in_frontmatter && has_prefix(t, "tags:"@) {
            true
        } else {
            frontmatter_has_tags(ls.drop_first(), in_frontmatter)
        }
    }
}

/// Whether a card file's front matter declares tags.
pub fn has_frontmatter_tag(content: &str) -> (r: bool)
    ensures
        r == frontmatter_has_tags(lines(content@), false),
{
    let chars = str_chars(content);
    let ls = lines_of(chars.as_slice());
    let ghost lv = ls.deep_view();
    let dashes = str_chars("---");
    let key = str_chars("tags:");
    let mut in_fm = false;
    let mut i: usize = 0;
    assert(lv.skip(0) =~= lv);
    while i < ls.len()
        invariant
            i <= ls@.len(),
            lv == ls.deep_view(),
            lv == lines(content@),
            dashes@ == "---"@,
            key@ == "tags:"@,
            frontmatter_has_tags(lv, false) == frontmatter_has_tags(lv.skip(i as int), in_fm),
        decreases ls.len() - i,
    {
        let ghost rest = lv.skip(i as int);
        assert(rest[0] == ls@[i as int].deep_view());
        assert(ls@[i as int].deep_view() =~= ls@[i as int]@);
        assert(rest.drop_first() =~= lv.skip(i + 1));
        let t = trim_chars(ls[i].as_slice());
        if seq_eq(t.as_slice(), dashes.as_slice()) {
            if in_fm {
                return false;
            }
            in_fm = true;
        } else if in_fm && starts_with(t.as_slice(), key.as_slice()) {
            return true;
        }
        i = i + 1;
    }
    assert(lv.skip(ls@.len() as int).len() == 0);
    false
}

/// The non-empty entries of `tags`.
pub open spec fn nonempty(tags: Seq<Seq<char>>) -> Seq<Seq<char>>
    decreases tags.len(),
{
    if tags.len() == 0 {
        seq![]
    } else if tags.last().len() > 0 {
        nonempty(tags.drop_last()).push(tags.last())
    } else {
        nonempty(tags.drop_last())
    }
}

/// A front matter block declaring `tags`.
pub open spec fn frontmatter_block(tags: Seq<Seq<char>>) -> Seq<char> {
    "---\n"@ + "tags: ["@ + join_comma(tags) + "]\n"@ + "---\n"@ + "\n"@
}

/// The card block of one card.
pub open spec fn card_text(c: RawCardView) -> Seq<char> {
    "<!-- card -->\n"@ + "Q:: "@ + c.question + "\n"@ + "A:: "@ + c.answer + "\n"@
        + "<!-- card -->\n"@ + "\n"@
}

/// The tags in effect where card `i` is written: those of the card before it
/// (each card is written under its own tags), and for the first card those
/// in effect at the end of the file, `None` when they are unknown.
pub open spec fn tags_in_effect(
    cards: Seq<RawCardView>,
    i: int,
    start: Option<Seq<Seq<char>>>,
) -> Option<Seq<Seq<char>>> {
    if i == 0 {
        start
    } else {
        Some(nonempty(cards[i - 1].tags))
    }
}

/// Whether card `i` needs a front matter block of its own: its tags differ
/// from those in effect.
pub open spec fn needs_front(cards: Seq<RawCardView>, i: int, start: Option<Seq<Seq<char>>>) -> bool {
    tags_in_effect(cards, i, start) != Some(nonempty(cards[i].tags))
}

/// What is written for card `i`: a front matter block with its non-empty tags
/// when it needs one (after a blank line when it opens what is appended to an
/// existing file), then its card block.
pub open spec fn card_piece(
    cards: Seq<RawCardView>,
    i: int,
    start: Option<Seq<Seq<char>>>,
    file_exists: bool,
) -> Seq<char> {
    (if needs_front(cards, i, start) {
        (if i == 0 && file_exists {
            "\n"@
        } else {
            seq![]
        }) + frontmatter_block(nonempty(cards[i].tags))
    } else {
        seq![]
    }) + card_text(cards[i])
}

/// The pieces of the first `n` cards, in order.
pub open spec fn deck_cards(
    cards: Seq<RawCardView>,
    n: int,
    start: Option<Seq<Seq<char>>>,
    file_exists: bool,
) -> Seq<char>
    decreases n,
{
    if n <= 0 {
        seq![]
    } else {
        deck_cards(cards, n - 1, start, file_exists) + card_piece(cards, n - 1, start, file_exists)
    }
}

/// The tags in effect at the end of a card file: none in a new file or in
/// one whose front matter declares no tags; otherwise not known.
pub open spec fn file_tags(file_exists: bool, file_has_tags: bool) -> Option<Seq<Seq<char>>> {
    if !file_exists || !file_has_tags {
        Some(seq![])
    } else {
        None
    }
}

/// What is appended to a card file: a blank line when the file exists, then
/// each card, preceded by a front matter block with its own tags whenever
/// they differ from the tags in effect. So a card typed without tags gets
/// none, and cards with the same tags share one block.
pub open spec fn deck_text(cards: Seq<RawCardView>, file_exists: bool, file_has_tags: bool) -> Seq<
    char,
> {
    (if file_exists {
        "\n"@
    } else {
        seq![]
    }) + deck_cards(cards, cards.len() as int, file_tags(file_exists, file_has_tags), file_exists)
}

/// Each card made is written under exactly the tags typed for it (without
/// empty ones): either a front matter block declaring them comes right
/// before its card block, or the tags in effect there are already those.
pub proof fn law_make_cards_keep_their_tags(
    cards: Seq<RawCardView>,
    file_exists: bool,
    file_has_tags: bool,
    i: int,
)
    requires
        0 <= i < cards.len(),
    ensures
        ({
            let start = file_tags(file_exists, file_has_tags);
            let t = nonempty(cards[i].tags);
            let piece = card_piece(cards, i, start, file_exists);
            ||| piece == (if i == 0 && file_exists {
                "\n"@
            } else {
                seq![]
            }) + frontmatter_block(t) + card_text(cards[i])
            ||| (piece == card_text(cards[i]) && tags_in_effect(cards, i, start) == Some(t))
        }),
        tags_in_effect(cards, i + 1, file_tags(file_exists, file_has_tags)) == Some(
            nonempty(cards[i].tags),
        ),
{
    let start = file_tags(file_exists, file_has_tags);
    let t = nonempty(cards[i].tags);
    if !needs_front(cards, i, start) {
        assert(seq![] + card_text(cards[i]) =~= card_text(cards[i]));
    }
}

/// The non-empty entries of one card's tags.
fn nonempty_tags(tags: &Vec<String>) -> (r: Vec<String>)
    ensures
        r.deep_view() == nonempty(tags.deep_view()),
{
    let mut r: Vec<String> = Vec::new();
    let mut j: usize = 0;
    assert(tags.deep_view().take(0) =~= Seq::<Seq<char>>::empty());
    assert(r.deep_view() =~= Seq::<Seq<char>>::empty());
    while j < tags.len()
        invariant
            j <= tags@.len(),
            r.deep_view() == nonempty(tags.deep_view().take(j as int)),
        decreases tags.len() - j,
    {
        let ghost tp = tags.deep_view().take(j + 1);
        assert(tp.drop_last() =~= tags.deep_view().take(j as int));
        let t = str_chars(tags[j].as_str());
        if t.len() > 0 {
            let s = tags[j].clone();
            let ghost r1 = r.deep_view();
            r.push(s);
            assert(r.deep_view() =~= r1.push(s@));
        }
        j = j + 1;
    }
    assert(tags.deep_view().take(tags@.len() as int) =~= tags.deep_view());
    r
}

/// Whether two lists of strings are equal.
fn strings_eq(a: &Vec<String>, b: &Vec<String>) -> (r: bool)
    ensures
        r == (a.deep_view() == b.deep_view()),
{
    if a.len() != b.len() {
        assert(a.deep_view().len() != b.deep_view().len());
        return false;
    }
    let mut i: usize = 0;
    while i < a.len()
        invariant
            i <= a@.len(),
            a@.len() == b@.len(),
            forall|k: int| 0 <= k < i ==> a@[k]@ == b@[k]@,
        decreases a.len() - i,
    {
        if !str_eq(a[i].as_str(), b[i].as_str()) {
            assert(a.deep_view()[i as int] != b.deep_view()[i as int]);
            return false;
        }
        i = i + 1;
    }
    assert(a.deep_view() =~= b.deep_view());
    true
}

fn push_frontmatter(out: &mut Vec<char>, tags: &Vec<String>)
    ensures
        final(out)@ == old(out)@ + frontmatter_block(tags.deep_view()),
{
    push_str(out, "---\n");
    push_str(out, "tags: [");
    let j = join_with_comma(tags);
    append_chars(out, j.as_slice());
    push_str(out, "]\n");
    push_str(out, "---\n");
    push_str(out, "\n");
    assert(out@ =~= old(out)@ + frontmatter_block(tags.deep_view()));
}

/// Appends one card, after its front matter block when `front`.
fn push_piece(out: &mut Vec<char>, c: &RawCard, t: &Vec<String>, front: bool, gap: bool)
    ensures
        final(out)@ == old(out)@ + (if front {
            (if gap {
                "\n"@
            } else {
                seq![]
            }) + frontmatter_block(t.deep_view())
        } else {
            seq![]
        }) + card_text(c@),
{
    let ghost o0 = out@;
    if front {
        if gap {
            push_str(out, "\n");
        }
        push_frontmatter(out, t);
    }
    let ghost o1 = out@;
    push_str(out, "<!-- card -->\n");
    push_str(out, "Q:: ");
    push_str(out, c.question.as_str());
    push_str(out, "\n");
    push_str(out, "A:: ");
    push_str(out, c.answer.as_str());
    push_str(out, "\n");
    push_str(out, "<!-- card -->\n");
    push_str(out, "\n");
    assert(out@ =~= o1 + card_text(c@));
    if front {
        if gap {
            assert(o1 =~= o0 + ("\n"@ + frontmatter_block(t.deep_view())));
        } else {
            assert(o1 =~= o0 + (seq![] + frontmatter_block(t.deep_view())));
        }
    } else {
        assert(o1 =~= o0 + seq![]);
    }
}

/// The text appended to a card file for `cards` (`deck_text`).
pub fn deck_content(cards: &Vec<RawCard>, file_exists: bool, file_has_tags: bool) -> (r: String)
    ensures
        r@ == deck_text(cards.deep_view(), file_exists, file_has_tags),
{
    let ghost cv = cards.deep_view();
    let ghost start = file_tags(file_exists, file_has_tags);
    let mut out: Vec<char> = Vec::new();
    if file_exists {
        push_str(&mut out, "\n");
    }
    let ghost head = out@;
    let mut known = !file_exists || !file_has_tags;
    let mut prev: Vec<String> = Vec::new();
    assert(prev.deep_view() =~= Seq::<Seq<char>>::empty());
    let mut i: usize = 0;
    assert(out@ =~= head + deck_cards(cv, 0, start, file_exists));
    while i < cards.len()
        invariant
            i <= cards@.len(),
            cv == cards.deep_view(),
            start == file_tags(file_exists, file_has_tags),
            out@ == head + deck_cards(cv, i as int, start, file_exists),
            tags_in_effect(cv, i as int, start) == (if known {
                Some(prev.deep_view())
            } else {
                None
            }),
        decreases cards.len() - i,
    {
        assert(cv[i as int] == cards@[i as int]@);
        let c = &cards[i];
        let t = nonempty_tags(&c.tags);
        let same = known && strings_eq(&prev, &t);
        let gap = i == 0 && file_exists;
        push_piece(&mut out, c, &t, !same, gap);
        proof {
            assert(t.deep_view() == nonempty(cv[i as int].tags));
            assert(needs_front(cv, i as int, start) == !same);
            assert(out@ =~= head + deck_cards(cv, i + 1, start, file_exists));
        }
        known = true;
        prev = t;
        i = i + 1;
    }
    chars_to_string(out.as_slice())
}


/// The card block of one card without the blank line after it.
pub open spec fn card_block_text(c: RawCardView) -> Seq<char> {
    "<!-- card -->\n"@ + "Q:: "@ + c.question + "\n"@ + "A:: "@ + c.answer + "\n"@
        + "<!-- card -->\n"@
}

proof fn lemma_deck_cards_flatten(
    cards: Seq<RawCardView>,
    n: int,
    start: Option<Seq<Seq<char>>>,
    file_exists: bool,
)
    requires
        0 <= n,
    ensures
        deck_cards(cards, n, start, file_exists) == Seq::new(
            n as nat,
            |i: int| card_piece(cards, i, start, file_exists),
        ).flatten_alt(),
    decreases n,
{
    let ps = Seq::new(n as nat, |i: int| card_piece(cards, i, start, file_exists));
    if n > 0 {
        lemma_deck_cards_flatten(cards, n - 1, start, file_exists);
        assert(ps.drop_last() =~= Seq::new(
            (n - 1) as nat,
            |i: int| card_piece(cards, i, start, file_exists),
        ));
        assert(ps.last() == card_piece(cards, n - 1, start, file_exists));
    } else {
        assert(ps =~= Seq::<Seq<char>>::empty());
    }
}

/// Appending cards to an existing file: the text appended starts with a line
/// break (what the file holds stays in front of it, untouched), then has,
/// for each card in order, its card block followed by a blank line, with at
/// most a front matter block of the card's own tags (after a blank line for
/// the first card) in front of it.
pub proof fn law_make_appends_in_order(cards: Seq<RawCardView>, file_has_tags: bool)
    ensures
        ({
            let start = file_tags(true, file_has_tags);
            let pieces = Seq::new(cards.len(), |i: int| card_piece(cards, i, start, true));
            &&& deck_text(cards, true, file_has_tags) == "\n"@ + pieces.flatten()
            &&& deck_text(cards, true, file_has_tags)[0] == '\n'
            &&& forall|i: int|
                0 <= i < cards.len() ==> {
                    let block = card_block_text(cards[i]) + "\n"@;
                    ||| #[trigger] pieces[i] == block
                    ||| pieces[i] == (if i == 0 {
                        "\n"@
                    } else {
                        seq![]
                    }) + frontmatter_block(nonempty(cards[i].tags)) + block
                }
        }),
{
    reveal_strlit("\n");
    let start = file_tags(true, file_has_tags);
    let pieces = Seq::new(cards.len(), |i: int| card_piece(cards, i, start, true));
    lemma_deck_cards_flatten(cards, cards.len() as int, start, true);
    pieces.lemma_flatten_and_flatten_alt_are_equivalent();
    assert(("\n"@ + pieces.flatten())[0] == '\n');
    assert forall|i: int| 0 <= i < cards.len() implies {
        let block = card_block_text(cards[i]) + "\n"@;
        ||| #[trigger] pieces[i] == block
        ||| pieces[i] == (if i == 0 {
            "\n"@
        } else {
            seq![]
        }) + frontmatter_block(nonempty(cards[i].tags)) + block
    } by {
        let block = card_block_text(cards[i]) + "\n"@;
        assert(card_text(cards[i]) =~= block);
        if needs_front(cards, i, start) {
            let f = (if i == 0 {
                "\n"@
            } else {
                seq![]
            }) + frontmatter_block(nonempty(cards[i].tags));
            assert(pieces[i] =~= f + block);
        } else {
            assert(pieces[i] =~= block);
        }
    }
}

} // verus!

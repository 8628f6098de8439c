//! Card parsing: tab-separated text, and Markdown card blocks.

use pulldown_cmark::{Event, Options, Parser, Tag, TagEnd};
use vstd::prelude::*;

use crate::text::{
    append_chars, chars_to_string, clone_strings, copy_range, has_prefix, lines, lines_of,
    seq_eq, split, split_of, starts_with, str_chars, to_strings, trim, trim_char, trim_char_of,
    trim_chars,
};

pub mod csv;

verus! {

/// A card read from a source file, before it is given an id.
#[derive(Debug)]
pub struct ParsedCard {
    pub source_file: String,
    pub card_index: i32,
    pub question: String,
    pub answer: String,
    pub tags: Vec<String>,
}

/// The mathematical content of a `ParsedCard`.
pub struct ParsedCardView {
    pub source_file: Seq<char>,
    pub card_index: i32,
    pub question: Seq<char>,
    pub answer: Seq<char>,
    pub tags: Seq<Seq<char>>,
}

impl View for ParsedCard {
    type V = ParsedCardView;

    open spec fn view(&self) -> ParsedCardView {
        ParsedCardView {
            source_file: self.source_file@,
            card_index: self.card_index,
            question: self.question@,
            answer: self.answer@,
            tags: self.tags.deep_view(),
        }
    }
}

impl DeepView for ParsedCard {
    type V = ParsedCardView;

    open spec fn deep_view(&self) -> ParsedCardView {
        self@
    }
}

// ===== Front matter =====

/// One front-matter tag: trimmed, then stripped of surrounding `"` and `'`.
pub open spec fn frontmatter_tag(t: Seq<char>) -> Seq<char> {
    trim_char(trim_char(trim(t), '"'), '\'')
}

/// The non-empty `frontmatter_tag`s of `parts`, in order.
pub open spec fn frontmatter_tag_list(parts: Seq<Seq<char>>) -> Seq<Seq<char>>
    decreases parts.len(),
{
    if parts.len() == 0 {
        seq![]
    } else {
        let rest = frontmatter_tag_list(parts.drop_last());
        let t = frontmatter_tag(parts.last());
        if t.len() > 0 {
            rest.push(t)
        } else {
            rest
        }
    }
}

/// The text between a leading `[` and a trailing `]`, if `t` has both.
pub open spec fn bracket_inner(t: Seq<char>) -> Option<Seq<char>> {
    if t.len() >= 2 && t[0] == '[' && t.last() == ']' {
        Some(t.subrange(1, t.len() - 1))
    } else {
        None
    }
}

/// The tags of the first line `tags: [a, b, ...]` among `ls`; none if there is no such line.
pub open spec fn frontmatter_tags_of_lines(ls: Seq<Seq<char>>) -> Seq<Seq<char>>
    decreases ls.len(),
{
    if ls.len() == 0 {
        seq![]
    } else {
        let l = trim(ls[0]);
        if has_prefix(l, "tags:"@) && bracket_inner(trim(l.skip("tags:"@.len() as int))) is Some {
            frontmatter_tag_list(
                split(bracket_inner(trim(l.skip("tags:"@.len() as int))).unwrap(), ','),
            )
        } else {
            frontmatter_tags_of_lines(ls.drop_first())
        }
    }
}

/// The file-level tags declared in front matter text.
pub open spec fn frontmatter_tags(content: Seq<char>) -> Seq<Seq<char>> {
    frontmatter_tags_of_lines(lines(content))
}

/// The tags a single front-matter line declares, when it reads
/// `tags: [a, b, ...]` once trimmed.
pub open spec fn tags_line(line: Seq<char>) -> Option<Seq<Seq<char>>> {
    let t = trim(line);
    let rest = trim(t.skip("tags:"@.len() as int));
    if has_prefix(t, "tags:"@) && bracket_inner(rest) is Some {
        Some(frontmatter_tag_list(split(bracket_inner(rest).unwrap(), ',')))
    } else {
        None
    }
}

proof fn lemma_first_tags_line(ls: Seq<Seq<char>>)
    ensures
        forall|k: int|
            0 <= k < ls.len() && #[trigger] tags_line(ls[k]) is Some && (forall|j: int|
                0 <= j < k ==> tags_line(ls[j]) is None) ==> frontmatter_tags_of_lines(ls)
                == tags_line(ls[k]).unwrap(),
        (forall|j: int| 0 <= j < ls.len() ==> tags_line(ls[j]) is None) ==> frontmatter_tags_of_lines(
            ls,
        ) == Seq::<Seq<char>>::empty(),
    decreases ls.len(),
{
    if ls.len() > 0 {
        let rest = ls.drop_first();
        lemma_first_tags_line(rest);
        assert forall|k: int|
            0 <= k < ls.len() && #[trigger] tags_line(ls[k]) is Some && (forall|j: int|
                0 <= j < k ==> tags_line(ls[j]) is None) implies frontmatter_tags_of_lines(ls)
            == tags_line(ls[k]).unwrap() by {
            if k > 0 {
                assert(tags_line(ls[0]) is None);
                assert(rest[k - 1] == ls[k]);
                assert forall|j: int| 0 <= j < k - 1 implies tags_line(rest[j]) is None by {
                    assert(rest[j] == ls[j + 1]);
                }
            }
        }
        if forall|j: int| 0 <= j < ls.len() ==> tags_line(ls[j]) is None {
            assert(tags_line(ls[0]) is None);
            assert forall|j: int| 0 <= j < rest.len() implies tags_line(rest[j]) is None by {
                assert(rest[j] == ls[j + 1]);
            }
        }
    }
}

/// The file-level tags of front matter are those declared by its first line
/// that reads `tags: [ ... ]`, wherever that line stands: the lines before
/// it, whatever they hold, do not matter, and neither do the lines after it.
/// Front matter without such a line declares no tags.
pub proof fn law_frontmatter_first_tags_line(content: Seq<char>)
    ensures
        forall|k: int|
            0 <= k < lines(content).len() && #[trigger] tags_line(lines(content)[k]) is Some && (forall|j: int|
                0 <= j < k ==> tags_line(lines(content)[j]) is None) ==> frontmatter_tags(content)
                == tags_line(lines(content)[k]).unwrap(),
        (forall|j: int| 0 <= j < lines(content).len() ==> tags_line(lines(content)[j]) is None)
            ==> frontmatter_tags(content) == Seq::<Seq<char>>::empty(),
{
    lemma_first_tags_line(lines(content));
}

fn frontmatter_tag_of(t: &[char]) -> (r: Vec<char>)
    ensures
        r@ == frontmatter_tag(t@),
{
    let a = trim_chars(t);
    let b = trim_char_of(a.as_slice(), '"');
    trim_char_of(b.as_slice(), '\'')
}

fn bracket_list(inner: &[char]) -> (r: Vec<String>)
    ensures
        r.deep_view() == frontmatter_tag_list(split(inner@, ',')),
{
    let parts = split_of(inner, ',');
    let mut out: Vec<Vec<char>> = Vec::new();
    let mut i: usize = 0;
    while i < parts.len()
        invariant
            i <= parts@.len(),
            parts.deep_view() == split(inner@, ','),
            out.deep_view() == frontmatter_tag_list(parts.deep_view().take(i as int)),
        decreases parts.len() - i,
    {
        let t = frontmatter_tag_of(parts[i].as_slice());
        let ghost pre = parts.deep_view().take(i + 1);
        assert(pre.drop_last() =~= parts.deep_view().take(i as int));
        assert(pre.last() == parts@[i as int].deep_view());
        assert(parts@[i as int].deep_view() =~= parts@[i as int]@);
        if t.len() > 0 {
            let ghost old_out = out.deep_view();
            assert(t.deep_view() =~= t@);
            out.push(t);
            assert(out.deep_view() =~= old_out.push(t@));
        }
        i = i + 1;
    }
    assert(parts.deep_view().take(parts@.len() as int) =~= parts.deep_view());
    to_strings(&out)
}

/// Reads the `tags: [a, b]` line of front matter.
fn parse_frontmatter_tags(content: &[char]) -> (r: Vec<String>)
    ensures
        r.deep_view() == frontmatter_tags(content@),
{
    let ls = lines_of(content);
    let ghost lv = ls.deep_view();
    let key = str_chars("tags:");
    let mut i: usize = 0;
    assert(lv.skip(0) =~= lv);
    while i < ls.len()
        invariant
            i <= ls@.len(),
            lv == ls.deep_view(),
            lv == lines(content@),
            key@ == "tags:"@,
            frontmatter_tags_of_lines(lv) == frontmatter_tags_of_lines(lv.skip(i as int)),
        decreases ls.len() - i,
    {
        let ghost rest = lv.skip(i as int);
        assert(rest[0] == ls@[i as int].deep_view());
        assert(ls@[i as int].deep_view() =~= ls@[i as int]@);
        let line = trim_chars(ls[i].as_slice());
        if starts_with(line.as_slice(), key.as_slice()) {
            let after = copy_range(line.as_slice(), key.len(), line.len());
            assert(after@ =~= line@.skip("tags:"@.len() as int));
            let t = trim_chars(after.as_slice());
            let n = t.len();
            if n >= 2 && t[0] == '[' && t[n - 1] == ']' {
                let inner = copy_range(t.as_slice(), 1, n - 1);
                return bracket_list(inner.as_slice());
            }
        }
        assert(rest.drop_first() =~= lv.skip(i + 1));
        i = i + 1;
    }
    let v: Vec<String> = Vec::new();
    assert(v.deep_view() =~= Seq::<Seq<char>>::empty());
    v
}

// ===== Card blocks =====

/// Which field the following lines of a card block continue.
#[derive(Clone, Copy, PartialEq, Eq, Structural)]
pub enum Field {
    Question,
    Answer,
}

/// The question and answer gathered so far in a card block.
pub struct BlockState {
    pub question: Seq<char>,
    pub answer: Seq<char>,
    pub field: Option<Field>,
}

/// `acc` continued by `line` on a new line (no line break when `acc` is empty).
pub open spec fn continue_field(acc: Seq<char>, line: Seq<char>) -> Seq<char> {
    if acc.len() == 0 {
        line
    } else {
        acc.push('\n') + line
    }
}

/// One line of a card block: `Q::` starts the question, `A::` the answer,
/// and any other line continues the field last started.
pub open spec fn block_step(st: BlockState, raw: Seq<char>) -> BlockState {
    let line = trim(raw);
    if has_prefix(line, "Q::"@) {
        BlockState {
            question: trim(line.skip("Q::"@.len() as int)),
            answer: st.answer,
            field: Some(Field::Question),
        }
    } else if has_prefix(line, "A::"@) {
        BlockState {
            question: st.question,
            answer: trim(line.skip("A::"@.len() as int)),
            field: Some(Field::Answer),
        }
    } else {
        match st.field {
            Some(Field::Question) => BlockState {
                question: continue_field(st.question, line),
                answer: st.answer,
                field: st.field,
            },
            Some(Field::Answer) => BlockState {
                question: st.question,
                answer: continue_field(st.answer, line),
                field: st.field,
            },
            None => st,
        }
    }
}

/// The state after the lines `ls` of a card block.
pub open spec fn block_state(ls: Seq<Seq<char>>) -> BlockState
    decreases ls.len(),
{
    if ls.len() == 0 {
        BlockState { question: seq![], answer: seq![], field: None }
    } else {
        block_step(block_state(ls.drop_last()), ls.last())
    }
}

/// The card a block holds: none unless both question and answer are non-empty.
pub open spec fn card_block(
    content: Seq<char>,
    source: Seq<char>,
    index: i32,
    tags: Seq<Seq<char>>,
) -> Option<ParsedCardView> {
    let st = block_state(lines(content));
    if st.question.len() == 0 || st.answer.len() == 0 {
        None
    } else {
        Some(
            ParsedCardView {
                source_file: source,
                card_index: index,
                question: st.question,
                answer: st.answer,
                tags,
            },
        )
    }
}

fn continue_field_exec(acc: &mut Vec<char>, line: &[char])
    ensures
        final(acc)@ == continue_field(old(acc)@, line@),
{
    if acc.len() > 0 {
        acc.push('\n');
    }
    append_chars(acc, line);
}

/// Reads the `Q::` / `A::` lines of a card block.
fn parse_card_block(content: &[char], source_file: &str, card_index: i32, tags: &Vec<String>) -> (r:
    Option<ParsedCard>)
    ensures
        match card_block(content@, source_file@, card_index, tags.deep_view()) {
            Some(c) => r matches Some(card) && card@ == c,
            None => r is None,
        },
{
    let ls = lines_of(content);
    let ghost lv = ls.deep_view();
    let q_key = str_chars("Q::");
    let a_key = str_chars("A::");
    let mut question: Vec<char> = Vec::new();
    let mut answer: Vec<char> = Vec::new();
    let mut field: Option<Field> = None;
    let mut i: usize = 0;
    assert(lv.take(0) =~= Seq::<Seq<char>>::empty());
    while i < ls.len()
        invariant
            i <= ls@.len(),
            lv == ls.deep_view(),
            q_key@ == "Q::"@,
            a_key@ == "A::"@,
            block_state(lv.take(i as int)) == (BlockState {
                question: question@,
                answer: answer@,
                field,
            }),
        decreases ls.len() - i,
    {
        let ghost pre = lv.take(i + 1);
        assert(pre.drop_last() =~= lv.take(i as int));
        assert(pre.last() == ls@[i as int].deep_view());
        assert(ls@[i as int].deep_view() =~= ls@[i as int]@);
        let line = trim_chars(ls[i].as_slice());
        if starts_with(line.as_slice(), q_key.as_slice()) {
            let rest = copy_range(line.as_slice(), q_key.len(), line.len());
            assert(rest@ =~= line@.skip("Q::"@.len() as int));
            question = trim_chars(rest.as_slice());
            field = Some(Field::Question);
        } else if starts_with(line.as_slice(), a_key.as_slice()) {
            let rest = copy_range(line.as_slice(), a_key.len(), line.len());
            assert(rest@ =~= line@.skip("A::"@.len() as int));
            answer = trim_chars(rest.as_slice());
            field = Some(Field::Answer);
        } else {
            match field {
                Some(Field::Question) => continue_field_exec(&mut question, line.as_slice()),
                Some(Field::Answer) => continue_field_exec(&mut answer, line.as_slice()),
                None => {},
            }
        }
        i = i + 1;
    }
    assert(lv.take(ls@.len() as int) =~= lv);
    if question.len() == 0 || answer.len() == 0 {
        return None;
    }
    Some(
        ParsedCard {
            source_file: source_file.to_owned(),
            card_index,
            question: chars_to_string(question.as_slice()),
            answer: chars_to_string(answer.as_slice()),
            tags: clone_strings(tags),
        },
    )
}

// ===== Markdown event stream =====

/// The Markdown events that card extraction looks at; every other event is `Other`.
#[derive(Debug)]
pub enum MdEvent {
    /// Start of a YAML front-matter block.
    MetadataStart,
    /// End of a YAML front-matter block.
    MetadataEnd,
    Text(String),
    Code(String),
    /// A block of raw HTML, such as a `<!-- card -->` marker line.
    Html(String),
    SoftBreak,
    HardBreak,
    /// The end of a paragraph.
    ParagraphEnd,
    Other,
}

/// The mathematical content of an `MdEvent`.
pub enum MdEventView {
    MetadataStart,
    MetadataEnd,
    Text(Seq<char>),
    Code(Seq<char>),
    Html(Seq<char>),
    SoftBreak,
    HardBreak,
    ParagraphEnd,
    Other,
}

impl View for MdEvent {
    type V = MdEventView;

    open spec fn view(&self) -> MdEventView {
        match self {
            MdEvent::MetadataStart => MdEventView::MetadataStart,
            MdEvent::MetadataEnd => MdEventView::MetadataEnd,
            MdEvent::Text(t) => MdEventView::Text(t@),
            MdEvent::Code(t) => MdEventView::Code(t@),
            MdEvent::Html(t) => MdEventView::Html(t@),
            MdEvent::SoftBreak => MdEventView::SoftBreak,
            MdEvent::HardBreak => MdEventView::HardBreak,
            MdEvent::ParagraphEnd => MdEventView::ParagraphEnd,
            MdEvent::Other => MdEventView::Other,
        }
    }
}

impl DeepView for MdEvent {
    type V = MdEventView;

    open spec fn deep_view(&self) -> MdEventView {
        self@
    }
}

/// The events that `pulldown_cmark` yields for `content` with YAML front matter
/// enabled, reduced to `MdEventView`.
pub uninterp spec fn markdown_events(content: Seq<char>) -> Seq<MdEventView>;

/// Runs `pulldown_cmark::Parser::new_ext` with
/// `Options::ENABLE_YAML_STYLE_METADATA_BLOCKS` over `content` and keeps the
/// events, each reduced to an `MdEvent` (text payloads copied). Claimed: the
/// result is `markdown_events(content@)`, that is, it depends on `content` alone.
#[verifier::external_body]
fn parse_events(content: &str) -> (r: Vec<MdEvent>)
    ensures
        r.deep_view() == markdown_events(content@),
{
    let opts = Options::ENABLE_YAML_STYLE_METADATA_BLOCKS;
    Parser::new_ext(content, opts).map(|e| match e {
        Event::Start(Tag::MetadataBlock(_)) => MdEvent::MetadataStart,
        Event::End(TagEnd::MetadataBlock(_)) => MdEvent::MetadataEnd,
        Event::Text(t) => MdEvent::Text(t.to_string()),
        Event::Code(t) => MdEvent::Code(t.to_string()),
        Event::Html(t) => MdEvent::Html(t.to_string()),
        Event::SoftBreak => MdEvent::SoftBreak,
        Event::HardBreak => MdEvent::HardBreak,
        Event::End(TagEnd::Paragraph) => MdEvent::ParagraphEnd,
        _ => MdEvent::Other,
    }).collect()
}

/// The state of the scan over Markdown events.
pub struct MdScan {
    pub cards: Seq<ParsedCardView>,
    pub in_block: bool,
    pub block: Seq<char>,
    pub in_frontmatter: bool,
    pub frontmatter: Seq<char>,
    pub tags: Seq<Seq<char>>,
    pub last_was_text: bool,
}

/// The scan before any event.
pub open spec fn md_start() -> MdScan {
    MdScan {
        cards: seq![],
        in_block: false,
        block: seq![],
        in_frontmatter: false,
        frontmatter: seq![],
        tags: seq![],
        last_was_text: false,
    }
}

/// `cards` with the block `content` appended when it holds a card.
pub open spec fn close_block(
    cards: Seq<ParsedCardView>,
    content: Seq<char>,
    source: Seq<char>,
    tags: Seq<Seq<char>>,
) -> Seq<ParsedCardView> {
    match card_block(content, source, cards.len() as i32, tags) {
        Some(c) => cards.push(c),
        None => cards,
    }
}

/// One event of the scan.
///
/// Front matter text is collected and its tags read at its end. A
/// `<!-- card -->` marker opens a card block, and the next one closes it.
/// Inside a block, text is collected (consecutive text pieces on their own
/// lines), inline code keeps its backticks, and line breaks become `\n`, as
/// does the end of a paragraph, so that a blank line inside a block stays a
/// line break.
pub open spec fn md_step(st: MdScan, ev: MdEventView, source: Seq<char>) -> MdScan {
    match ev {
        MdEventView::MetadataStart => MdScan { in_frontmatter: true, frontmatter: seq![], ..st },
        MdEventView::MetadataEnd => MdScan {
            in_frontmatter: false,
            tags: frontmatter_tags(st.frontmatter),
            ..st
        },
        MdEventView::Html(h) => if trim(h) == "<!-- card -->"@ {
            if st.in_block {
                MdScan {
                    cards: close_block(st.cards, st.block, source, st.tags),
                    block: seq![],
                    in_block: false,
                    ..st
                }
            } else {
                MdScan { in_block: true, block: seq![], last_was_text: false, ..st }
            }
        } else {
            st
        },
        MdEventView::Text(t) => if st.in_frontmatter {
            MdScan { frontmatter: st.frontmatter + t, ..st }
        } else if st.in_block {
            MdScan {
                block: (if st.last_was_text && st.block.len() > 0 {
                    st.block.push('\n')
                } else {
                    st.block
                }) + t,
                last_was_text: true,
                ..st
            }
        } else {
            MdScan { last_was_text: false, ..st }
        },
        MdEventView::Code(c) => if st.in_block {
            MdScan { block: st.block.push('`') + c.push('`'), last_was_text: false, ..st }
        } else {
            MdScan { last_was_text: false, ..st }
        },
        MdEventView::SoftBreak => if st.in_block {
            MdScan { block: st.block.push('\n'), last_was_text: false, ..st }
        } else {
            MdScan { last_was_text: false, ..st }
        },
        MdEventView::HardBreak => if st.in_block {
            MdScan { block: st.block.push('\n'), last_was_text: false, ..st }
        } else {
            MdScan { last_was_text: false, ..st }
        },
        MdEventView::ParagraphEnd => if st.in_block {
            MdScan { block: st.block.push('\n'), last_was_text: false, ..st }
        } else {
            MdScan { last_was_text: false, ..st }
        },
        MdEventView::Other => MdScan { last_was_text: false, ..st },
    }
}

/// The scan after the events `evs`, read from `st` on.
pub open spec fn md_from(st: MdScan, evs: Seq<MdEventView>, source: Seq<char>) -> MdScan
    decreases evs.len(),
{
    if evs.len() == 0 {
        st
    } else {
        md_step(md_from(st, evs.drop_last(), source), evs.last(), source)
    }
}

/// The scan after the events `evs` of a whole document.
pub open spec fn md_scan(evs: Seq<MdEventView>, source: Seq<char>) -> MdScan {
    md_from(md_start(), evs, source)
}

/// The cards of an event stream: a block left open at the end is still read
/// when it holds any text.
pub open spec fn md_cards(evs: Seq<MdEventView>, source: Seq<char>) -> Seq<ParsedCardView> {
    let st = md_scan(evs, source);
    if st.in_block && st.block.len() > 0 {
        close_block(st.cards, st.block, source, st.tags)
    } else {
        st.cards
    }
}

/// Cards are numbered by position, carry their source, and have a question and an answer.
pub open spec fn well_numbered(cards: Seq<ParsedCardView>, source: Seq<char>) -> bool {
    forall|i: int|
        0 <= i < cards.len() ==> {
            let c = #[trigger] cards[i];
            &&& c.card_index == i as i32
            &&& c.source_file == source
            &&& c.question.len() > 0
            &&& c.answer.len() > 0
        }
}

/// Closing a block keeps the cards well numbered.
pub proof fn lemma_close_block(
    cards: Seq<ParsedCardView>,
    content: Seq<char>,
    source: Seq<char>,
    tags: Seq<Seq<char>>,
)
    requires
        well_numbered(cards, source),
    ensures
        well_numbered(close_block(cards, content, source, tags), source),
{
    let r = close_block(cards, content, source, tags);
    assert forall|i: int| 0 <= i < r.len() implies {
        let c = #[trigger] r[i];
        &&& c.card_index == i as i32
        &&& c.source_file == source
        &&& c.question.len() > 0
        &&& c.answer.len() > 0
    } by {
        if i < cards.len() {
            assert(r[i] == cards[i]);
        }
    }
}

fn is_card_marker(h: &str) -> (r: bool)
    ensures
        r == (trim(h@) == "<!-- card -->"@),
{
    let c = str_chars(h);
    let t = trim_chars(c.as_slice());
    let m = str_chars("<!-- card -->");
    seq_eq(t.as_slice(), m.as_slice())
}

fn push_card(
    cards: &mut Vec<ParsedCard>,
    block: &Vec<char>,
    source_file: &str,
    tags: &Vec<String>,
)
    requires
        well_numbered(old(cards).deep_view(), source_file@),
    ensures
        final(cards).deep_view() == close_block(
            old(cards).deep_view(),
            block@,
            source_file@,
            tags.deep_view(),
        ),
        well_numbered(final(cards).deep_view(), source_file@),
{
    let index = cards.len() as i32;
    proof {
        lemma_close_block(cards.deep_view(), block@, source_file@, tags.deep_view());
    }
    match parse_card_block(block.as_slice(), source_file, index, tags) {
        Some(card) => {
            let ghost old_cards = cards.deep_view();
            cards.push(card);
            assert(cards.deep_view() =~= old_cards.push(card@));
        },
        None => {},
    }
}

/// Extracts the cards of a Markdown event stream.
///
/// Cards come from the text between pairs of `<!-- card -->` markers, in
/// order, numbered from 0; a block without both a question and an answer is
/// skipped without affecting the others; all cards carry the tags of the
/// front matter read before them.
pub fn cards_from_events(events: &Vec<MdEvent>, source_file: &str) -> (cards: Vec<ParsedCard>)
    ensures
        cards.deep_view() == md_cards(events.deep_view(), source_file@),
        well_numbered(cards.deep_view(), source_file@),
{
    let ghost evs = events.deep_view();
    let mut cards: Vec<ParsedCard> = Vec::new();
    let mut in_block = false;
    let mut block: Vec<char> = Vec::new();
    let mut in_frontmatter = false;
    let mut frontmatter: Vec<char> = Vec::new();
    let mut tags: Vec<String> = Vec::new();
    let mut last_was_text = false;
    let mut i: usize = 0;
    assert(evs.take(0) =~= Seq::<MdEventView>::empty());
    assert(cards.deep_view() =~= Seq::<ParsedCardView>::empty());
    assert(tags.deep_view() =~= Seq::<Seq<char>>::empty());
    while i < events.len()
        invariant
            i <= events@.len(),
            evs == events.deep_view(),
            md_scan(evs.take(i as int), source_file@) == (MdScan {
                cards: cards.deep_view(),
                in_block,
                block: block@,
                in_frontmatter,
                frontmatter: frontmatter@,
                tags: tags.deep_view(),
                last_was_text,
            }),
            well_numbered(cards.deep_view(), source_file@),
        decreases events.len() - i,
    {
        let ghost pre = evs.take(i + 1);
        assert(pre.drop_last() =~= evs.take(i as int));
        assert(pre.last() == events@[i as int]@);
        match &events[i] {
            MdEvent::MetadataStart => {
                in_frontmatter = true;
                frontmatter = Vec::new();
            },
            MdEvent::MetadataEnd => {
                in_frontmatter = false;
                tags = parse_frontmatter_tags(frontmatter.as_slice());
            },
            MdEvent::Html(h) => {
                if is_card_marker(h.as_str()) {
                    if in_block {
                        push_card(&mut cards, &block, source_file, &tags);
                        block = Vec::new();
                        in_block = false;
                    } else {
                        in_block = true;
                        block = Vec::new();
                        last_was_text = false;
                    }
                }
            },
            MdEvent::Text(t) => {
                if in_frontmatter {
                    let tc = str_chars(t.as_str());
                    append_chars(&mut frontmatter, tc.as_slice());
                } else if in_block {
                    if last_was_text && block.len() > 0 {
                        block.push('\n');
                    }
                    let tc = str_chars(t.as_str());
                    append_chars(&mut block, tc.as_slice());
                    last_was_text = true;
                } else {
                    last_was_text = false;
                }
            },
            MdEvent::Code(c) => {
                if in_block {
                    let ghost b0 = block@;
                    block.push('`');
                    let cc = str_chars(c.as_str());
                    append_chars(&mut block, cc.as_slice());
                    block.push('`');
                    proof {
                        assert(block@ =~= b0.push('`') + c@.push('`'));
                    }
                }
                last_was_text = false;
            },
            MdEvent::SoftBreak | MdEvent::HardBreak | MdEvent::ParagraphEnd => {
                if in_block {
                    block.push('\n');
                }
                last_was_text = false;
            },
            MdEvent::Other => {
                last_was_text = false;
            },
        }
        i = i + 1;
    }
    assert(evs.take(events@.len() as int) =~= evs);
    if in_block && block.len() > 0 {
        push_card(&mut cards, &block, source_file, &tags);
    }
    cards
}

/// Parses Markdown text into cards: the `pulldown_cmark` event stream of
/// `content`, read by `cards_from_events`.
pub fn parse_markdown(content: &str, source_file: &str) -> (cards: Vec<ParsedCard>)
    ensures
        cards.deep_view() == md_cards(markdown_events(content@), source_file@),
        well_numbered(cards.deep_view(), source_file@),
{
    let events = parse_events(content);
    cards_from_events(&events, source_file)
}


// ===== A note or an invalid block between cards changes nothing =====

/// Whether an event is a `<!-- card -->` marker.
pub open spec fn is_marker(ev: MdEventView) -> bool {
    ev matches MdEventView::Html(h) && trim(h) == "<!-- card -->"@
}

/// Events that neither open or close a card block nor delimit front matter.
pub open spec fn quiet(evs: Seq<MdEventView>) -> bool {
    forall|i: int|
        0 <= i < evs.len() ==> !is_marker(#[trigger] evs[i]) && !(evs[i] is MetadataStart)
            && !(evs[i] is MetadataEnd)
}

/// Whether the text of a card block holds a card (a question and an answer).
pub open spec fn block_holds_card(content: Seq<char>) -> bool {
    let st = block_state(lines(content));
    st.question.len() > 0 && st.answer.len() > 0
}

/// The scan just after a `<!-- card -->` marker, with nothing else read.
pub open spec fn md_open() -> MdScan {
    MdScan { in_block: true, ..md_start() }
}

/// Two scan states outside any card block and front matter that hold the
/// same cards and tags (what text they may have left over does not matter).
pub open spec fn same_at_rest(s1: MdScan, s2: MdScan) -> bool {
    &&& !s1.in_block && !s2.in_block
    &&& !s1.in_frontmatter && !s2.in_frontmatter
    &&& s1.cards == s2.cards
    &&& s1.tags == s2.tags
}

/// Two scan states that read on identically from here (what was left over
/// outside a block is dropped at the next marker).
pub open spec fn scan_alike(s1: MdScan, s2: MdScan) -> bool {
    ||| s1 == s2
    ||| {
        &&& !s1.in_block && !s2.in_block
        &&& s1.in_frontmatter == s2.in_frontmatter
        &&& s1.frontmatter == s2.frontmatter
        &&& s1.cards == s2.cards
        &&& s1.tags == s2.tags
    }
}

proof fn lemma_md_from_concat(st: MdScan, e1: Seq<MdEventView>, e2: Seq<MdEventView>, source: Seq<char>)
    ensures
        md_from(st, e1 + e2, source) == md_from(md_from(st, e1, source), e2, source),
    decreases e2.len(),
{
    if e2.len() == 0 {
        assert(e1 + e2 =~= e1);
    } else {
        assert((e1 + e2).drop_last() =~= e1 + e2.drop_last());
        assert((e1 + e2).last() == e2.last());
        lemma_md_from_concat(st, e1, e2.drop_last(), source);
    }
}

proof fn lemma_md_one(st: MdScan, ev: MdEventView, source: Seq<char>)
    ensures
        md_from(st, seq![ev], source) == md_step(st, ev, source),
{
    assert(seq![ev].drop_last() =~= Seq::<MdEventView>::empty());
    assert(md_from(st, seq![ev].drop_last(), source) == st);
    assert(seq![ev].last() == ev);
}

/// States that are alike stay alike.
proof fn lemma_alike_from(s1: MdScan, s2: MdScan, evs: Seq<MdEventView>, source: Seq<char>)
    requires
        scan_alike(s1, s2),
    ensures
        scan_alike(md_from(s1, evs, source), md_from(s2, evs, source)),
    decreases evs.len(),
{
    if evs.len() > 0 {
        lemma_alike_from(s1, s2, evs.drop_last(), source);
    }
}

/// Quiet events read outside any block and front matter leave the cards and
/// tags as they were.
proof fn lemma_quiet_at_rest(st: MdScan, evs: Seq<MdEventView>, source: Seq<char>)
    requires
        !st.in_block,
        !st.in_frontmatter,
        quiet(evs),
    ensures
        same_at_rest(md_from(st, evs, source), st),
        md_from(st, evs, source).frontmatter == st.frontmatter,
    decreases evs.len(),
{
    if evs.len() > 0 {
        let pre = evs.drop_last();
        assert forall|i: int| 0 <= i < pre.len() implies !is_marker(#[trigger] pre[i]) && !(
        pre[i] is MetadataStart) && !(pre[i] is MetadataEnd) by {
            assert(pre[i] == evs[i]);
        }
        lemma_quiet_at_rest(st, pre, source);
        let e = evs.last();
        assert(!is_marker(evs[evs.len() - 1]));
    }
}

/// Quiet events read inside a block only add to its text; that text does not
/// depend on the cards, tags or front matter read before.
proof fn lemma_quiet_in_block(st: MdScan, evs: Seq<MdEventView>, source: Seq<char>)
    requires
        st.in_block,
        !st.in_frontmatter,
        quiet(evs),
    ensures
        ({
            let canon = MdScan { cards: seq![], tags: seq![], frontmatter: seq![], ..st };
            let r = md_from(st, evs, source);
            let c = md_from(canon, evs, source);
            &&& r == MdScan { block: c.block, last_was_text: c.last_was_text, ..st }
            &&& c == MdScan { block: c.block, last_was_text: c.last_was_text, ..canon }
        }),
    decreases evs.len(),
{
    if evs.len() > 0 {
        let pre = evs.drop_last();
        assert forall|i: int| 0 <= i < pre.len() implies !is_marker(#[trigger] pre[i]) && !(
        pre[i] is MetadataStart) && !(pre[i] is MetadataEnd) by {
            assert(pre[i] == evs[i]);
        }
        lemma_quiet_in_block(st, pre, source);
        let e = evs.last();
        assert(!is_marker(evs[evs.len() - 1]));
        assert(!(evs[evs.len() - 1] is MetadataStart) && !(evs[evs.len() - 1] is MetadataEnd));
        let canon = MdScan { cards: seq![], tags: seq![], frontmatter: seq![], ..st };
        let r0 = md_from(st, pre, source);
        let c0 = md_from(canon, pre, source);
        let r1 = md_step(r0, e, source);
        let c1 = md_step(c0, e, source);
        assert(md_from(st, evs, source) == r1);
        assert(md_from(canon, evs, source) == c1);
        match e {
            MdEventView::Html(h) => {
                assert(trim(h) != "<!-- card -->"@);
            },
            _ => {},
        }
        assert(r1 == MdScan { block: c1.block, last_was_text: c1.last_was_text, ..st });
        assert(c1 == MdScan { block: c1.block, last_was_text: c1.last_was_text, ..canon });
    }
}

/// A note between cards, or a card block that holds no card, changes none of
/// the cards read from a document: the cards before and after it, their
/// numbering and their tags are those read without it. The note or block
/// stands where the scan is outside any card block and front matter; a note
/// is any run of events without card markers or front matter delimiters,
/// and an invalid block is such a run between two markers whose text lacks a
/// question or an answer.
pub proof fn law_note_or_invalid_block_changes_nothing(
    before: Seq<MdEventView>,
    x: Seq<MdEventView>,
    after: Seq<MdEventView>,
    source: Seq<char>,
)
    requires
        !md_scan(before, source).in_block,
        !md_scan(before, source).in_frontmatter,
        quiet(x) || {
            &&& x.len() >= 2
            &&& is_marker(x[0])
            &&& is_marker(x.last())
            &&& quiet(x.subrange(1, x.len() - 1))
            &&& !block_holds_card(md_from(md_open(), x.subrange(1, x.len() - 1), source).block)
        },
    ensures
        md_cards(before + x + after, source) == md_cards(before + after, source),
{
    let sa = md_scan(before, source);
    lemma_md_from_concat(md_start(), before, x, source);
    lemma_md_from_concat(md_start(), before + x, after, source);
    lemma_md_from_concat(md_start(), before, after, source);
    let sx = md_from(sa, x, source);
    assert(md_scan(before + x, source) == sx);
    if quiet(x) {
        lemma_quiet_at_rest(sa, x, source);
    } else {
        let y = x.subrange(1, x.len() - 1);
        assert(x =~= seq![x[0]] + y + seq![x.last()]);
        lemma_md_from_concat(sa, seq![x[0]], y, source);
        lemma_md_from_concat(sa, seq![x[0]] + y, seq![x.last()], source);
        lemma_md_one(sa, x[0], source);
        let s1 = md_step(sa, x[0], source);
        assert(s1 == MdScan { in_block: true, block: seq![], last_was_text: false, ..sa });
        lemma_quiet_in_block(s1, y, source);
        assert(MdScan { cards: seq![], tags: seq![], frontmatter: seq![], ..s1 } == md_open());
        let s2 = md_from(s1, y, source);
        lemma_md_one(s2, x.last(), source);
        let s3 = md_step(s2, x.last(), source);
        assert(s3.cards == sa.cards);
        assert(sx == s3);
    }
    assert(scan_alike(sx, sa));
    lemma_alike_from(sx, sa, after, source);
}

} // verus!

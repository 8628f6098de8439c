//! Tab-separated card files without a header row.
//!
//! Each non-blank line is `question<TAB>answer` or
//! `question<TAB>answer<TAB>tags`, tags separated by `|`; a literal `\n`
//! in the answer stands for a line break.

use vstd::prelude::*;

use super::{ParsedCard, ParsedCardView};
use crate::text::{
    chars_to_string, decimal, lemma_split_trimmed, lines, lines_of, push_decimal, push_str,
    split, split_of, split_trimmed, split_trimmed_of, trim, trim_chars, unescape_nl,
    unescape_nl_of,
};

verus! {

/// Why a line of a card file was refused; `line` counts from 1.
#[derive(Debug, Clone, Copy, PartialEq, Eq, Structural)]
pub enum CsvError {
    EmptyQuestion { line: usize },
    EmptyAnswer { line: usize },
    ColumnCount { line: usize, found: usize },
}

/// What one line of a card file amounts to.
pub enum CsvLine {
    Blank,
    Entry { question: Seq<char>, answer: Seq<char>, tags: Seq<Seq<char>> },
    Fail(CsvError),
}

/// The meaning of line number `line_no` (from 1) with text `line`.
pub open spec fn csv_line(line: Seq<char>, line_no: usize) -> CsvLine {
    if trim(line).len() == 0 {
        CsvLine::Blank
    } else {
        let cols = split(line, '\t');
        if cols.len() == 2 || cols.len() == 3 {
            let q = trim(cols[0]);
            let a = trim(cols[1]);
            if q.len() == 0 {
                CsvLine::Fail(CsvError::EmptyQuestion { line: line_no })
            } else if a.len() == 0 {
                CsvLine::Fail(CsvError::EmptyAnswer { line: line_no })
            } else {
                CsvLine::Entry {
                    question: q,
                    answer: unescape_nl(a),
                    tags: if cols.len() == 3 {
                        split_trimmed(trim(cols[2]), '|')
                    } else {
                        seq![]
                    },
                }
            }
        } else {
            CsvLine::Fail(CsvError::ColumnCount { line: line_no, found: cols.len() as usize })
        }
    }
}

/// The cards of the lines `ls`, or the error of the first refused line.
pub open spec fn csv_cards(ls: Seq<Seq<char>>, source: Seq<char>) -> Result<
    Seq<ParsedCardView>,
    CsvError,
>
    decreases ls.len(),
{
    if ls.len() == 0 {
        Ok(seq![])
    } else {
        match csv_cards(ls.drop_last(), source) {
            Err(e) => Err(e),
            Ok(cards) => match csv_line(ls.last(), ls.len() as usize) {
                CsvLine::Blank => Ok(cards),
                CsvLine::Fail(e) => Err(e),
                CsvLine::Entry { question, answer, tags } => Ok(
                    cards.push(
                        ParsedCardView {
                            source_file: source,
                            card_index: cards.len() as i32,
                            question,
                            answer,
                            tags,
                        },
                    ),
                ),
            },
        }
    }
}

/// Whether card `c` is what the line `line` says: two or three tab-separated
/// columns; the question is the first column trimmed and nothing else (a
/// literal `\n` in it stays as written); the answer is the second column
/// trimmed, with each literal `\n` turned into a line break; the tags are the
/// `|`-separated, trimmed, non-empty entries of a third column, if any.
pub open spec fn card_from_line(c: ParsedCardView, line: Seq<char>) -> bool {
    let cols = split(line, '\t');
    &&& cols.len() == 2 || cols.len() == 3
    &&& c.question == trim(cols[0])
    &&& c.answer == unescape_nl(trim(cols[1]))
    &&& c.tags == (if cols.len() == 3 {
        split_trimmed(trim(cols[2]), '|')
    } else {
        seq![]
    })
}

/// Every card read from a card file is what one of its lines says, taken
/// column by column, and carries the file's name and its position.
pub proof fn law_csv_cards_come_from_lines(ls: Seq<Seq<char>>, source: Seq<char>)
    ensures
        csv_cards(ls, source) matches Ok(cards) ==> forall|i: int|
            0 <= i < cards.len() ==> {
                &&& cards[i].source_file == source
                &&& cards[i].card_index == i as i32
                &&& exists|k: int| 0 <= k < ls.len() && card_from_line(#[trigger] cards[i], ls[k])
            },
    decreases ls.len(),
{
    if ls.len() > 0 {
        let pre = ls.drop_last();
        law_csv_cards_come_from_lines(pre, source);
        match csv_cards(pre, source) {
            Err(_) => {},
            Ok(cards0) => {
                match csv_line(ls.last(), ls.len() as usize) {
                    CsvLine::Entry { question, answer, tags } => {
                        let cards = csv_cards(ls, source).unwrap();
                        assert forall|i: int| 0 <= i < cards.len() implies {
                            &&& cards[i].source_file == source
                            &&& cards[i].card_index == i as i32
                            &&& exists|k: int| 0 <= k < ls.len() && card_from_line(#[trigger] cards[i], ls[k])
                        } by {
                            if i < cards0.len() {
                                assert(cards[i] == cards0[i]);
                                let k = choose|k: int| 0 <= k < pre.len() && card_from_line(cards0[i], pre[k]);
                                assert(ls[k] == pre[k]);
                            } else {
                                assert(card_from_line(cards[i], ls[ls.len() - 1]));
                            }
                        }
                    },
                    _ => {},
                }
            },
        }
    }
}

/// The message an error is reported with.
pub open spec fn csv_error_text(e: CsvError) -> Seq<char> {
    match e {
        CsvError::EmptyQuestion { line } => "CSV 第 "@ + decimal(line as nat) + " 行: 列为空"@,
        CsvError::EmptyAnswer { line } => "CSV 第 "@ + decimal(line as nat) + " 行: 答案列为空"@,
        CsvError::ColumnCount { line, found } => "CSV 第 "@ + decimal(line as nat)
            + " 行列数错误: 期望 2 或 3，实际 "@ + decimal(found as nat),
    }
}

impl CsvError {
    /// The message this error is reported with.
    pub fn message(&self) -> (m: String)
        ensures
            m@ == csv_error_text(*self),
    {
        let mut out: Vec<char> = Vec::new();
        push_str(&mut out, "CSV 第 ");
        match self {
            CsvError::EmptyQuestion { line } => {
                push_decimal(&mut out, *line as u64);
                push_str(&mut out, " 行: 列为空");
            },
            CsvError::EmptyAnswer { line } => {
                push_decimal(&mut out, *line as u64);
                push_str(&mut out, " 行: 答案列为空");
            },
            CsvError::ColumnCount { line, found } => {
                push_decimal(&mut out, *line as u64);
                push_str(&mut out, " 行列数错误: 期望 2 或 3，实际 ");
                push_decimal(&mut out, *found as u64);
            },
        }
        chars_to_string(out.as_slice())
    }
}

/// `s.replace("\\n", "\n")`: a literal backslash-`n` becomes a line break.
pub fn unescape_newlines(s: &str) -> (r: String)
    ensures
        r@ == unescape_nl(s@),
{
    let c = crate::text::str_chars(s);
    let u = unescape_nl_of(c.as_slice());
    chars_to_string(u.as_slice())
}

/// `|`-separated tags, trimmed, without empty ones.
pub fn parse_tags(s: &str) -> (tags: Vec<String>)
    ensures
        tags.deep_view() == split_trimmed(s@, '|'),
{
    let c = crate::text::str_chars(s);
    split_trimmed_of(c.as_slice(), '|')
}

/// Reads one line: `Ok(None)` for a blank line.
fn parse_line(line: &[char], line_no: usize, source_file: &str, index: i32) -> (r: Result<
    Option<ParsedCard>,
    CsvError,
>)
    ensures
        match csv_line(line@, line_no) {
            CsvLine::Blank => r == Ok::<Option<ParsedCard>, CsvError>(None),
            CsvLine::Fail(e) => r == Err::<Option<ParsedCard>, CsvError>(e),
            CsvLine::Entry { question, answer, tags } => r matches Ok(Some(card)) && card@
                == (ParsedCardView {
                source_file: source_file@,
                card_index: index,
                question,
                answer,
                tags,
            }),
        },
{
    let t = trim_chars(line);
    if t.len() == 0 {
        return Ok(None);
    }
    let cols = split_of(line, '\t');
    proof {
        assert(cols.deep_view()[0] == cols@[0]@);
    }
    if cols.len() == 2 || cols.len() == 3 {
        assert(cols.deep_view()[0] =~= cols@[0]@);
        assert(cols.deep_view()[1] =~= cols@[1]@);
        let q = trim_chars(cols[0].as_slice());
        let a = trim_chars(cols[1].as_slice());
        if q.len() == 0 {
            return Err(CsvError::EmptyQuestion { line: line_no });
        }
        if a.len() == 0 {
            return Err(CsvError::EmptyAnswer { line: line_no });
        }
        let answer = unescape_nl_of(a.as_slice());
        let tags = if cols.len() == 3 {
            assert(cols.deep_view()[2] =~= cols@[2]@);
            let raw = trim_chars(cols[2].as_slice());
            split_trimmed_of(raw.as_slice(), '|')
        } else {
            let v: Vec<String> = Vec::new();
            assert(v.deep_view() =~= Seq::<Seq<char>>::empty());
            v
        };
        Ok(
            Some(
                ParsedCard {
                    source_file: source_file.to_owned(),
                    card_index: index,
                    question: chars_to_string(q.as_slice()),
                    answer: chars_to_string(answer.as_slice()),
                    tags,
                },
            ),
        )
    } else {
        Err(CsvError::ColumnCount { line: line_no, found: cols.len() })
    }
}

/// Once a prefix of the lines is refused, the whole text is refused the same way.
proof fn lemma_csv_error_stays(ls: Seq<Seq<char>>, source: Seq<char>, k: int)
    requires
        0 <= k <= ls.len(),
        csv_cards(ls.take(k), source) is Err,
    ensures
        csv_cards(ls, source) == csv_cards(ls.take(k), source),
    decreases ls.len() - k,
{
    if k < ls.len() {
        assert(ls.take(k + 1).drop_last() =~= ls.take(k));
        lemma_csv_error_stays(ls, source, k + 1);
    } else {
        assert(ls.take(k) =~= ls);
    }
}

/// Parses a tab-separated card file.
///
/// On success the cards are numbered 0, 1, ... in file order, all carry
/// `source_file`, and each has a non-empty question and answer; the first
/// refused line decides the error.
pub fn parse_csv(content: &str, source_file: &str) -> (r: Result<Vec<ParsedCard>, CsvError>)
    ensures
        match r {
            Ok(cards) => csv_cards(lines(content@), source_file@) == Ok::<
                Seq<ParsedCardView>,
                CsvError,
            >(cards.deep_view()),
            Err(e) => csv_cards(lines(content@), source_file@) == Err::<
                Seq<ParsedCardView>,
                CsvError,
            >(e),
        },
        r matches Ok(cards) ==> forall|i: int|
            0 <= i < cards@.len() ==> {
                let c = #[trigger] cards@[i];
                &&& c.card_index == i as i32
                &&& c.source_file@ == source_file@
                &&& c.question@.len() > 0
                &&& c.answer@.len() > 0
            },
{
    let chars = crate::text::str_chars(content);
    let ls = lines_of(chars.as_slice());
    let ghost lv = ls.deep_view();
    let mut cards: Vec<ParsedCard> = Vec::new();
    let mut idx: usize = 0;
    assert(lv.take(0) =~= Seq::<Seq<char>>::empty());
    assert(cards.deep_view() =~= Seq::<ParsedCardView>::empty());
    while idx < ls.len()
        invariant
            idx <= ls@.len(),
            lv == ls.deep_view(),
            lv == lines(content@),
            csv_cards(lv.take(idx as int), source_file@) == Ok::<
                Seq<ParsedCardView>,
                CsvError,
            >(cards.deep_view()),
            forall|i: int|
                0 <= i < cards@.len() ==> {
                    let c = #[trigger] cards@[i];
                    &&& c.card_index == i as i32
                    &&& c.source_file@ == source_file@
                    &&& c.question@.len() > 0
                    &&& c.answer@.len() > 0
                },
        decreases ls.len() - idx,
    {
        let ghost pre = lv.take(idx + 1);
        assert(pre.drop_last() =~= lv.take(idx as int));
        assert(pre.last() == ls@[idx as int].deep_view());
        assert(ls@[idx as int].deep_view() =~= ls@[idx as int]@);
        assert(pre.len() as usize == idx + 1);
        let index = cards.len() as i32;
        match parse_line(ls[idx].as_slice(), idx + 1, source_file, index) {
            Ok(None) => {},
            Ok(Some(card)) => {
                let ghost old_cards = cards.deep_view();
                proof {
                    lemma_unescape_nonempty(trim(split(ls@[idx as int]@, '\t')[1]));
                }
                cards.push(card);
                assert(cards.deep_view() =~= old_cards.push(card@));
            },
            Err(e) => {
                proof {
                    lemma_csv_error_stays(lv, source_file@, idx + 1);
                }
                return Err(e);
            },
        }
        idx = idx + 1;
    }
    assert(lv.take(ls@.len() as int) =~= lv);
    Ok(cards)
}

/// Unescaping keeps a non-empty text non-empty.
proof fn lemma_unescape_nonempty(s: Seq<char>)
    ensures
        s.len() > 0 ==> unescape_nl(s).len() > 0,
{
}

} // verus!

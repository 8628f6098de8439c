//! Card generation helpers: the requests sent to the model, pulling the JSON
//! array out of a reply, and cutting long text into chunks.

use vstd::prelude::*;

use crate::text::{
    append_chars, chars_to_string, copy_range, index_of, lemma_index_of, lemma_index_of_bounds, lines,
    lines_of, push_str, str_chars,
};

verus! {

/// A question/answer pair proposed by the model.
pub struct GeneratedQA {
    pub question: String,
    pub answer: String,
}

/// Position of the last `c` in `s`, if any.
pub open spec fn last_index_of(s: Seq<char>, c: char) -> Option<nat>
    decreases s.len(),
{
    if s.len() == 0 {
        None
    } else if s.last() == c {
        Some((s.len() - 1) as nat)
    } else {
        last_index_of(s.drop_last(), c)
    }
}

/// The text from the first `[` through the last `]`, or the whole text when
/// either is missing.
pub open spec fn json_array_span(s: Seq<char>) -> Seq<char> {
    let a = index_of(s, '[');
    if a < s.len() && last_index_of(s, ']') is Some {
        s.subrange(a as int, (last_index_of(s, ']').unwrap() + 1) as int)
    } else {
        s
    }
}

/// The inputs on which the span is well formed: when both occur, the last `]`
/// is not before the character just ahead of the first `[` (slicing panics
/// otherwise; with `]` right before `[` the span is empty).
pub open spec fn json_span_ok(s: Seq<char>) -> bool {
    (index_of(s, '[') < s.len() && last_index_of(s, ']') is Some) ==> index_of(s, '[')
        <= last_index_of(s, ']').unwrap() + 1
}

proof fn lemma_last_index(s: Seq<char>, c: char, k: int)
    requires
        -1 <= k < s.len(),
        forall|j: int| k < j < s.len() ==> s[j] != c,
        k >= 0 ==> s[k] == c,
    ensures
        k >= 0 ==> last_index_of(s, c) == Some(k as nat),
        k < 0 ==> last_index_of(s, c) is None,
    decreases s.len(),
{
    if s.len() > 0 && k < s.len() - 1 {
        assert(s.last() != c);
        lemma_last_index(s.drop_last(), c, k);
    }
}

fn rfind(s: &[char], c: char) -> (r: Option<usize>)
    ensures
        match last_index_of(s@, c) {
            Some(k) => r == Some(k as usize) && k < s@.len(),
            None => r is None,
        },
{
    let mut i: usize = s.len();
    while i > 0
        invariant
            i <= s@.len(),
            forall|j: int| i <= j < s@.len() ==> s@[j] != c,
        decreases i,
    {
        if s[i - 1] == c {
            proof {
                lemma_last_index(s@, c, i - 1);
            }
            return Some(i - 1);
        }
        i = i - 1;
    }
    proof {
        lemma_last_index(s@, c, -1);
    }
    None
}

fn find(s: &[char], c: char) -> (r: Option<usize>)
    ensures
        index_of(s@, c) < s@.len() ==> r == Some(index_of(s@, c) as usize),
        index_of(s@, c) >= s@.len() ==> r is None,
{
    let mut i: usize = 0;
    while i < s.len()
        invariant
            i <= s@.len(),
            forall|j: int| 0 <= j < i ==> s@[j] != c,
        decreases s.len() - i,
    {
        if s[i] == c {
            proof {
                lemma_index_of(s@, c, i as int);
            }
            return Some(i);
        }
        i = i + 1;
    }
    proof {
        lemma_index_of(s@, c, s@.len() as int);
    }
    None
}

/// Pulls the JSON array out of a model reply: from the first `[` through the
/// last `]`; the reply unchanged when it lacks either.
pub fn extract_json(text: &str) -> (r: String)
    requires
        json_span_ok(text@),
    ensures
        r@ == json_array_span(text@),
{
    let chars = str_chars(text);
    let n = chars.len();
    if let Some(start) = find(chars.as_slice(), '[') {
        if let Some(end) = rfind(chars.as_slice(), ']') {
            let span = copy_range(chars.as_slice(), start, end + 1);
            return chars_to_string(span.as_slice());
        }
    }
    chars_to_string(chars.as_slice())
}

/// The byte length of `c` in UTF-8.
pub open spec fn utf8_width(c: char) -> nat {
    if (c as u32) < 0x80 {
        1
    } else if (c as u32) < 0x800 {
        2
    } else if (c as u32) < 0x10000 {
        3
    } else {
        4
    }
}

/// The byte length of `s` in UTF-8 (`str::len`).
pub open spec fn byte_len(s: Seq<char>) -> nat
    decreases s.len(),
{
    if s.len() == 0 {
        0
    } else {
        byte_len(s.drop_last()) + utf8_width(s.last())
    }
}

/// Chunks of the lines `ls`, each line followed by `\n`: a chunk is closed
/// before a line that would take it past `max` bytes (counting that line's
/// `\n`), unless the chunk is still empty.
pub open spec fn chunks(ls: Seq<Seq<char>>, max: nat, cur: Seq<char>) -> Seq<Seq<char>>
    decreases ls.len(),
{
    if ls.len() == 0 {
        if cur.len() > 0 {
            seq![cur]
        } else {
            seq![]
        }
    } else {
        let l = ls[0];
        if byte_len(cur) + byte_len(l) + 1 > max && cur.len() > 0 {
            seq![cur] + chunks(ls.drop_first(), max, l.push('\n'))
        } else {
            chunks(ls.drop_first(), max, cur + l.push('\n'))
        }
    }
}

/// The chunks of `text`: the text itself when it fits in `max` bytes.
pub open spec fn split_text_spec(text: Seq<char>, max: nat) -> Seq<Seq<char>> {
    if byte_len(text) <= max {
        seq![text]
    } else {
        chunks(lines(text), max, seq![])
    }
}

fn char_width(c: char) -> (w: usize)
    ensures
        w == utf8_width(c),
{
    if (c as u32) < 0x80 {
        1
    } else if (c as u32) < 0x800 {
        2
    } else if (c as u32) < 0x10000 {
        3
    } else {
        4
    }
}

/// `byte_len(s)`, capped at `cap`.
fn capped_byte_len(s: &[char], cap: usize) -> (r: usize)
    ensures
        r == (if byte_len(s@) < cap {
            byte_len(s@)
        } else {
            cap as nat
        }),
{
    let mut total: usize = 0;
    let mut i: usize = 0;
    while i < s.len()
        invariant
            i <= s@.len(),
            total <= cap,
            total == (if byte_len(s@.take(i as int)) < cap {
                byte_len(s@.take(i as int))
            } else {
                cap as nat
            }),
        decreases s.len() - i,
    {
        let w = char_width(s[i]);
        assert(s@.take(i + 1).drop_last() =~= s@.take(i as int));
        if w >= cap - total {
            total = cap;
        } else {
            total = total + w;
        }
        i = i + 1;
    }
    assert(s@.take(s@.len() as int) =~= s@);
    total
}

/// Whether `byte_len(s)` exceeds `max`.
fn bytes_exceed(s: &[char], max: usize) -> (r: bool)
    ensures
        r == (byte_len(s@) > max),
{
    let mut total: usize = 0;
    let mut i: usize = 0;
    while i < s.len()
        invariant
            i <= s@.len(),
            total <= max,
            total == byte_len(s@.take(i as int)),
        decreases s.len() - i,
    {
        let w = char_width(s[i]);
        assert(s@.take(i + 1).drop_last() =~= s@.take(i as int));
        if w > max - total {
            proof {
                lemma_byte_len_prefix(s@, i + 1);
            }
            return true;
        }
        total = total + w;
        i = i + 1;
    }
    assert(s@.take(s@.len() as int) =~= s@);
    false
}

/// A prefix has no more bytes than the whole.
proof fn lemma_byte_len_prefix(s: Seq<char>, k: int)
    requires
        0 <= k <= s.len(),
    ensures
        byte_len(s.take(k)) <= byte_len(s),
    decreases s.len() - k,
{
    if k < s.len() {
        lemma_byte_len_prefix(s, k + 1);
        assert(s.take(k + 1).drop_last() =~= s.take(k));
    } else {
        assert(s.take(k) =~= s);
    }
}

/// `byte_len` of a concatenation.
proof fn lemma_byte_len_concat(a: Seq<char>, b: Seq<char>)
    ensures
        byte_len(a + b) == byte_len(a) + byte_len(b),
    decreases b.len(),
{
    if b.len() == 0 {
        assert(a + b =~= a);
    } else {
        lemma_byte_len_concat(a, b.drop_last());
        assert((a + b).drop_last() =~= a + b.drop_last());
    }
}

/// Cuts text into chunks of at most `max_chars` bytes at line boundaries
/// (a single longer line is kept whole).
pub fn split_text(text: &str, max_chars: usize) -> (r: Vec<String>)
    ensures
        r.deep_view() == split_text_spec(text@, max_chars as nat),
{
    let chars = str_chars(text);
    if !bytes_exceed(chars.as_slice(), max_chars) {
        let mut r: Vec<String> = Vec::new();
        r.push(chars_to_string(chars.as_slice()));
        assert(r.deep_view() =~= seq![text@]);
        return r;
    }
    let ls = lines_of(chars.as_slice());
    let ghost lv = ls.deep_view();
    let ghost m = max_chars as nat;
    let mut out: Vec<String> = Vec::new();
    let mut cur: Vec<char> = Vec::new();
    let mut cur_len: usize = 0;
    let mut i: usize = 0;
    assert(lv.skip(0) =~= lv);
    assert(out.deep_view() + chunks(lv, m, cur@) =~= chunks(lv, m, cur@));
    while i < ls.len()
        invariant
            i <= ls@.len(),
            lv == ls.deep_view(),
            lv == lines(text@),
            m == max_chars as nat,
            cur_len == (if byte_len(cur@) < m {
                byte_len(cur@)
            } else {
                m
            }),
            chunks(lv, m, seq![]) == out.deep_view() + chunks(lv.skip(i as int), m, cur@),
        decreases ls.len() - i,
    {
        let ghost rest = lv.skip(i as int);
        assert(rest[0] == ls@[i as int].deep_view());
        assert(ls@[i as int].deep_view() =~= ls@[i as int]@);
        assert(rest.drop_first() =~= lv.skip(i + 1));
        let line = ls[i].as_slice();
        let mut piece = copy_range(line, 0, line.len());
        piece.push('\n');
        proof {
            lemma_byte_len_concat(line@, seq!['\n']);
            assert(line@.push('\n') =~= line@ + seq!['\n']);
            assert(piece@ =~= line@.push('\n'));
            assert(byte_len(seq!['\n']) == 1) by {
                let nl = seq!['\n'];
                assert(nl.drop_last() =~= Seq::<char>::empty());
                assert(byte_len(Seq::<char>::empty()) == 0);
                assert(nl.last() == '\n');
                assert(('\n' as u32) < 0x80);
                assert(utf8_width('\n') == 1);
            }
        }
        let ghost out0 = out.deep_view();
        let l = capped_byte_len(line, max_chars);
        let overflows = cur_len >= max_chars || l >= max_chars - cur_len;
        if overflows && cur.len() > 0 {
            let s = chars_to_string(cur.as_slice());
            out.push(s);
            assert(out.deep_view() =~= out0.push(cur@));
            assert(out.deep_view() + chunks(lv.skip(i + 1), m, piece@) =~= out0 + chunks(
                rest,
                m,
                cur@,
            ));
            cur = piece;
            if l >= max_chars {
                cur_len = max_chars;
            } else {
                cur_len = l + 1;
            }
        } else {
            let ghost c0 = cur@;
            append_chars(&mut cur, piece.as_slice());
            proof {
                lemma_byte_len_concat(c0, piece@);
            }
            assert(out.deep_view() + chunks(lv.skip(i + 1), m, cur@) =~= out0 + chunks(
                rest,
                m,
                c0,
            ));
            if overflows {
                cur_len = if l >= max_chars { max_chars } else { l + 1 };
            } else {
                cur_len = cur_len + l + 1;
            }
        }
        i = i + 1;
    }
    assert(lv.skip(ls@.len() as int).len() == 0);
    let ghost out0 = out.deep_view();
    if cur.len() > 0 {
        out.push(chars_to_string(cur.as_slice()));
        assert(out.deep_view() =~= out0.push(cur@));
        assert(out.deep_view() =~= out0 + chunks(lv.skip(ls@.len() as int), m, cur@));
    } else {
        assert(out.deep_view() =~= out0 + chunks(lv.skip(ls@.len() as int), m, cur@));
    }
    out
}


/// The request that asks the model for cards drawn from `text`: fixed
/// instructions (strict JSON array of `question`/`answer` objects, `[]` when
/// there is nothing to learn) followed by the text.
pub fn text_prompt(text: &str) -> (r: String)
    ensures
        r@ == "你是一个记忆卡片生成器。请从以下文本中提取最重要的概念，生成问答对格式的抽认卡。\n\n要求：\n1. 每个概念生成一个问题和一个简洁准确的答案\n2. 问题应该清晰具体，答案应该完整但不冗余\n3. 只输出严格的 JSON 数组，每个元素包含 \"question\" 和 \"answer\" 字段\n4. 如果文本没有值得提取的知识点，返回空数组 []\n5. 不要输出任何解释，只输出 JSON\n\n文本内容：\n"@ + text@,
{
    let mut out: Vec<char> = Vec::new();
    push_str(&mut out, "你是一个记忆卡片生成器。请从以下文本中提取最重要的概念，生成问答对格式的抽认卡。\n\n要求：\n1. 每个概念生成一个问题和一个简洁准确的答案\n2. 问题应该清晰具体，答案应该完整但不冗余\n3. 只输出严格的 JSON 数组，每个元素包含 \"question\" 和 \"answer\" 字段\n4. 如果文本没有值得提取的知识点，返回空数组 []\n5. 不要输出任何解释，只输出 JSON\n\n文本内容：\n");
    push_str(&mut out, text);
    chars_to_string(out.as_slice())
}

/// The request that asks the model for five to ten cards on `topic`.
pub fn topic_prompt(topic: &str) -> (r: String)
    ensures
        r@ == "你是一个记忆卡片生成器。请为以下主题生成 5-10 张高质量的问答卡片。\n\n主题："@ + topic@ + "\n\n要求：\n1. 覆盖该主题的核心概念\n2. 问题应该清晰具体，答案应该完整但不冗余\n3. 只输出严格的 JSON 数组，每个元素包含 \"question\" 和 \"answer\" 字段\n4. 不要输出任何解释，只输出 JSON"@,
{
    let mut out: Vec<char> = Vec::new();
    push_str(&mut out, "你是一个记忆卡片生成器。请为以下主题生成 5-10 张高质量的问答卡片。\n\n主题：");
    push_str(&mut out, topic);
    push_str(&mut out, "\n\n要求：\n1. 覆盖该主题的核心概念\n2. 问题应该清晰具体，答案应该完整但不冗余\n3. 只输出严格的 JSON 数组，每个元素包含 \"question\" 和 \"answer\" 字段\n4. 不要输出任何解释，只输出 JSON");
    chars_to_string(out.as_slice())
}


/// The lines `ls`, each followed by `\n`, one after another.
pub open spec fn joined_lines(ls: Seq<Seq<char>>) -> Seq<char>
    decreases ls.len(),
{
    if ls.len() == 0 {
        seq![]
    } else {
        ls[0].push('\n') + joined_lines(ls.drop_first())
    }
}

/// A single line followed by its `\n`.
pub open spec fn one_line(c: Seq<char>) -> bool {
    c.len() > 0 && c.last() == '\n' && !c.drop_last().contains('\n')
}

proof fn lemma_flatten_cons(x: Seq<char>, rest: Seq<Seq<char>>)
    ensures
        (seq![x] + rest).flatten() == x + rest.flatten(),
{
    let s = seq![x] + rest;
    assert(s.first() == x);
    assert(s.drop_first() =~= rest);
}

proof fn lemma_chunks_flatten(ls: Seq<Seq<char>>, max: nat, cur: Seq<char>)
    ensures
        chunks(ls, max, cur).flatten() == cur + joined_lines(ls),
    decreases ls.len(),
{
    if ls.len() == 0 {
        if cur.len() > 0 {
            lemma_flatten_cons(cur, Seq::<Seq<char>>::empty());
        }
        assert(cur + joined_lines(ls) =~= cur);
    } else {
        let l = ls[0];
        let rest = ls.drop_first();
        if byte_len(cur) + byte_len(l) + 1 > max && cur.len() > 0 {
            lemma_chunks_flatten(rest, max, l.push('\n'));
            lemma_flatten_cons(cur, chunks(rest, max, l.push('\n')));
        } else {
            lemma_chunks_flatten(rest, max, cur + l.push('\n'));
        }
        assert(cur + l.push('\n') + joined_lines(rest) =~= cur + joined_lines(ls));
    }
}

proof fn lemma_chunks_size(ls: Seq<Seq<char>>, max: nat, cur: Seq<char>)
    requires
        forall|i: int| 0 <= i < ls.len() ==> !(#[trigger] ls[i]).contains('\n'),
        cur.len() == 0 || byte_len(cur) <= max || one_line(cur),
    ensures
        forall|i: int|
            0 <= i < chunks(ls, max, cur).len() ==> {
                let c = #[trigger] chunks(ls, max, cur)[i];
                &&& c.len() > 0
                &&& byte_len(c) <= max || one_line(c)
            },
    decreases ls.len(),
{
    if ls.len() > 0 {
        let l = ls[0];
        let rest = ls.drop_first();
        assert(!ls[0].contains('\n'));
        assert forall|i: int| 0 <= i < rest.len() implies !(#[trigger] rest[i]).contains('\n') by {
            assert(rest[i] == ls[i + 1]);
        }
        assert(l.push('\n').drop_last() =~= l);
        if byte_len(cur) + byte_len(l) + 1 > max && cur.len() > 0 {
            lemma_chunks_size(rest, max, l.push('\n'));
            let r = chunks(rest, max, l.push('\n'));
            assert forall|i: int| 0 <= i < chunks(ls, max, cur).len() implies {
                let c = #[trigger] chunks(ls, max, cur)[i];
                &&& c.len() > 0
                &&& byte_len(c) <= max || one_line(c)
            } by {
                if i > 0 {
                    assert(chunks(ls, max, cur)[i] == r[i - 1]);
                }
            }
        } else {
            let next = cur + l.push('\n');
            if cur.len() == 0 {
                assert(next =~= l.push('\n'));
            } else {
                lemma_byte_len_concat(cur, l.push('\n'));
                assert(byte_len(l.push('\n')) == byte_len(l) + 1) by {
                    assert(l.push('\n').drop_last() =~= l);
                }
            }
            lemma_chunks_size(rest, max, next);
            assert(chunks(ls, max, cur) == chunks(rest, max, next));
        }
    } else if cur.len() > 0 {
        assert(chunks(ls, max, cur) == seq![cur]);
        assert(seq![cur][0] == cur);
    }
}

/// No line of a text holds a line break.
proof fn lemma_lines_no_newline(s: Seq<char>)
    ensures
        forall|i: int| 0 <= i < lines(s).len() ==> !(#[trigger] lines(s)[i]).contains('\n'),
    decreases s.len(),
{
    if s.len() > 0 {
        lemma_index_of_bounds(s, '\n');
        let k = index_of(s, '\n');
        if k < s.len() {
            lemma_lines_no_newline(s.skip(k + 1 as int));
            let p = crate::text::strip_cr(s.take(k as int));
            assert forall|i: int| 0 <= i < lines(s).len() implies !(#[trigger] lines(s)[i]).contains(
                '\n',
            ) by {
                if i == 0 {
                    if p.contains('\n') {
                        let j = choose|j: int| 0 <= j < p.len() && p[j] == '\n';
                        assert(s[j] == '\n');
                    }
                } else {
                    assert(lines(s)[i] == lines(s.skip(k + 1 as int))[i - 1]);
                }
            }
        } else {
            if s.contains('\n') {
                let j = choose|j: int| 0 <= j < s.len() && s[j] == '\n';
                assert(s[j] == '\n');
            }
        }
    }
}

/// Cutting a text into chunks loses and reorders nothing: the chunks, one
/// after another, give the text back when it fits in `max` bytes, and
/// otherwise its lines, each followed by `\n`. No chunk is empty, and each
/// fits in `max` bytes unless it holds a single line that is longer.
pub proof fn law_split_text_keeps_text(text: Seq<char>, max: nat)
    ensures
        split_text_spec(text, max).flatten() == (if byte_len(text) <= max {
            text
        } else {
            joined_lines(lines(text))
        }),
        forall|i: int|
            0 <= i < split_text_spec(text, max).len() ==> {
                let c = #[trigger] split_text_spec(text, max)[i];
                &&& c.len() > 0 || text.len() == 0
                &&& byte_len(c) <= max || one_line(c)
            },
{
    if byte_len(text) <= max {
        lemma_flatten_cons(text, Seq::<Seq<char>>::empty());
        assert(text + Seq::<Seq<char>>::empty().flatten() =~= text);
    } else {
        lemma_chunks_flatten(lines(text), max, seq![]);
        assert(Seq::<char>::empty() + joined_lines(lines(text)) =~= joined_lines(lines(text)));
        lemma_lines_no_newline(text);
        lemma_chunks_size(lines(text), max, seq![]);
    }
}

} // verus!

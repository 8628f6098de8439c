//! Editing one card through a temporary text file.

use vstd::prelude::*;

use crate::cards::hash::{question_fingerprint, question_hash};
use crate::parser::continue_field;
use crate::text::{
    append_chars, chars_to_string, has_prefix, lemma_lines_concat, lemma_lines_one, lemma_split_concat,
    lemma_split_single, lemma_trim, lemma_trim_after_space, lemma_trim_before_newline, lines,
    lines_of, nonempty_trimmed, push_str, split, split_trimmed, split_trimmed_of, starts_with,
    str_chars, str_eq, trim, trim_chars,
};

verus! {

/// Which section of the edit file a line belongs to.
#[derive(Clone, Copy, PartialEq, Eq, Structural)]
pub enum Section {
    Preamble,
    Question,
    Answer,
    Tags,
}

/// What has been read of an edit file so far.
pub struct EditState {
    pub section: Section,
    pub question: Seq<char>,
    pub answer: Seq<char>,
    pub tags: Seq<Seq<char>>,
}

/// One line of an edit file: a `# 问题` / `# 答案` / `# 标签` heading switches
/// section; question and answer lines are joined with line breaks; tag lines
/// are split at `,`.
pub open spec fn edit_step(st: EditState, line: Seq<char>) -> EditState {
    if has_prefix(line, "# 问题"@) {
        EditState { section: Section::Question, ..st }
    } else if has_prefix(line, "# 答案"@) {
        EditState { section: Section::Answer, ..st }
    } else if has_prefix(line, "# 标签"@) {
        EditState { section: Section::Tags, ..st }
    } else {
        match st.section {
            Section::Question => EditState { question: continue_field(st.question, line), ..st },
            Section::Answer => EditState { answer: continue_field(st.answer, line), ..st },
            Section::Tags => EditState { tags: st.tags + split_trimmed(line, ','), ..st },
            Section::Preamble => st,
        }
    }
}

/// Nothing read yet.
pub open spec fn edit_start() -> EditState {
    EditState { section: Section::Preamble, question: seq![], answer: seq![], tags: seq![] }
}

/// The state after the lines `ls`, read from `st` on.
pub open spec fn edit_from(st: EditState, ls: Seq<Seq<char>>) -> EditState
    decreases ls.len(),
{
    if ls.len() == 0 {
        st
    } else {
        edit_step(edit_from(st, ls.drop_last()), ls.last())
    }
}

/// The state after the lines `ls` of a whole file.
pub open spec fn edit_state(ls: Seq<Seq<char>>) -> EditState {
    edit_from(edit_start(), ls)
}

/// Question, answer (both trimmed) and tags of an edit file.
pub open spec fn edited_card(content: Seq<char>) -> (Seq<char>, Seq<char>, Seq<Seq<char>>) {
    let st = edit_state(lines(content));
    (trim(st.question), trim(st.answer), st.tags)
}

fn continue_line(acc: &mut Vec<char>, line: &[char])
    ensures
        final(acc)@ == continue_field(old(acc)@, line@),
{
    if acc.len() > 0 {
        acc.push('\n');
    }
    append_chars(acc, line);
}

/// Reads back an edited card file.
pub fn parse_edited_content(content: &str) -> (r: (String, String, Vec<String>))
    ensures
        (r.0@, r.1@, r.2.deep_view()) == edited_card(content@),
{
    let chars = str_chars(content);
    let ls = lines_of(chars.as_slice());
    let ghost lv = ls.deep_view();
    let hq = str_chars("# 问题");
    let ha = str_chars("# 答案");
    let ht = str_chars("# 标签");
    let mut section = Section::Preamble;
    let mut question: Vec<char> = Vec::new();
    let mut answer: Vec<char> = Vec::new();
    let mut tags: Vec<String> = Vec::new();
    let mut i: usize = 0;
    assert(lv.take(0) =~= Seq::<Seq<char>>::empty());
    assert(tags.deep_view() =~= Seq::<Seq<char>>::empty());
    while i < ls.len()
        invariant
            i <= ls@.len(),
            lv == ls.deep_view(),
            hq@ == "# 问题"@,
            ha@ == "# 答案"@,
            ht@ == "# 标签"@,
            edit_state(lv.take(i as int)) == (EditState {
                section,
                question: question@,
                answer: answer@,
                tags: tags.deep_view(),
            }),
        decreases ls.len() - i,
    {
        let ghost pre = lv.take(i + 1);
        assert(pre.drop_last() =~= lv.take(i as int));
        assert(pre.last() == ls@[i as int].deep_view());
        assert(ls@[i as int].deep_view() =~= ls@[i as int]@);
        let line = ls[i].as_slice();
        if starts_with(line, hq.as_slice()) {
            section = Section::Question;
        } else if starts_with(line, ha.as_slice()) {
            section = Section::Answer;
        } else if starts_with(line, ht.as_slice()) {
            section = Section::Tags;
        } else {
            match section {
                Section::Question => continue_line(&mut question, line),
                Section::Answer => continue_line(&mut answer, line),
                Section::Tags => {
                    let more = split_trimmed_of(line, ',');
                    let ghost t0 = tags.deep_view();
                    append_strings(&mut tags, more);
                    assert(tags.deep_view() =~= t0 + split_trimmed(line@, ','));
                },
                Section::Preamble => {},
            }
        }
        i = i + 1;
    }
    assert(lv.take(ls@.len() as int) =~= lv);
    let q = trim_chars(question.as_slice());
    let a = trim_chars(answer.as_slice());
    (chars_to_string(q.as_slice()), chars_to_string(a.as_slice()), tags)
}

/// Appends `more` to `v`.
fn append_strings(v: &mut Vec<String>, more: Vec<String>)
    ensures
        final(v).deep_view() == old(v).deep_view() + more.deep_view(),
{
    let mut i: usize = 0;
    while i < more.len()
        invariant
            i <= more@.len(),
            v.deep_view() == old(v).deep_view() + more.deep_view().take(i as int),
        decreases more.len() - i,
    {
        let s = more[i].clone();
        let ghost v0 = v.deep_view();
        v.push(s);
        assert(v.deep_view() =~= v0.push(s@));
        i = i + 1;
        assert(v.deep_view() =~= old(v).deep_view() + more.deep_view().take(i as int));
    }
    assert(more.deep_view().take(more@.len() as int) =~= more.deep_view());
}

/// The temporary file a card is edited in.
pub open spec fn edit_file_text(question: Seq<char>, answer: Seq<char>, tags: Seq<Seq<char>>) -> Seq<
    char,
> {
    "# 问题\n"@ + question + "\n\n# 答案\n"@ + answer + "\n\n# 标签\n"@ + join_comma(tags) + "\n"@
}

/// `tags.join(", ")`.
pub open spec fn join_comma(tags: Seq<Seq<char>>) -> Seq<char>
    decreases tags.len(),
{
    if tags.len() == 0 {
        seq![]
    } else if tags.len() == 1 {
        tags[0]
    } else {
        join_comma(tags.drop_last()) + ", "@ + tags.last()
    }
}

/// Joins strings with `", "`.
pub fn join_with_comma(tags: &Vec<String>) -> (r: Vec<char>)
    ensures
        r@ == join_comma(tags.deep_view()),
{
    let mut out: Vec<char> = Vec::new();
    let mut i: usize = 0;
    assert(tags.deep_view().take(0) =~= Seq::<Seq<char>>::empty());
    while i < tags.len()
        invariant
            i <= tags@.len(),
            out@ == join_comma(tags.deep_view().take(i as int)),
        decreases tags.len() - i,
    {
        let ghost pre = tags.deep_view().take(i + 1);
        assert(pre.drop_last() =~= tags.deep_view().take(i as int));
        if i > 0 {
            push_str(&mut out, ", ");
        }
        let t = str_chars(tags[i].as_str());
        append_chars(&mut out, t.as_slice());
        i = i + 1;
    }
    assert(tags.deep_view().take(tags@.len() as int) =~= tags.deep_view());
    out
}

/// Writes out a card for editing.
pub fn edit_file_content(question: &str, answer: &str, tags: &Vec<String>) -> (r: String)
    ensures
        r@ == edit_file_text(question@, answer@, tags.deep_view()),
{
    let mut out: Vec<char> = Vec::new();
    push_str(&mut out, "# 问题\n");
    push_str(&mut out, question);
    push_str(&mut out, "\n\n# 答案\n");
    push_str(&mut out, answer);
    push_str(&mut out, "\n\n# 标签\n");
    let j = join_with_comma(tags);
    append_chars(&mut out, j.as_slice());
    push_str(&mut out, "\n");
    chars_to_string(out.as_slice())
}


// ===== Saving the edit file unchanged gives the card back =====

/// Whether a line of an edit file is one of its three section headings.
pub open spec fn is_heading(line: Seq<char>) -> bool {
    has_prefix(line, "# 问题"@) || has_prefix(line, "# 答案"@) || has_prefix(line, "# 标签"@)
}

/// A question or answer that an edit file carries through unchanged: already
/// trimmed, without carriage returns, and with no line that reads as a
/// section heading.
pub open spec fn section_text_ok(t: Seq<char>) -> bool {
    &&& trim(t) == t
    &&& !t.contains('\r')
    &&& forall|i: int| 0 <= i < split(t, '\n').len() ==> !is_heading(#[trigger] split(t, '\n')[i])
}

/// A tag that the comma-separated tag line carries through unchanged.
pub open spec fn tag_ok(t: Seq<char>) -> bool {
    &&& t.len() > 0
    &&& trim(t) == t
    &&& !t.contains(',')
    &&& !t.contains('\n')
}

/// Sets the question or the answer.
pub open spec fn with_field(st: EditState, s: Section, v: Seq<char>) -> EditState {
    if s == Section::Question {
        EditState { question: v, ..st }
    } else {
        EditState { answer: v, ..st }
    }
}

/// The question or the answer.
pub open spec fn field_of(st: EditState, s: Section) -> Seq<char> {
    if s == Section::Question {
        st.question
    } else {
        st.answer
    }
}

proof fn lemma_edit_from_concat(st: EditState, l1: Seq<Seq<char>>, l2: Seq<Seq<char>>)
    ensures
        edit_from(st, l1 + l2) == edit_from(edit_from(st, l1), l2),
    decreases l2.len(),
{
    if l2.len() == 0 {
        assert(l1 + l2 =~= l1);
    } else {
        assert((l1 + l2).drop_last() =~= l1 + l2.drop_last());
        assert((l1 + l2).last() == l2.last());
        lemma_edit_from_concat(st, l1, l2.drop_last());
    }
}

proof fn lemma_edit_one(st: EditState, line: Seq<char>)
    ensures
        edit_from(st, seq![line]) == edit_step(st, line),
{
    assert(seq![line].drop_last() =~= Seq::<Seq<char>>::empty());
    assert(edit_from(st, seq![line].drop_last()) == st);
    assert(seq![line].last() == line);
}

/// The three headings, told apart, and free of line ends.
proof fn lemma_headings()
    ensures
        has_prefix("# 问题"@, "# 问题"@),
        has_prefix("# 答案"@, "# 答案"@),
        has_prefix("# 标签"@, "# 标签"@),
        !has_prefix("# 答案"@, "# 问题"@),
        !has_prefix("# 标签"@, "# 问题"@),
        !has_prefix("# 标签"@, "# 答案"@),
        !is_heading(Seq::<char>::empty()),
        !"# 问题"@.contains('\r') && !"# 问题"@.contains('\n'),
        !"# 答案"@.contains('\r') && !"# 答案"@.contains('\n'),
        !"# 标签"@.contains('\r') && !"# 标签"@.contains('\n'),
{
    reveal_strlit("# 问题");
    reveal_strlit("# 答案");
    reveal_strlit("# 标签");
    let h1 = "# 问题"@;
    let h2 = "# 答案"@;
    let h3 = "# 标签"@;
    assert(h1.take(h1.len() as int) =~= h1);
    assert(h2.take(h2.len() as int) =~= h2);
    assert(h3.take(h3.len() as int) =~= h3);
    assert(h2.take(4)[2] != h1[2]);
    assert(h3.take(4)[2] != h1[2]);
    assert(h3.take(4)[2] != h2[2]);
    assert forall|x: int| 0 <= x < 4 implies h1[x] != '\r' && h1[x] != '\n' && h2[x] != '\r'
        && h2[x] != '\n' && h3[x] != '\r' && h3[x] != '\n' by {}
}

/// The lines of `t`, read inside the question or answer section, join back
/// into `t` after what that field held.
proof fn lemma_edit_field_lines(st: EditState, s: Section, t: Seq<char>)
    requires
        st.section == s,
        s == Section::Question || s == Section::Answer,
        forall|i: int| 0 <= i < split(t, '\n').len() ==> !is_heading(#[trigger] split(t, '\n')[i]),
        field_of(st, s).len() > 0 || t.len() == 0 || t[0] != '\n',
    ensures
        edit_from(st, split(t, '\n')) == with_field(
            st,
            s,
            if field_of(st, s).len() == 0 {
                t
            } else {
                field_of(st, s).push('\n') + t
            },
        ),
    decreases t.len(),
{
    crate::text::lemma_index_of_bounds(t, '\n');
    let k = crate::text::index_of(t, '\n');
    let p = t.take(k as int);
    assert(!is_heading(split(t, '\n')[0]));
    if k < t.len() {
        let r = t.skip(k + 1 as int);
        assert(split(t, '\n') =~= seq![p] + split(r, '\n'));
        lemma_edit_from_concat(st, seq![p], split(r, '\n'));
        lemma_edit_one(st, p);
        let st1 = edit_step(st, p);
        assert(st1 == with_field(st, s, crate::parser::continue_field(field_of(st, s), p)));
        if field_of(st, s).len() == 0 {
            assert(k > 0);
        }
        assert forall|i: int| 0 <= i < split(r, '\n').len() implies !is_heading(
            #[trigger] split(r, '\n')[i],
        ) by {
            assert(split(r, '\n')[i] == split(t, '\n')[i + 1]);
        }
        lemma_edit_field_lines(st1, s, r);
        assert(t =~= p.push('\n') + r);
        if field_of(st, s).len() > 0 {
            assert(field_of(st, s).push('\n') + p.push('\n') + r =~= field_of(st, s).push('\n') + t);
        }
    } else {
        assert(split(t, '\n') == seq![t]);
        lemma_edit_one(st, t);
    }
}

/// `split_trimmed` undoes `join_comma` on tags that need no trimming.
proof fn lemma_tags_roundtrip(tags: Seq<Seq<char>>)
    requires
        forall|i: int| 0 <= i < tags.len() ==> tag_ok(#[trigger] tags[i]),
    ensures
        split_trimmed(join_comma(tags), ',') == tags,
        !join_comma(tags).contains('\n'),
    decreases tags.len(),
{
    reveal_strlit(", ");
    if tags.len() == 0 {
        lemma_split_single(Seq::<char>::empty(), ',');
        let e = Seq::<char>::empty();
        assert(seq![e].drop_last() =~= Seq::<Seq<char>>::empty());
        assert(seq![e].last() == e);
        assert(trim(e) == e);
        assert(nonempty_trimmed(Seq::<Seq<char>>::empty()) == Seq::<Seq<char>>::empty());
        assert(nonempty_trimmed(seq![e]) =~= Seq::<Seq<char>>::empty());
    } else if tags.len() == 1 {
        let t = tags[0];
        assert(tag_ok(t));
        lemma_split_single(t, ',');
        assert(seq![t].drop_last() =~= Seq::<Seq<char>>::empty());
        assert(seq![t].last() == t);
        assert(nonempty_trimmed(Seq::<Seq<char>>::empty()) == Seq::<Seq<char>>::empty());
        assert(nonempty_trimmed(seq![t]) =~= seq![t]);
        assert(seq![t] =~= tags);
    } else {
        let pre = tags.drop_last();
        let t = tags.last();
        assert(tag_ok(tags[tags.len() - 1]));
        assert forall|i: int| 0 <= i < pre.len() implies tag_ok(#[trigger] pre[i]) by {
            assert(pre[i] == tags[i]);
        }
        lemma_tags_roundtrip(pre);
        let jp = join_comma(pre);
        let st = seq![' '] + t;
        assert(join_comma(tags) =~= jp + seq![','] + st);
        lemma_split_concat(jp, st, ',');
        if st.contains(',') {
            let j = choose|j: int| 0 <= j < st.len() && st[j] == ',';
            assert(t[j - 1] == ',');
        }
        lemma_split_single(st, ',');
        let parts = split(jp, ',') + seq![st];
        assert(parts.drop_last() =~= split(jp, ','));
        lemma_trim_after_space(t);
        assert(nonempty_trimmed(parts) == pre.push(t));
        assert(pre.push(t) =~= tags);
        let j = join_comma(tags);
        if j.contains('\n') {
            let x = choose|x: int| 0 <= x < j.len() && j[x] == '\n';
            if x < jp.len() {
                assert(jp[x] == '\n');
            } else if x > jp.len() + 1 {
                assert(t[x - jp.len() - 2] == '\n');
            }
        }
    }
}

/// The tag line ends with the last character of the last tag.
proof fn lemma_join_comma_last(tags: Seq<Seq<char>>)
    requires
        forall|i: int| 0 <= i < tags.len() ==> tag_ok(#[trigger] tags[i]),
    ensures
        join_comma(tags).len() > 0 ==> !crate::text::is_ws(join_comma(tags).last()),
{
    if tags.len() > 0 {
        let t = tags.last();
        assert(tag_ok(tags[tags.len() - 1]));
        lemma_trim(t);
        if tags.len() > 1 {
            assert(join_comma(tags).last() == t.last());
        }
    }
}

/// The lines of an edit file: heading, question lines, a blank line, and so
/// on down to the tag line.
proof fn lemma_edit_file_lines(question: Seq<char>, answer: Seq<char>, tags: Seq<Seq<char>>)
    requires
        !question.contains('\r'),
        !answer.contains('\r'),
        !join_comma(tags).contains('\n'),
        join_comma(tags).len() == 0 || join_comma(tags).last() != '\r',
    ensures
        lines(edit_file_text(question, answer, tags)) == seq!["# 问题"@] + (split(question, '\n') + (
        seq![Seq::<char>::empty()] + (seq!["# 答案"@] + (split(answer, '\n') + (seq![
            Seq::<char>::empty(),
        ] + (seq!["# 标签"@] + seq![join_comma(tags)])))))),
{
    reveal_strlit("# 问题\n");
    reveal_strlit("\n\n# 答案\n");
    reveal_strlit("\n\n# 标签\n");
    reveal_strlit("\n");
    reveal_strlit("# 问题");
    reveal_strlit("# 答案");
    reveal_strlit("# 标签");
    lemma_headings();
    let h1 = "# 问题"@;
    let h2 = "# 答案"@;
    let h3 = "# 标签"@;
    let e = Seq::<char>::empty();
    let nl = seq!['\n'];
    let j = join_comma(tags);
    let r8 = j + nl + e;
    let r7 = h3 + nl + r8;
    let r6 = e + nl + r7;
    let r5 = answer + nl + r6;
    let r4 = h2 + nl + r5;
    let r3 = e + nl + r4;
    let r2 = question + nl + r3;
    let r1 = h1 + nl + r2;
    assert(edit_file_text(question, answer, tags) =~= r1);
    assert(!e.contains('\r') && !e.contains('\n'));
    lemma_lines_concat(h1, r2);
    lemma_lines_concat(question, r3);
    lemma_lines_concat(e, r4);
    lemma_lines_concat(h2, r5);
    lemma_lines_concat(answer, r6);
    lemma_lines_concat(e, r7);
    lemma_lines_concat(h3, r8);
    lemma_lines_one(j, e);
    assert(crate::text::strip_cr(j) == j);
    lemma_split_single(h1, '\n');
    lemma_split_single(h2, '\n');
    lemma_split_single(h3, '\n');
    lemma_split_single(e, '\n');
    assert(lines(e) == Seq::<Seq<char>>::empty());
}

/// Opening a card in the editor and saving without a change gives the same
/// question, answer and tags back, so the card, and its schedule, stay as
/// they were. This holds for questions and answers that are trimmed, have no
/// carriage return and no line that reads as a section heading, and for
/// tags that are non-empty, trimmed and free of commas and line feeds, on a
/// tag line that does not itself read as a heading.
#[verifier::rlimit(40)]
pub proof fn law_edit_roundtrip(question: Seq<char>, answer: Seq<char>, tags: Seq<Seq<char>>)
    requires
        section_text_ok(question),
        section_text_ok(answer),
        forall|i: int| 0 <= i < tags.len() ==> tag_ok(#[trigger] tags[i]),
        !is_heading(join_comma(tags)),
    ensures
        edited_card(edit_file_text(question, answer, tags)) == (question, answer, tags),
{
    lemma_headings();
    let h1 = "# 问题"@;
    let h2 = "# 答案"@;
    let h3 = "# 标签"@;
    let e = Seq::<char>::empty();
    let j = join_comma(tags);
    lemma_tags_roundtrip(tags);
    lemma_join_comma_last(tags);
    lemma_edit_file_lines(question, answer, tags);
    let lq = split(question, '\n');
    let la = split(answer, '\n');
    let tail = seq![e] + (seq![h3] + seq![j]);
    let mid = seq![e] + (seq![h2] + (la + tail));
    // Walk through the file, section by section.
    let st0 = edit_start();
    lemma_edit_from_concat(st0, seq![h1], lq + mid);
    lemma_edit_one(st0, h1);
    let st1 = edit_step(st0, h1);
    assert(st1.section == Section::Question && st1.question.len() == 0);
    lemma_edit_from_concat(st1, lq, mid);
    lemma_trim(question);
    if question.len() > 0 {
        assert(!crate::text::is_ws(question[0]));
    }
    lemma_edit_field_lines(st1, Section::Question, question);
    let st2 = edit_from(st1, lq);
    assert(st2.question == question && st2.section == Section::Question);
    lemma_edit_from_concat(st2, seq![e], seq![h2] + (la + tail));
    lemma_edit_one(st2, e);
    let st3 = edit_step(st2, e);
    assert(st3.question == crate::parser::continue_field(question, e));
    lemma_edit_from_concat(st3, seq![h2], la + tail);
    lemma_edit_one(st3, h2);
    let st4 = edit_step(st3, h2);
    assert(st4.section == Section::Answer && st4.answer.len() == 0);
    lemma_edit_from_concat(st4, la, tail);
    lemma_trim(answer);
    if answer.len() > 0 {
        assert(!crate::text::is_ws(answer[0]));
    }
    lemma_edit_field_lines(st4, Section::Answer, answer);
    let st5 = edit_from(st4, la);
    assert(st5.answer == answer && st5.question == st3.question && st5.section == Section::Answer);
    lemma_edit_from_concat(st5, seq![e], seq![h3] + seq![j]);
    lemma_edit_one(st5, e);
    let st6 = edit_step(st5, e);
    lemma_edit_from_concat(st6, seq![h3], seq![j]);
    lemma_edit_one(st6, h3);
    let st7 = edit_step(st6, h3);
    assert(st7.section == Section::Tags && st7.tags.len() == 0);
    lemma_edit_one(st7, j);
    let st8 = edit_step(st7, j);
    assert(st8.tags =~= tags);
    if question.len() > 0 {
        assert(st8.question == question.push('\n') + e);
        assert(question.push('\n') + e =~= question.push('\n'));
        lemma_trim_before_newline(question);
    } else {
        assert(st8.question =~= e);
    }
    if answer.len() > 0 {
        assert(st8.answer == answer.push('\n') + e);
        assert(answer.push('\n') + e =~= answer.push('\n'));
        lemma_trim_before_newline(answer);
    } else {
        assert(st8.answer =~= e);
    }
}

/// Why an edited card is refused.
#[derive(Debug, Clone, Copy, PartialEq, Eq, Structural)]
pub enum EditError {
    /// The question section came back empty.
    EmptyQuestion,
}

impl EditError {
    /// The message shown for this error.
    pub fn message(&self) -> (r: String)
        ensures
            r@ == "问题不能为空"@,
    {
        let mut out: Vec<char> = Vec::new();
        push_str(&mut out, "问题不能为空");
        chars_to_string(out.as_slice())
    }
}

/// A card as it comes back from the editor.
pub struct EditedCard {
    pub question: String,
    pub answer: String,
    pub tags: Vec<String>,
    /// The fingerprint of the new question.
    pub question_hash: String,
    /// Whether the question changed, so that the schedule starts afresh.
    pub reset_schedule: bool,
}

/// Reads back the edit file of a card whose question had the fingerprint
/// `old_question_hash`. An empty question is refused; otherwise the card
/// takes the new question, answer and tags, and its schedule is reset
/// exactly when the question's fingerprint changed.
pub fn apply_edit(old_question_hash: &str, edited: &str) -> (r: Result<EditedCard, EditError>)
    ensures
        r is Err <==> edited_card(edited@).0.len() == 0,
        r matches Err(e) ==> e == EditError::EmptyQuestion,
        r matches Ok(c) ==> {
            &&& (c.question@, c.answer@, c.tags.deep_view()) == edited_card(edited@)
            &&& c.question_hash@ == question_fingerprint(c.question@)
            &&& c.reset_schedule == (c.question_hash@ != old_question_hash@)
        },
{
    let (question, answer, tags) = parse_edited_content(edited);
    if question.as_str().is_empty() {
        return Err(EditError::EmptyQuestion);
    }
    let h = question_hash(question.as_str());
    let same = str_eq(h.as_str(), old_question_hash);
    Ok(EditedCard { question, answer, tags, question_hash: h, reset_schedule: !same })
}

/// Saving the edit file of a stored card without a change keeps its
/// schedule: the question comes back non-empty with the fingerprint it was
/// stored under (on the cards that `law_edit_roundtrip` speaks of).
pub proof fn law_unchanged_edit_keeps_schedule(
    question: Seq<char>,
    answer: Seq<char>,
    tags: Seq<Seq<char>>,
)
    requires
        question.len() > 0,
        section_text_ok(question),
        section_text_ok(answer),
        forall|i: int| 0 <= i < tags.len() ==> tag_ok(#[trigger] tags[i]),
        !is_heading(join_comma(tags)),
    ensures
        edited_card(edit_file_text(question, answer, tags)).0.len() > 0,
        question_fingerprint(edited_card(edit_file_text(question, answer, tags)).0)
            == question_fingerprint(question),
{
    law_edit_roundtrip(question, answer, tags);
}

} // verus!

//! A small Markdown-to-terminal renderer: headings, emphasis, inline code,
//! lists, quotes, code blocks and links become ANSI-styled plain text.

use ansi_term::{Colour, Style};
use vstd::prelude::*;

use crate::ai::generate::joined_lines;
use crate::text::{
    append_chars, chars_to_string, copy_range, has_prefix, index_of, lemma_index_of,
    lemma_index_of_bounds, lemma_lines_one, lines, lines_of, seq_eq, starts_with, str_chars,
    strip_cr, trim_start, trim_start_chars,
};

verus! {

/// The terminal styles the renderer uses.
#[derive(Clone, Copy, PartialEq, Eq, Structural)]
pub enum Paint {
    Bold,
    Dimmed,
    Italic,
    Yellow,
    CyanBold,
}

/// The SGR parameters of a style.
pub open spec fn paint_code(p: Paint) -> Seq<char> {
    match p {
        Paint::Bold => "1"@,
        Paint::Dimmed => "2"@,
        Paint::Italic => "3"@,
        Paint::Yellow => "33"@,
        Paint::CyanBold => "1;36"@,
    }
}

/// `text` wrapped in the escape sequence that starts style `p` and the one that resets it.
pub open spec fn painted(p: Paint, text: Seq<char>) -> Seq<char> {
    "\x1b["@ + paint_code(p) + "m"@ + text + "\x1b[0m"@
}

/// Paints `text` with `ansi_term` (`Style::bold`, `Style::dimmed`,
/// `Style::italic`, `Colour::Yellow.normal()`, `Colour::Cyan.bold()`, then
/// `Style::paint` and `to_string`). As the crate's `write_prefix` and
/// `write_suffix` show, a non-plain style writes `ESC [`, its codes joined by
/// `;` (bold 1, dimmed 2, italic 3, then the foreground colour), `m`, the text,
/// and `ESC [0m`.
#[verifier::external_body]
fn paint(p: Paint, text: &str) -> (r: String)
    ensures
        r@ == painted(p, text@),
{
    let style = match p {
        Paint::Bold => Style::new().bold(),
        Paint::Dimmed => Style::new().dimmed(),
        Paint::Italic => Style::new().italic(),
        Paint::Yellow => Colour::Yellow.normal(),
        Paint::CyanBold => Colour::Cyan.bold(),
    };
    style.paint(text).to_string()
}

fn paint_chars(out: &mut Vec<char>, p: Paint, text: &[char])
    ensures
        final(out)@ == old(out)@ + painted(p, text@),
{
    let s = chars_to_string(text);
    let r = paint(p, s.as_str());
    let rc = str_chars(r.as_str());
    append_chars(out, rc.as_slice());
}

/// Position of the first `c` in `s`, if any.
pub open spec fn find_spec(s: Seq<char>, c: char) -> Option<nat> {
    if index_of(s, c) < s.len() {
        Some(index_of(s, c))
    } else {
        None
    }
}

/// Position of the first `*` in `s` that is directly followed by another `*`.
pub open spec fn double_star_spec(s: Seq<char>) -> Option<nat>
    decreases s.len(),
{
    if s.len() < 2 {
        None
    } else if s[0] == '*' && s[1] == '*' {
        Some(0)
    } else {
        match double_star_spec(s.drop_first()) {
            Some(k) => Some(k + 1),
            None => None,
        }
    }
}

/// A link `[text](url)` at the start of `s`: its text and how many characters it spans.
pub open spec fn link_spec(s: Seq<char>) -> Option<(Seq<char>, nat)> {
    let cb = index_of(s, ']');
    if cb >= s.len() || cb == 0 {
        None
    } else if cb + 1 >= s.len() || s[(cb + 1) as int] != '(' {
        None
    } else {
        let rest = s.skip((cb + 2) as int);
        let cp = index_of(rest, ')');
        if cp >= rest.len() {
            None
        } else {
            Some((s.subrange(1, cb as int), cp + cb + 3))
        }
    }
}

/// Inline rendering of `s`: `` `code` `` in yellow with a space on each side,
/// links reduced to their text, `**bold**`, `*italic*`; everything else as is.
pub open spec fn inline_spec(s: Seq<char>) -> Seq<char>
    decreases s.len(),
{
    if s.len() == 0 {
        seq![]
    } else {
        let c = s[0];
        let t = s.drop_first();
        if c == '`' && find_spec(t, '`') is Some {
            let e = find_spec(t, '`').unwrap();
            painted(Paint::Yellow, seq![' '] + t.take(e as int) + seq![' '])
                + inline_spec(s.skip((e + 2) as int))
        } else if c == '[' && link_spec(s) is Some {
            let (text, n) = link_spec(s).unwrap();
            text + inline_spec(s.skip(n as int))
        } else if c == '*' && s.len() > 1 && s[1] == '*' && double_star_spec(s.skip(2)) is Some {
            let e = double_star_spec(s.skip(2)).unwrap();
            proof {
                lemma_double_star_bound(s.skip(2));
            }
            painted(Paint::Bold, s.subrange(2, (e + 2) as int)) + inline_spec(s.skip((e + 4) as int))
        } else if c == '*' && find_spec(t, '*') is Some && find_spec(t, '*').unwrap() > 0 {
            let e = find_spec(t, '*').unwrap();
            painted(Paint::Italic, t.take(e as int)) + inline_spec(s.skip((e + 2) as int))
        } else {
            seq![c] + inline_spec(t)
        }
    }
}

/// The first `c` in `chars`.
pub fn find_char(chars: &[char], target: char) -> (r: Option<usize>)
    ensures
        r matches Some(k) ==> find_spec(chars@, target) == Some(k as nat) && k < chars@.len(),
        r is None ==> find_spec(chars@, target) is None,
{
    let mut i: usize = 0;
    while i < chars.len()
        invariant
            i <= chars@.len(),
            forall|j: int| 0 <= j < i ==> chars@[j] != target,
        decreases chars.len() - i,
    {
        if chars[i] == target {
            proof {
                crate::text::lemma_index_of(chars@, target, i as int);
            }
            return Some(i);
        }
        i = i + 1;
    }
    proof {
        crate::text::lemma_index_of(chars@, target, chars@.len() as int);
    }
    None
}

/// Whether `s[j]` and `s[j + 1]` are both `*`.
pub open spec fn is_double_star(s: Seq<char>, j: int) -> bool {
    s[j] == '*' && s[j + 1] == '*'
}

/// A `**` found lies within the text.
pub proof fn lemma_double_star_bound(s: Seq<char>)
    ensures
        double_star_spec(s) matches Some(k) ==> k + 1 < s.len(),
    decreases s.len(),
{
    if s.len() >= 2 {
        lemma_double_star_bound(s.drop_first());
    }
}

proof fn lemma_double_star(s: Seq<char>, k: int)
    requires
        0 <= k,
        k + 1 < s.len(),
        s[k] == '*' && s[k + 1] == '*',
        forall|j: int| 0 <= j < k ==> !is_double_star(s, j),
    ensures
        double_star_spec(s) == Some(k as nat),
    decreases k,
{
    if k > 0 {
        let t = s.drop_first();
        assert forall|j: int| 0 <= j < k - 1 implies !is_double_star(t, j) by {
            assert(t[j] == s[j + 1] && t[j + 1] == s[j + 2]);
            assert(!is_double_star(s, j + 1));
        }
        assert(!is_double_star(s, 0));
        lemma_double_star(t, k - 1);
    }
}

proof fn lemma_no_double_star(s: Seq<char>)
    requires
        forall|j: int| 0 <= j && j + 1 < s.len() ==> !is_double_star(s, j),
    ensures
        double_star_spec(s) is None,
    decreases s.len(),
{
    if s.len() >= 2 {
        let t = s.drop_first();
        assert forall|j: int| 0 <= j && j + 1 < t.len() implies !is_double_star(t, j) by {
            assert(t[j] == s[j + 1] && t[j + 1] == s[j + 2]);
            assert(!is_double_star(s, j + 1));
        }
        assert(!is_double_star(s, 0));
        lemma_no_double_star(t);
    }
}

/// The first `**` in `chars`.
pub fn find_double_star(chars: &[char]) -> (r: Option<usize>)
    ensures
        r matches Some(k) ==> double_star_spec(chars@) == Some(k as nat) && k + 1 < chars@.len(),
        r is None ==> double_star_spec(chars@) is None,
{
    let mut i: usize = 0;
    while i < chars.len() && chars.len() - i > 1
        invariant
            forall|j: int| 0 <= j < i && j + 1 < chars@.len() ==> !is_double_star(chars@, j),
            i <= chars@.len(),
        decreases chars.len() - i,
    {
        if chars[i] == '*' && chars[i + 1] == '*' {
            proof {
                lemma_double_star(chars@, i as int);
            }
            return Some(i);
        }
        i = i + 1;
    }
    proof {
        lemma_no_double_star(chars@);
    }
    None
}

/// A link `[text](url)` at the start of `chars`: its text and length.
pub fn try_parse_link(chars: &[char]) -> (r: Option<(Vec<char>, usize)>)
    ensures
        match link_spec(chars@) {
            Some((t, n)) => r matches Some((v, m)) && v@ == t && m == n && 0 < m <= chars@.len(),
            None => r is None,
        },
{
    let n = chars.len();
    let close_bracket = match find_char(chars, ']') {
        Some(k) => k,
        None => return None,
    };
    if close_bracket == 0 {
        return None;
    }
    let after = close_bracket + 1;
    if after >= chars.len() || chars[after] != '(' {
        return None;
    }
    let rest = copy_range(chars, after + 1, chars.len());
    assert(rest@ =~= chars@.skip(close_bracket + 2));
    let close_paren = match find_char(rest.as_slice(), ')') {
        Some(k) => k,
        None => return None,
    };
    let text = copy_range(chars, 1, close_bracket);
    proof {
        lemma_index_of_bounds(rest@, ')');
    }
    assert(close_paren < rest@.len());
    Some((text, close_paren + after + 2))
}

/// One step of inline rendering at `text[i..]`: the output piece and where the next step starts.
fn inline_step(text: &[char], i: usize) -> (r: (Vec<char>, usize))
    requires
        i < text@.len(),
    ensures
        i < r.1 <= text@.len(),
        inline_spec(text@.skip(i as int)) == r.0@ + inline_spec(text@.skip(r.1 as int)),
{
    let n = text.len();
    let ghost s = text@.skip(i as int);
    let rest = copy_range(text, i, n);
    assert(rest@ =~= s);
    let tail = copy_range(text, i + 1, n);
    assert(tail@ =~= s.drop_first());
    let c = text[i];
    let mut out: Vec<char> = Vec::new();
    if c == '`' {
        if let Some(end) = find_char(tail.as_slice(), '`') {
            let mut inner: Vec<char> = Vec::new();
            inner.push(' ');
            let body = copy_range(tail.as_slice(), 0, end);
            append_chars(&mut inner, body.as_slice());
            inner.push(' ');
            assert(inner@ =~= seq![' '] + s.drop_first().take(end as int) + seq![' ']);
            paint_chars(&mut out, Paint::Yellow, inner.as_slice());
            assert(s.skip(end + 2) =~= text@.skip(i + end + 2));
            assert(out@ =~= Seq::<char>::empty() + painted(Paint::Yellow, inner@));
            return (out, i + end + 2);
        }
    }
    if c == '[' {
        if let Some((t, consumed)) = try_parse_link(rest.as_slice()) {
            append_chars(&mut out, t.as_slice());
            assert(s.skip(consumed as int) =~= text@.skip(i + consumed));
            assert(out@ =~= t@);
            return (out, i + consumed);
        }
    }
    if c == '*' && i + 1 < n && text[i + 1] == '*' {
        let after = copy_range(text, i + 2, n);
        assert(after@ =~= s.skip(2));
        if let Some(end) = find_double_star(after.as_slice()) {
            let body = copy_range(after.as_slice(), 0, end);
            assert(body@ =~= s.subrange(2, end + 2));
            paint_chars(&mut out, Paint::Bold, body.as_slice());
            assert(s.skip(end + 4) =~= text@.skip(i + end + 4));
            assert(out@ =~= Seq::<char>::empty() + painted(Paint::Bold, body@));
            return (out, i + end + 4);
        }
    }
    if c == '*' {
        if let Some(end) = find_char(tail.as_slice(), '*') {
            if end > 0 {
                let body = copy_range(tail.as_slice(), 0, end);
                assert(body@ =~= s.drop_first().take(end as int));
                paint_chars(&mut out, Paint::Italic, body.as_slice());
                assert(s.skip(end + 2) =~= text@.skip(i + end + 2));
                assert(out@ =~= Seq::<char>::empty() + painted(Paint::Italic, body@));
                return (out, i + end + 2);
            }
        }
    }
    out.push(c);
    assert(s.drop_first() =~= text@.skip(i + 1));
    assert(out@ =~= seq![c]);
    (out, i + 1)
}

/// Inline rendering of `text` (`inline_spec`).
pub fn render_inline(text: &[char]) -> (r: Vec<char>)
    ensures
        r@ == inline_spec(text@),
{
    let n = text.len();
    let mut out: Vec<char> = Vec::new();
    let mut i: usize = 0;
    assert(text@.skip(0) =~= text@);
    while i < n
        invariant
            i <= n == text@.len(),
            inline_spec(text@) == out@ + inline_spec(text@.skip(i as int)),
        decreases n - i,
    {
        let (piece, next) = inline_step(text, i);
        let ghost o0 = out@;
        append_chars(&mut out, piece.as_slice());
        assert(out@ + inline_spec(text@.skip(next as int)) =~= o0 + inline_spec(text@.skip(i as int)));
        i = next;
    }
    assert(out@ + inline_spec(text@.skip(n as int)) =~= out@);
    out
}

/// A heading line (`# `, `## ` or `### `) without its marker.
pub open spec fn header_spec(s: Seq<char>) -> Option<Seq<char>> {
    if has_prefix(s, "### "@) {
        Some(s.skip("### "@.len() as int))
    } else if has_prefix(s, "## "@) {
        Some(s.skip("## "@.len() as int))
    } else if has_prefix(s, "# "@) {
        Some(s.skip("# "@.len() as int))
    } else {
        None
    }
}

/// A list item (`- ` or `* `) without its marker.
pub open spec fn list_spec(s: Seq<char>) -> Option<Seq<char>> {
    if has_prefix(s, "- "@) {
        Some(s.skip("- "@.len() as int))
    } else if has_prefix(s, "* "@) {
        Some(s.skip("* "@.len() as int))
    } else {
        None
    }
}

/// One rendered line outside code blocks: headings in bold cyan, quotes dimmed
/// behind a bar, list items behind a bullet, anything else inline-rendered.
pub open spec fn line_spec(line: Seq<char>) -> Seq<char> {
    let t = trim_start(line);
    if header_spec(t) is Some {
        painted(Paint::CyanBold, header_spec(t).unwrap())
    } else if has_prefix(t, "> "@) {
        painted(Paint::Dimmed, "│ "@ + t.skip("> "@.len() as int))
    } else if t == ">"@ {
        painted(Paint::Dimmed, "│"@)
    } else if list_spec(t) is Some {
        "  • "@ + inline_spec(list_spec(t).unwrap())
    } else {
        inline_spec(line)
    }
}

/// Whether a line opens or closes a code block.
pub open spec fn is_fence(line: Seq<char>) -> bool {
    has_prefix(trim_start(line), "```"@)
}

/// The rendering of `ls`, each line followed by `\n`; fence lines and code
/// block lines are dimmed as they are.
pub open spec fn render_lines(ls: Seq<Seq<char>>, in_code: bool) -> Seq<char>
    decreases ls.len(),
{
    if ls.len() == 0 {
        seq![]
    } else {
        let l = ls[0];
        if is_fence(l) {
            painted(Paint::Dimmed, l).push('\n') + render_lines(ls.drop_first(), !in_code)
        } else if in_code {
            painted(Paint::Dimmed, l).push('\n') + render_lines(ls.drop_first(), in_code)
        } else {
            line_spec(l).push('\n') + render_lines(ls.drop_first(), in_code)
        }
    }
}

/// The rendering of a text: its lines rendered, without the final line break.
pub open spec fn render_spec(text: Seq<char>) -> Seq<char> {
    let o = render_lines(lines(text), false);
    if o.len() > 0 && o.last() == '\n' {
        o.drop_last()
    } else {
        o
    }
}

fn strip_prefix_of(s: &[char], p: &str) -> (r: Option<Vec<char>>)
    ensures
        has_prefix(s@, p@) ==> (r matches Some(v) && v@ == s@.skip(p@.len() as int)),
        !has_prefix(s@, p@) ==> r is None,
{
    let pc = str_chars(p);
    if starts_with(s, pc.as_slice()) {
        let v = copy_range(s, pc.len(), s.len());
        assert(v@ =~= s@.skip(p@.len() as int));
        Some(v)
    } else {
        None
    }
}

/// A heading line without its marker.
pub fn strip_header(s: &[char]) -> (r: Option<Vec<char>>)
    ensures
        match header_spec(s@) {
            Some(h) => r matches Some(v) && v@ == h,
            None => r is None,
        },
{
    if let Some(v) = strip_prefix_of(s, "### ") {
        Some(v)
    } else if let Some(v) = strip_prefix_of(s, "## ") {
        Some(v)
    } else if let Some(v) = strip_prefix_of(s, "# ") {
        Some(v)
    } else {
        None
    }
}

/// A list item without its marker.
pub fn strip_list_marker(s: &[char]) -> (r: Option<Vec<char>>)
    ensures
        match list_spec(s@) {
            Some(h) => r matches Some(v) && v@ == h,
            None => r is None,
        },
{
    if let Some(v) = strip_prefix_of(s, "- ") {
        Some(v)
    } else if let Some(v) = strip_prefix_of(s, "* ") {
        Some(v)
    } else {
        None
    }
}

fn render_line(line: &[char]) -> (r: Vec<char>)
    ensures
        r@ == line_spec(line@),
{
    let t = trim_start_chars(line);
    let mut out: Vec<char> = Vec::new();
    if let Some(h) = strip_header(t.as_slice()) {
        paint_chars(&mut out, Paint::CyanBold, h.as_slice());
        assert(out@ =~= painted(Paint::CyanBold, h@));
        return out;
    }
    if let Some(rest) = strip_prefix_of(t.as_slice(), "> ") {
        let mut body = str_chars("│ ");
        append_chars(&mut body, rest.as_slice());
        paint_chars(&mut out, Paint::Dimmed, body.as_slice());
        assert(out@ =~= painted(Paint::Dimmed, body@));
        return out;
    }
    let gt = str_chars(">");
    if seq_eq(t.as_slice(), gt.as_slice()) {
        let bar = str_chars("│");
        paint_chars(&mut out, Paint::Dimmed, bar.as_slice());
        assert(out@ =~= painted(Paint::Dimmed, bar@));
        return out;
    }
    if let Some(rest) = strip_list_marker(t.as_slice()) {
        let mut o = str_chars("  • ");
        let r = render_inline(rest.as_slice());
        append_chars(&mut o, r.as_slice());
        return o;
    }
    render_inline(line)
}

/// Renders Markdown text for the terminal (`render_spec`).
pub fn render(text: &str) -> (r: String)
    ensures
        r@ == render_spec(text@),
{
    let chars = str_chars(text);
    let ls = lines_of(chars.as_slice());
    let ghost lv = ls.deep_view();
    let mut out: Vec<char> = Vec::new();
    let mut in_code = false;
    let mut i: usize = 0;
    assert(lv.skip(0) =~= lv);
    while i < ls.len()
        invariant
            i <= ls@.len(),
            lv == ls.deep_view(),
            lv == lines(text@),
            render_lines(lv, false) == out@ + render_lines(lv.skip(i as int), in_code),
        decreases ls.len() - i,
    {
        let ghost rest = lv.skip(i as int);
        assert(rest[0] == ls@[i as int].deep_view());
        assert(ls@[i as int].deep_view() =~= ls@[i as int]@);
        assert(rest.drop_first() =~= lv.skip(i + 1));
        let line = ls[i].as_slice();
        let ghost o0 = out@;
        let ghost ic0 = in_code;
        let t = trim_start_chars(line);
        let fence = str_chars("```");
        if starts_with(t.as_slice(), fence.as_slice()) {
            paint_chars(&mut out, Paint::Dimmed, line);
            out.push('\n');
            in_code = !in_code;
        } else if in_code {
            paint_chars(&mut out, Paint::Dimmed, line);
            out.push('\n');
        } else {
            let r = render_line(line);
            append_chars(&mut out, r.as_slice());
            out.push('\n');
        }
        assert(out@ + render_lines(lv.skip(i + 1), in_code) =~= o0 + render_lines(rest, ic0));
        i = i + 1;
    }
    assert(lv.skip(ls@.len() as int).len() == 0);
    assert(out@ + render_lines(lv.skip(ls@.len() as int), in_code) =~= out@);
    if out.len() > 0 && out[out.len() - 1] == '\n' {
        out.pop();
    }
    chars_to_string(out.as_slice())
}


/// Text with no `` ` ``, `[` or `*` has no inline markup, and inline
/// rendering leaves it exactly as it is.
pub proof fn law_plain_inline_unchanged(s: Seq<char>)
    requires
        !s.contains('`'),
        !s.contains('['),
        !s.contains('*'),
    ensures
        inline_spec(s) == s,
    decreases s.len(),
{
    if s.len() > 0 {
        let t = s.drop_first();
        assert(s[0] != '`' && s[0] != '[' && s[0] != '*') by {
            if s[0] == '`' || s[0] == '[' || s[0] == '*' {
                assert(s.contains(s[0]));
            }
        }
        assert(!t.contains('`') && !t.contains('[') && !t.contains('*')) by {
            if t.contains('`') || t.contains('[') || t.contains('*') {
                let j = choose|j: int| 0 <= j < t.len() && (t[j] == '`' || t[j] == '[' || t[j] == '*');
                assert(s[j + 1] == t[j]);
            }
        }
        law_plain_inline_unchanged(t);
        assert(seq![s[0]] + t =~= s);
    }
}


/// A line as a code block shows it: dimmed, and otherwise exactly as written.
pub open spec fn dim_line(l: Seq<char>) -> Seq<char> {
    "\x1b[2m"@ + l + "\x1b[0m"@
}

/// A single line: no line feed and no carriage return in it.
pub open spec fn one_plain_line(l: Seq<char>) -> bool {
    !l.contains('\n') && !l.contains('\r')
}

proof fn lemma_dimmed_is_dim_line(l: Seq<char>)
    ensures
        painted(Paint::Dimmed, l) == dim_line(l),
{
    reveal_strlit("\x1b[");
    reveal_strlit("2");
    reveal_strlit("m");
    reveal_strlit("\x1b[2m");
    reveal_strlit("\x1b[0m");
    assert(painted(Paint::Dimmed, l) =~= dim_line(l));
}

proof fn lemma_one_line_lines(l: Seq<char>)
    requires
        l.len() > 0,
        one_plain_line(l),
    ensures
        lines(l) == seq![l],
{
    assert forall|j: int| 0 <= j < l.len() implies l[j] != '\n' by {
        if l[j] == '\n' {
            assert(l.contains('\n'));
        }
    }
    lemma_index_of(l, '\n', l.len() as int);
}

proof fn lemma_strip_cr_plain(l: Seq<char>)
    requires
        one_plain_line(l),
    ensures
        strip_cr(l) == l,
{
    if l.len() > 0 && l.last() == '\r' {
        assert(l.contains('\r'));
    }
}

proof fn lemma_block_lines(body: Seq<Seq<char>>, close: Seq<char>)
    requires
        close.len() > 0,
        one_plain_line(close),
        forall|i: int| 0 <= i < body.len() ==> one_plain_line(#[trigger] body[i]),
    ensures
        lines(joined_lines(body) + close) == body + seq![close],
    decreases body.len(),
{
    if body.len() == 0 {
        assert(joined_lines(body) + close =~= close);
        lemma_one_line_lines(close);
        assert(body + seq![close] =~= seq![close]);
    } else {
        let rest = body.drop_first();
        assert forall|i: int| 0 <= i < rest.len() implies one_plain_line(#[trigger] rest[i]) by {
            assert(rest[i] == body[i + 1]);
        }
        lemma_block_lines(rest, close);
        assert(one_plain_line(body[0]));
        lemma_one_line_lines_concat(body[0], joined_lines(rest) + close);
        assert(joined_lines(body) + close =~= body[0] + seq!['\n'] + (joined_lines(rest) + close));
        assert(body + seq![close] =~= seq![body[0]] + (rest + seq![close]));
    }
}

proof fn lemma_one_line_lines_concat(l: Seq<char>, more: Seq<char>)
    requires
        one_plain_line(l),
    ensures
        lines(l + seq!['\n'] + more) == seq![l] + lines(more),
{
    lemma_lines_one(l, more);
    lemma_strip_cr_plain(l);
}

proof fn lemma_render_code_lines(body: Seq<Seq<char>>, close: Seq<char>)
    requires
        is_fence(close),
        forall|i: int| 0 <= i < body.len() ==> !is_fence(#[trigger] body[i]),
    ensures
        render_lines(body + seq![close], true) == joined_lines(body.map_values(|l: Seq<char>| dim_line(l)))
            + dim_line(close).push('\n'),
    decreases body.len(),
{
    let ls = body + seq![close];
    if body.len() == 0 {
        assert(ls =~= seq![close]);
        assert(ls.drop_first() =~= Seq::<Seq<char>>::empty());
        lemma_dimmed_is_dim_line(close);
        assert(body.map_values(|l: Seq<char>| dim_line(l)) =~= Seq::<Seq<char>>::empty());
        assert(joined_lines(body.map_values(|l: Seq<char>| dim_line(l))) =~= Seq::<char>::empty());
        assert(ls[0] == close);
        assert(render_lines(ls.drop_first(), false) == Seq::<char>::empty());
        assert(render_lines(ls, true) == painted(Paint::Dimmed, close).push('\n') + Seq::<char>::empty());
        assert(render_lines(ls, true) =~= dim_line(close).push('\n'));
    } else {
        let rest = body.drop_first();
        assert forall|i: int| 0 <= i < rest.len() implies !is_fence(#[trigger] rest[i]) by {
            assert(rest[i] == body[i + 1]);
        }
        lemma_render_code_lines(rest, close);
        assert(ls[0] == body[0]);
        assert(!is_fence(body[0]));
        assert(ls.drop_first() =~= rest + seq![close]);
        lemma_dimmed_is_dim_line(body[0]);
        let m = body.map_values(|l: Seq<char>| dim_line(l));
        assert(m.drop_first() =~= rest.map_values(|l: Seq<char>| dim_line(l)));
        assert(m[0] == dim_line(body[0]));
        assert(render_lines(ls, true) =~= joined_lines(m) + dim_line(close).push('\n'));
    }
}

/// A fenced code block is shown line for line, each line dimmed and
/// otherwise exactly as written: the two fence lines, and every line between
/// them, which is never styled as a heading, quote, list item or inline
/// markup. The text is a fence line, lines that are not fences, and a closing
/// fence line, each a single line.
pub proof fn law_fenced_code_block_dimmed(open: Seq<char>, body: Seq<Seq<char>>, close: Seq<char>)
    requires
        is_fence(open),
        is_fence(close),
        one_plain_line(open),
        one_plain_line(close),
        forall|i: int|
            0 <= i < body.len() ==> !is_fence(#[trigger] body[i]) && one_plain_line(body[i]),
    ensures
        render_spec(open + seq!['\n'] + joined_lines(body) + close) == dim_line(open) + seq!['\n']
            + joined_lines(body.map_values(|l: Seq<char>| dim_line(l))) + dim_line(close),
{
    reveal_strlit("```");
    let text = open + seq!['\n'] + joined_lines(body) + close;
    assert(close.len() > 0) by {
        crate::text::lemma_trim_start(close);
        assert(has_prefix(trim_start(close), "```"@));
    }
    assert forall|i: int| 0 <= i < body.len() implies one_plain_line(#[trigger] body[i]) by {}
    lemma_block_lines(body, close);
    lemma_one_line_lines_concat(open, joined_lines(body) + close);
    assert(text =~= open + seq!['\n'] + (joined_lines(body) + close));
    let ls = seq![open] + (body + seq![close]);
    assert(lines(text) == ls);
    assert(ls[0] == open);
    assert(ls.drop_first() =~= body + seq![close]);
    lemma_render_code_lines(body, close);
    lemma_dimmed_is_dim_line(open);
    let o = render_lines(ls, false);
    let m = body.map_values(|l: Seq<char>| dim_line(l));
    assert(o == dim_line(open).push('\n') + (joined_lines(m) + dim_line(close).push('\n')));
    assert(o =~= (dim_line(open) + seq!['\n'] + joined_lines(m) + dim_line(close)).push('\n'));
}

} // verus!

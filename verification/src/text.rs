//! Character-level text helpers with the semantics of the corresponding
//! `str` methods (`trim`, `lines`, `split`, `replace`, `strip_prefix`).

use vstd::prelude::*;

verus! {

/// The Unicode `White_Space` property, as `char::is_whitespace` defines it.
pub open spec fn is_ws(c: char) -> bool {
    ||| c == '\t' || c == '\n' || c == '\x0B' || c == '\x0C' || c == '\r' || c == ' '
    ||| c == '\u{85}' || c == '\u{A0}' || c == '\u{1680}'
    ||| ('\u{2000}' <= c && c <= '\u{200A}')
    ||| c == '\u{2028}' || c == '\u{2029}' || c == '\u{202F}' || c == '\u{205F}'
    ||| c == '\u{3000}'
}

/// Executable whitespace test.
pub fn char_is_ws(c: char) -> (r: bool)
    ensures
        r == is_ws(c),
{
    c == '\t' || c == '\n' || c == '\x0B' || c == '\x0C' || c == '\r' || c == ' '
        || c == '\u{85}' || c == '\u{A0}' || c == '\u{1680}' || ('\u{2000}' <= c && c
        <= '\u{200A}') || c == '\u{2028}' || c == '\u{2029}' || c == '\u{202F}' || c
        == '\u{205F}' || c == '\u{3000}'
}

/// `s` with leading whitespace removed.
pub open spec fn trim_start(s: Seq<char>) -> Seq<char>
    decreases s.len(),
{
    if s.len() > 0 && is_ws(s[0]) {
        trim_start(s.drop_first())
    } else {
        s
    }
}

/// `s` with trailing whitespace removed.
pub open spec fn trim_end(s: Seq<char>) -> Seq<char>
    decreases s.len(),
{
    if s.len() > 0 && is_ws(s.last()) {
        trim_end(s.drop_last())
    } else {
        s
    }
}

/// `s` with leading and trailing whitespace removed (`str::trim`).
pub open spec fn trim(s: Seq<char>) -> Seq<char> {
    trim_end(trim_start(s))
}

/// Copies `s[lo..hi]` into a new vector.
pub fn copy_range(s: &[char], lo: usize, hi: usize) -> (r: Vec<char>)
    requires
        lo <= hi <= s@.len(),
    ensures
        r@ == s@.subrange(lo as int, hi as int),
{
    let mut r: Vec<char> = Vec::new();
    let mut i: usize = lo;
    while i < hi
        invariant
            lo <= i <= hi <= s@.len(),
            r@ == s@.subrange(lo as int, i as int),
        decreases hi - i,
    {
        r.push(s[i]);
        i = i + 1;
        assert(r@ =~= s@.subrange(lo as int, i as int));
    }
    r
}

/// `str::trim` on a character slice.
pub fn trim_chars(s: &[char]) -> (r: Vec<char>)
    ensures
        r@ == trim(s@),
{
    let n = s.len();
    let mut i: usize = 0;
    assert(s@.skip(0) =~= s@);
    while i < n && char_is_ws(s[i])
        invariant
            i <= n == s@.len(),
            trim_start(s@) == trim_start(s@.skip(i as int)),
        decreases n - i,
    {
        assert(s@.skip(i as int).drop_first() =~= s@.skip(i + 1));
        i = i + 1;
    }
    assert(trim_start(s@.skip(i as int)) == s@.skip(i as int));
    assert(s@.skip(i as int) =~= s@.subrange(i as int, n as int));
    let mut j: usize = n;
    while j > i && char_is_ws(s[j - 1])
        invariant
            i <= j <= n == s@.len(),
            trim(s@) == trim_end(s@.subrange(i as int, j as int)),
        decreases j,
    {
        assert(s@.subrange(i as int, j as int).drop_last() =~= s@.subrange(i as int, j - 1));
        j = j - 1;
    }
    copy_range(s, i, j)
}

/// The characters of `s`, in order.
pub fn str_chars(s: &str) -> (r: Vec<char>)
    ensures
        r@ == s@,
{
    let mut r: Vec<char> = Vec::new();
    for c in it: s.chars()
        invariant
            r@ == it.seq().take(it.index() as int),
    {
        r.push(c);
        assert(r@ =~= it.seq().take(it.index() + 1));
    }
    r
}

/// Builds a `String` from characters; the outside call is `Iterator::collect`
/// into `String`, which std documents as concatenating the characters in order.
#[verifier::external_body]
pub(crate) fn chars_to_string(v: &[char]) -> (r: String)
    ensures
        r@ == v@,
{
    v.iter().collect()
}

/// Index of the first occurrence of `c` in `s`, or `s.len()` if there is none.
pub open spec fn index_of(s: Seq<char>, c: char) -> nat
    decreases s.len(),
{
    if s.len() == 0 {
        0
    } else if s[0] == c {
        0
    } else {
        1 + index_of(s.drop_first(), c)
    }
}

/// `index_of` is the position of the first `c`.
pub proof fn lemma_index_of(s: Seq<char>, c: char, k: int)
    requires
        0 <= k <= s.len(),
        forall|j: int| 0 <= j < k ==> s[j] != c,
        k == s.len() || s[k] == c,
    ensures
        index_of(s, c) == k,
    decreases k,
{
    if k > 0 {
        assert(s[0] != c);
        assert forall|j: int| 0 <= j < k - 1 implies s.drop_first()[j] != c by {
            assert(s.drop_first()[j] == s[j + 1]);
        }
        lemma_index_of(s.drop_first(), c, k - 1);
    }
}

/// Drops one trailing carriage return.
pub open spec fn strip_cr(l: Seq<char>) -> Seq<char> {
    if l.len() > 0 && l.last() == '\r' {
        l.drop_last()
    } else {
        l
    }
}

/// `str::lines`: pieces between `\n`, each without a trailing `\r`; a final
/// line ending adds no empty line, and the empty text has no lines.
pub open spec fn lines(s: Seq<char>) -> Seq<Seq<char>>
    decreases s.len(),
{
    if s.len() == 0 {
        seq![]
    } else {
        let k = index_of(s, '\n');
        if k < s.len() {
            seq![strip_cr(s.take(k as int))] + lines(s.skip(k + 1 as int))
        } else {
            seq![s]
        }
    }
}

/// `str::split` on one character: always at least one piece.
pub open spec fn split(s: Seq<char>, c: char) -> Seq<Seq<char>>
    decreases s.len(),
{
    let k = index_of(s, c);
    if k < s.len() {
        seq![s.take(k as int)] + split(s.skip(k + 1 as int), c)
    } else {
        seq![s]
    }
}

/// Whether `s` starts with `p`.
pub open spec fn has_prefix(s: Seq<char>, p: Seq<char>) -> bool {
    p.len() <= s.len() && s.take(p.len() as int) == p
}

/// Executable `has_prefix`.
pub fn starts_with(s: &[char], p: &[char]) -> (r: bool)
    ensures
        r == has_prefix(s@, p@),
{
    if p.len() > s.len() {
        return false;
    }
    let mut i: usize = 0;
    while i < p.len()
        invariant
            i <= p@.len() <= s@.len(),
            forall|j: int| 0 <= j < i ==> s@[j] == p@[j],
        decreases p.len() - i,
    {
        if s[i] != p[i] {
            assert(s@.take(p@.len() as int)[i as int] != p@[i as int]);
            return false;
        }
        i = i + 1;
    }
    assert(s@.take(p@.len() as int) =~= p@);
    true
}

/// Executable `strip_cr` of `s[lo..hi]`.
fn copy_line(s: &[char], lo: usize, hi: usize) -> (r: Vec<char>)
    requires
        lo <= hi <= s@.len(),
    ensures
        r@ == strip_cr(s@.subrange(lo as int, hi as int)),
{
    if hi > lo && s[hi - 1] == '\r' {
        let r = copy_range(s, lo, hi - 1);
        assert(r@ =~= s@.subrange(lo as int, hi as int).drop_last());
        r
    } else {
        copy_range(s, lo, hi)
    }
}

/// `str::lines` on a character slice.
pub fn lines_of(s: &[char]) -> (r: Vec<Vec<char>>)
    ensures
        r.deep_view() == lines(s@),
{
    let n = s.len();
    let mut r: Vec<Vec<char>> = Vec::new();
    let mut start: usize = 0;
    let mut i: usize = 0;
    assert(s@.skip(0) =~= s@);
    assert(r.deep_view() + lines(s@) =~= lines(s@));
    while i < n
        invariant
            start <= i <= n == s@.len(),
            forall|j: int| start <= j < i ==> s@[j] != '\n',
            lines(s@) == r.deep_view() + lines(s@.skip(start as int)),
        decreases n - i,
    {
        if s[i] == '\n' {
            let ghost rest = s@.skip(start as int);
            proof {
                lemma_index_of(rest, '\n', i - start);
                assert(rest.take(i - start) =~= s@.subrange(start as int, i as int));
                assert(rest.skip(i - start + 1) =~= s@.skip(i + 1));
            }
            let line = copy_line(s, start, i);
            let ghost old_r = r.deep_view();
            assert(line.deep_view() =~= line@);
            r.push(line);
            assert(r.deep_view() =~= old_r.push(line@));
            assert(lines(rest) == seq![line@] + lines(s@.skip(i + 1)));
            assert(old_r + lines(rest) =~= r.deep_view() + lines(s@.skip(i + 1)));
            start = i + 1;
        }
        i = i + 1;
    }
    if start < n {
        let ghost rest = s@.skip(start as int);
        proof {
            lemma_index_of(rest, '\n', rest.len() as int);
        }
        let line = copy_range(s, start, n);
        assert(line@ =~= rest);
        let ghost old_r = r.deep_view();
        assert(line.deep_view() =~= line@);
        r.push(line);
        assert(r.deep_view() =~= old_r.push(line@));
        assert(lines(rest) == seq![rest]);
        assert(old_r + lines(rest) =~= r.deep_view());
    } else {
        assert(s@.skip(start as int).len() == 0);
        assert(r.deep_view() + lines(s@.skip(start as int)) =~= r.deep_view());
    }
    r
}

/// `str::split` on one character, over a character slice.
pub fn split_of(s: &[char], c: char) -> (r: Vec<Vec<char>>)
    ensures
        r.deep_view() == split(s@, c),
{
    let n = s.len();
    let mut r: Vec<Vec<char>> = Vec::new();
    let mut start: usize = 0;
    let mut i: usize = 0;
    assert(s@.skip(0) =~= s@);
    assert(r.deep_view() + split(s@, c) =~= split(s@, c));
    while i < n
        invariant
            start <= i <= n == s@.len(),
            forall|j: int| start <= j < i ==> s@[j] != c,
            split(s@, c) == r.deep_view() + split(s@.skip(start as int), c),
        decreases n - i,
    {
        if s[i] == c {
            let ghost rest = s@.skip(start as int);
            proof {
                lemma_index_of(rest, c, i - start);
                assert(rest.take(i - start) =~= s@.subrange(start as int, i as int));
                assert(rest.skip(i - start + 1) =~= s@.skip(i + 1));
            }
            let piece = copy_range(s, start, i);
            let ghost old_r = r.deep_view();
            assert(piece.deep_view() =~= piece@);
            r.push(piece);
            assert(r.deep_view() =~= old_r.push(piece@));
            assert(split(rest, c) == seq![piece@] + split(s@.skip(i + 1), c));
            assert(old_r + split(rest, c) =~= r.deep_view() + split(s@.skip(i + 1), c));
            start = i + 1;
        }
        i = i + 1;
    }
    let ghost rest = s@.skip(start as int);
    proof {
        lemma_index_of(rest, c, rest.len() as int);
    }
    let piece = copy_range(s, start, n);
    assert(piece@ =~= rest);
    let ghost old_r = r.deep_view();
    assert(piece.deep_view() =~= piece@);
    r.push(piece);
    assert(r.deep_view() =~= old_r.push(piece@));
    assert(split(rest, c) == seq![rest]);
    assert(old_r + split(rest, c) =~= r.deep_view());
    r
}

/// `str::replace("\\n", "\n")`: each literal backslash-`n` pair, scanning
/// from the left without overlap, becomes a line feed.
pub open spec fn unescape_nl(s: Seq<char>) -> Seq<char>
    decreases s.len(),
{
    if s.len() < 2 {
        s
    } else if s[0] == '\\' && s[1] == 'n' {
        seq!['\n'] + unescape_nl(s.skip(2))
    } else {
        seq![s[0]] + unescape_nl(s.drop_first())
    }
}

/// Executable `unescape_nl`.
pub fn unescape_nl_of(s: &[char]) -> (r: Vec<char>)
    ensures
        r@ == unescape_nl(s@),
{
    let n = s.len();
    let mut r: Vec<char> = Vec::new();
    let mut i: usize = 0;
    assert(s@.skip(0) =~= s@);
    while i < n
        invariant
            i <= n == s@.len(),
            unescape_nl(s@) == r@ + unescape_nl(s@.skip(i as int)),
        decreases n - i,
    {
        let ghost rest = s@.skip(i as int);
        if i + 1 < n && s[i] == '\\' && s[i + 1] == 'n' {
            assert(rest.skip(2) =~= s@.skip(i + 2));
            let ghost old_r = r@;
            r.push('\n');
            assert(r@ + unescape_nl(s@.skip(i + 2)) =~= old_r + unescape_nl(rest)) by {
                assert(unescape_nl(rest) == seq!['\n'] + unescape_nl(rest.skip(2)));
            }
            i = i + 2;
        } else {
            assert(rest.drop_first() =~= s@.skip(i + 1));
            let ghost old_r = r@;
            r.push(s[i]);
            if i + 1 < n {
                assert(unescape_nl(rest) == seq![s@[i as int]] + unescape_nl(rest.drop_first()));
            } else {
                assert(rest =~= seq![s@[i as int]]);
                assert(s@.skip(i + 1).len() == 0);
            }
            assert(r@ + unescape_nl(s@.skip(i + 1)) =~= old_r + unescape_nl(rest));
            i = i + 1;
        }
    }
    assert(s@.skip(n as int).len() == 0);
    assert(r@ + unescape_nl(s@.skip(n as int)) =~= r@);
    r
}

/// Whether two strings hold the same characters.
pub fn str_eq(a: &str, b: &str) -> (r: bool)
    ensures
        r == (a@ == b@),
{
    let x = str_chars(a);
    let y = str_chars(b);
    seq_eq(&x, &y)
}

/// Whether two character slices are equal.
pub fn seq_eq(x: &[char], y: &[char]) -> (r: bool)
    ensures
        r == (x@ == y@),
{
    if x.len() != y.len() {
        return false;
    }
    let mut i: usize = 0;
    while i < x.len()
        invariant
            i <= x@.len() == y@.len(),
            forall|j: int| 0 <= j < i ==> x@[j] == y@[j],
        decreases x.len() - i,
    {
        if x[i] != y[i] {
            return false;
        }
        i = i + 1;
    }
    assert(x@ =~= y@);
    true
}

/// The trimmed pieces of `parts` that are not empty, in order.
pub open spec fn nonempty_trimmed(parts: Seq<Seq<char>>) -> Seq<Seq<char>>
    decreases parts.len(),
{
    if parts.len() == 0 {
        seq![]
    } else {
        let rest = nonempty_trimmed(parts.drop_last());
        let t = trim(parts.last());
        if t.len() > 0 {
            rest.push(t)
        } else {
            rest
        }
    }
}

/// `s.split(sep).map(str::trim).filter(|t| !t.is_empty())`.
pub open spec fn split_trimmed(s: Seq<char>, sep: char) -> Seq<Seq<char>> {
    nonempty_trimmed(split(s, sep))
}

/// Converts character vectors to strings.
pub fn to_strings(v: &Vec<Vec<char>>) -> (r: Vec<String>)
    ensures
        r.deep_view() == v.deep_view(),
{
    let mut r: Vec<String> = Vec::new();
    let mut i: usize = 0;
    while i < v.len()
        invariant
            i <= v@.len(),
            r.deep_view() == v.deep_view().take(i as int),
        decreases v.len() - i,
    {
        let s = chars_to_string(v[i].as_slice());
        let ghost old_r = r.deep_view();
        assert(v@[i as int].deep_view() =~= v@[i as int]@);
        r.push(s);
        assert(r.deep_view() =~= old_r.push(s@));
        assert(r.deep_view() =~= v.deep_view().take(i + 1));
        i = i + 1;
    }
    assert(v.deep_view().take(v@.len() as int) =~= v.deep_view());
    r
}

/// Executable `split_trimmed`, as strings.
pub fn split_trimmed_of(s: &[char], sep: char) -> (r: Vec<String>)
    ensures
        r.deep_view() == split_trimmed(s@, sep),
{
    let parts = split_of(s, sep);
    let mut out: Vec<Vec<char>> = Vec::new();
    let mut i: usize = 0;
    while i < parts.len()
        invariant
            i <= parts@.len(),
            parts.deep_view() == split(s@, sep),
            out.deep_view() == nonempty_trimmed(parts.deep_view().take(i as int)),
        decreases parts.len() - i,
    {
        let t = trim_chars(parts[i].as_slice());
        let ghost pre = parts.deep_view().take(i + 1);
        assert(pre.drop_last() =~= parts.deep_view().take(i as int));
        assert(pre.last() == parts@[i as int].deep_view());
        assert(parts@[i as int].deep_view() =~= parts@[i as int]@);
        if t.len() > 0 {
            let ghost old_out = out.deep_view();
            assert(t.deep_view() =~= t@);
            out.push(t);
            assert(out.deep_view() =~= old_out.push(t@));
        }
        i = i + 1;
    }
    assert(parts.deep_view().take(parts@.len() as int) =~= parts.deep_view());
    to_strings(&out)
}

/// `trim_start(s)` drops a prefix of `s` and leaves a non-whitespace first character.
pub proof fn lemma_trim_start(s: Seq<char>)
    ensures
        exists|k: int| 0 <= k <= s.len() && trim_start(s) == s.skip(k),
        trim_start(s).len() > 0 ==> !is_ws(trim_start(s)[0]),
    decreases s.len(),
{
    if s.len() > 0 && is_ws(s[0]) {
        lemma_trim_start(s.drop_first());
        let k = choose|k: int| 0 <= k <= s.drop_first().len() && trim_start(s.drop_first()) == s.drop_first().skip(k);
        assert(s.drop_first().skip(k) =~= s.skip(k + 1));
    } else {
        assert(s.skip(0) =~= s);
    }
}

/// `trim_end(s)` drops a suffix of `s` and leaves a non-whitespace last character.
pub proof fn lemma_trim_end(s: Seq<char>)
    ensures
        exists|k: int| 0 <= k <= s.len() && trim_end(s) == s.take(k),
        trim_end(s).len() > 0 ==> !is_ws(trim_end(s).last()),
    decreases s.len(),
{
    if s.len() > 0 && is_ws(s.last()) {
        lemma_trim_end(s.drop_last());
        let k = choose|k: int| 0 <= k <= s.drop_last().len() && trim_end(s.drop_last()) == s.drop_last().take(k);
        assert(s.drop_last().take(k) =~= s.take(k));
    } else {
        assert(s.take(s.len() as int) =~= s);
    }
}

/// The result of `trim` is a piece of its input with no whitespace at either end,
/// so trimming it again changes nothing.
pub proof fn lemma_trim(s: Seq<char>)
    ensures
        exists|a: int, b: int| 0 <= a <= b <= s.len() && trim(s) == s.subrange(a, b),
        trim(s).len() > 0 ==> !is_ws(trim(s)[0]) && !is_ws(trim(s).last()),
        trim(trim(s)) == trim(s),
{
    lemma_trim_start(s);
    let y = trim_start(s);
    let a = choose|k: int| 0 <= k <= s.len() && trim_start(s) == s.skip(k);
    lemma_trim_end(y);
    let b = choose|k: int| 0 <= k <= y.len() && trim_end(y) == y.take(k);
    assert(y.take(b) =~= s.subrange(a, a + b));
    let z = trim(s);
    if z.len() > 0 {
        assert(z[0] == y[0]);
    }
    assert(trim_start(z) == z);
    assert(trim_end(z) == z);
}

/// No piece of `split(s, c)` contains `c`.
pub proof fn lemma_split_pieces(s: Seq<char>, c: char)
    ensures
        forall|i: int| 0 <= i < split(s, c).len() ==> !(#[trigger] split(s, c)[i]).contains(c),
    decreases s.len(),
{
    let k = index_of(s, c);
    lemma_index_of_bounds(s, c);
    if k < s.len() {
        lemma_split_pieces(s.skip(k + 1 as int), c);
        let p = split(s, c);
        assert forall|i: int| 0 <= i < p.len() implies !(#[trigger] p[i]).contains(c) by {
            if i == 0 {
                assert(p[0] == s.take(k as int));
                if s.take(k as int).contains(c) {
                    let j = choose|j: int| 0 <= j < s.take(k as int).len() && s.take(k as int)[j] == c;
                    assert(s[j] == c);
                }
            } else {
                assert(p[i] == split(s.skip(k + 1 as int), c)[i - 1]);
            }
        }
    } else {
        if s.contains(c) {
            let j = choose|j: int| 0 <= j < s.len() && s[j] == c;
            assert(s[j] == c);
        }
    }
}

/// `index_of` lies within the text, and no `c` comes before it.
pub proof fn lemma_index_of_bounds(s: Seq<char>, c: char)
    ensures
        index_of(s, c) <= s.len(),
        forall|j: int| 0 <= j < index_of(s, c) ==> s[j] != c,
        index_of(s, c) < s.len() ==> s[index_of(s, c) as int] == c,
    decreases s.len(),
{
    if s.len() > 0 && s[0] != c {
        lemma_index_of_bounds(s.drop_first(), c);
        assert forall|j: int| 0 <= j < index_of(s, c) implies s[j] != c by {
            if j > 0 {
                assert(s[j] == s.drop_first()[j - 1]);
            }
        }
    }
}

/// Every entry of `split_trimmed(s, c)` is non-empty, already trimmed, and free of `c`.
pub proof fn lemma_split_trimmed(s: Seq<char>, c: char)
    ensures
        forall|i: int|
            0 <= i < split_trimmed(s, c).len() ==> {
                let t = #[trigger] split_trimmed(s, c)[i];
                &&& t.len() > 0
                &&& trim(t) == t
                &&& !t.contains(c)
            },
{
    lemma_split_pieces(s, c);
    lemma_nonempty_trimmed(split(s, c), c);
}

/// `nonempty_trimmed` keeps the properties of trimmed pieces that lack `c`.
pub proof fn lemma_nonempty_trimmed(parts: Seq<Seq<char>>, c: char)
    requires
        forall|i: int| 0 <= i < parts.len() ==> !(#[trigger] parts[i]).contains(c),
    ensures
        forall|i: int|
            0 <= i < nonempty_trimmed(parts).len() ==> {
                let t = #[trigger] nonempty_trimmed(parts)[i];
                &&& t.len() > 0
                &&& trim(t) == t
                &&& !t.contains(c)
            },
    decreases parts.len(),
{
    if parts.len() > 0 {
        let pre = parts.drop_last();
        assert forall|i: int| 0 <= i < pre.len() implies !(#[trigger] pre[i]).contains(c) by {
            assert(pre[i] == parts[i]);
        }
        lemma_nonempty_trimmed(pre, c);
        let x = parts.last();
        assert(!parts[parts.len() - 1].contains(c));
        lemma_trim(x);
        let t = trim(x);
        if t.contains(c) {
            let (a, b) = choose|a: int, b: int| 0 <= a <= b <= x.len() && trim(x) == x.subrange(a, b);
            let j = choose|j: int| 0 <= j < t.len() && t[j] == c;
            assert(x[a + j] == c);
        }
        let r = nonempty_trimmed(parts);
        let rest = nonempty_trimmed(pre);
        assert forall|i: int| 0 <= i < r.len() implies {
            let u = #[trigger] r[i];
            &&& u.len() > 0
            &&& trim(u) == u
            &&& !u.contains(c)
        } by {
            if i < rest.len() {
                assert(r[i] == rest[i]);
            } else {
                assert(r[i] == t);
            }
        }
    }
}

/// The decimal digit for `d < 10`.
pub open spec fn digit_char(d: nat) -> char {
    if d == 0 {
        '0'
    } else if d == 1 {
        '1'
    } else if d == 2 {
        '2'
    } else if d == 3 {
        '3'
    } else if d == 4 {
        '4'
    } else if d == 5 {
        '5'
    } else if d == 6 {
        '6'
    } else if d == 7 {
        '7'
    } else if d == 8 {
        '8'
    } else {
        '9'
    }
}

/// The decimal notation of `n`, without leading zeros.
pub open spec fn decimal(n: nat) -> Seq<char>
    decreases n,
{
    if n < 10 {
        seq![digit_char(n)]
    } else {
        decimal(n / 10).push(digit_char(n % 10))
    }
}

fn digit(d: u64) -> (c: char)
    requires
        d < 10,
    ensures
        c == digit_char(d as nat),
{
    match d {
        0 => '0',
        1 => '1',
        2 => '2',
        3 => '3',
        4 => '4',
        5 => '5',
        6 => '6',
        7 => '7',
        8 => '8',
        _ => '9',
    }
}

/// Appends the decimal notation of `n`.
pub fn push_decimal(out: &mut Vec<char>, n: u64)
    ensures
        final(out)@ == old(out)@ + decimal(n as nat),
    decreases n,
{
    if n >= 10 {
        push_decimal(out, n / 10);
    }
    out.push(digit(n % 10));
    assert(out@ =~= old(out)@ + decimal(n as nat));
}

/// Appends the characters of `s`.
pub fn push_str(out: &mut Vec<char>, s: &str)
    ensures
        final(out)@ == old(out)@ + s@,
{
    let c = str_chars(s);
    let mut i: usize = 0;
    while i < c.len()
        invariant
            i <= c@.len(),
            c@ == s@,
            out@ == old(out)@ + c@.take(i as int),
        decreases c.len() - i,
    {
        out.push(c[i]);
        i = i + 1;
        assert(out@ =~= old(out)@ + c@.take(i as int));
    }
    assert(c@.take(c@.len() as int) =~= c@);
}

/// `s` with every leading and trailing `c` removed (`str::trim_matches`).
pub open spec fn trim_char(s: Seq<char>, c: char) -> Seq<char>
    decreases s.len(),
{
    if s.len() > 0 && s[0] == c {
        trim_char(s.drop_first(), c)
    } else if s.len() > 0 && s.last() == c {
        trim_char(s.drop_last(), c)
    } else {
        s
    }
}

/// Executable `trim_char`.
pub fn trim_char_of(s: &[char], c: char) -> (r: Vec<char>)
    ensures
        r@ == trim_char(s@, c),
{
    let mut lo: usize = 0;
    let mut hi: usize = s.len();
    assert(s@.subrange(0, s@.len() as int) =~= s@);
    while lo < hi && (s[lo] == c || s[hi - 1] == c)
        invariant
            lo <= hi <= s@.len(),
            trim_char(s@, c) == trim_char(s@.subrange(lo as int, hi as int), c),
        decreases hi - lo,
    {
        let ghost cur = s@.subrange(lo as int, hi as int);
        if s[lo] == c {
            assert(cur.drop_first() =~= s@.subrange(lo + 1, hi as int));
            lo = lo + 1;
        } else {
            assert(cur.drop_last() =~= s@.subrange(lo as int, hi - 1));
            hi = hi - 1;
        }
    }
    copy_range(s, lo, hi)
}

/// Appends the characters of `t` to `out`.
pub fn append_chars(out: &mut Vec<char>, t: &[char])
    ensures
        final(out)@ == old(out)@ + t@,
{
    let mut i: usize = 0;
    while i < t.len()
        invariant
            i <= t@.len(),
            out@ == old(out)@ + t@.take(i as int),
        decreases t.len() - i,
    {
        out.push(t[i]);
        i = i + 1;
        assert(out@ =~= old(out)@ + t@.take(i as int));
    }
    assert(t@.take(t@.len() as int) =~= t@);
}

/// Copies a list of strings.
pub fn clone_strings(v: &Vec<String>) -> (r: Vec<String>)
    ensures
        r.deep_view() == v.deep_view(),
{
    let mut r: Vec<String> = Vec::new();
    let mut i: usize = 0;
    while i < v.len()
        invariant
            i <= v@.len(),
            r.deep_view() == v.deep_view().take(i as int),
        decreases v.len() - i,
    {
        let s = v[i].clone();
        let ghost old_r = r.deep_view();
        r.push(s);
        assert(r.deep_view() =~= old_r.push(s@));
        assert(r.deep_view() =~= v.deep_view().take(i + 1));
        i = i + 1;
    }
    assert(v.deep_view().take(v@.len() as int) =~= v.deep_view());
    r
}

/// `str::trim_start` on a character slice.
pub fn trim_start_chars(s: &[char]) -> (r: Vec<char>)
    ensures
        r@ == trim_start(s@),
{
    let n = s.len();
    let mut i: usize = 0;
    assert(s@.skip(0) =~= s@);
    while i < n && char_is_ws(s[i])
        invariant
            i <= n == s@.len(),
            trim_start(s@) == trim_start(s@.skip(i as int)),
        decreases n - i,
    {
        assert(s@.skip(i as int).drop_first() =~= s@.skip(i + 1));
        i = i + 1;
    }
    assert(trim_start(s@.skip(i as int)) == s@.skip(i as int));
    assert(s@.skip(i as int) =~= s@.subrange(i as int, n as int));
    copy_range(s, i, n)
}


/// A text without `c` is one piece.
pub proof fn lemma_split_single(t: Seq<char>, c: char)
    requires
        !t.contains(c),
    ensures
        split(t, c) == seq![t],
{
    assert forall|j: int| 0 <= j < t.len() implies t[j] != c by {
        if t[j] == c {
            assert(t.contains(c));
        }
    }
    lemma_index_of(t, c, t.len() as int);
}

/// Splitting at a separator placed between two texts splits each of them.
pub proof fn lemma_split_concat(x: Seq<char>, y: Seq<char>, c: char)
    ensures
        split(x + seq![c] + y, c) == split(x, c) + split(y, c),
    decreases x.len(),
{
    let s = x + seq![c] + y;
    lemma_index_of_bounds(x, c);
    let k = index_of(x, c);
    if k < x.len() {
        assert forall|j: int| 0 <= j < k implies s[j] != c by {
            assert(s[j] == x[j]);
        }
        lemma_index_of(s, c, k as int);
        assert(s.take(k as int) =~= x.take(k as int));
        assert(s.skip(k + 1 as int) =~= x.skip(k + 1 as int) + seq![c] + y);
        lemma_split_concat(x.skip(k + 1 as int), y, c);
        assert(split(s, c) =~= split(x, c) + split(y, c));
    } else {
        assert forall|j: int| 0 <= j < x.len() implies s[j] != c by {
            assert(s[j] == x[j]);
        }
        lemma_index_of(s, c, x.len() as int);
        assert(s.take(x.len() as int) =~= x);
        assert(s.skip(x.len() + 1 as int) =~= y);
        assert(split(s, c) =~= split(x, c) + split(y, c));
    }
}

/// The lines of a text that goes on after a line break: the pieces of the
/// first part, then the lines of the rest.
pub proof fn lemma_lines_concat(t: Seq<char>, rest: Seq<char>)
    requires
        !t.contains('\r'),
    ensures
        lines(t + seq!['\n'] + rest) == split(t, '\n') + lines(rest),
    decreases t.len(),
{
    let s = t + seq!['\n'] + rest;
    lemma_index_of_bounds(t, '\n');
    let k = index_of(t, '\n');
    if k < t.len() {
        assert forall|j: int| 0 <= j < k implies s[j] != '\n' by {
            assert(s[j] == t[j]);
        }
        lemma_index_of(s, '\n', k as int);
        assert(s.take(k as int) =~= t.take(k as int));
        if k > 0 {
            assert(t.take(k as int).last() == t[k - 1]);
            if t[k - 1] == '\r' {
                assert(t.contains('\r'));
            }
        }
        assert(strip_cr(t.take(k as int)) == t.take(k as int));
        let t2 = t.skip(k + 1 as int);
        if t2.contains('\r') {
            let j = choose|j: int| 0 <= j < t2.len() && t2[j] == '\r';
            assert(t[k + 1 + j] == '\r');
        }
        assert(s.skip(k + 1 as int) =~= t2 + seq!['\n'] + rest);
        lemma_lines_concat(t2, rest);
        assert(lines(s) =~= split(t, '\n') + lines(rest));
    } else {
        assert forall|j: int| 0 <= j < t.len() implies s[j] != '\n' by {
            assert(s[j] == t[j]);
        }
        lemma_index_of(s, '\n', t.len() as int);
        assert(s.take(t.len() as int) =~= t);
        if t.len() > 0 && t.last() == '\r' {
            assert(t.contains('\r'));
        }
        assert(s.skip(t.len() + 1 as int) =~= rest);
        assert(lines(s) =~= split(t, '\n') + lines(rest));
    }
}

/// A trimmed text stays itself after one leading space is trimmed off.
pub proof fn lemma_trim_after_space(t: Seq<char>)
    requires
        trim(t) == t,
    ensures
        trim(seq![' '] + t) == t,
{
    assert((seq![' '] + t).drop_first() =~= t);
    lemma_trim(t);
    if t.len() > 0 {
        assert(!is_ws(t[0]));
    }
    assert(trim_start(t) == t);
}

/// A trimmed text stays itself after one trailing line break is trimmed off.
pub proof fn lemma_trim_before_newline(t: Seq<char>)
    requires
        trim(t) == t,
    ensures
        trim(t.push('\n')) == t,
{
    lemma_trim(t);
    let u = t.push('\n');
    assert(u.drop_last() =~= t);
    if t.len() > 0 {
        assert(!is_ws(t[0]));
        assert(u[0] == t[0]);
        assert(trim_start(t) == t);
        assert(trim_start(u) == u);
    } else {
        assert(u.drop_first() =~= Seq::<char>::empty());
        assert(is_ws(u[0]));
        assert(trim_start(u.drop_first()) == u.drop_first());
        assert(trim_start(u) == Seq::<char>::empty());
    }
}


/// `parts.join(sep)` for a one-character separator.
pub open spec fn join_with(parts: Seq<Seq<char>>, sep: char) -> Seq<char>
    decreases parts.len(),
{
    if parts.len() == 0 {
        seq![]
    } else if parts.len() == 1 {
        parts[0]
    } else {
        join_with(parts.drop_last(), sep) + seq![sep] + parts.last()
    }
}

/// Joining pieces that are non-empty, trimmed and free of `sep` with `sep`,
/// then splitting, trimming and dropping empty pieces, gives them back.
pub proof fn lemma_split_trimmed_join(parts: Seq<Seq<char>>, sep: char)
    requires
        forall|i: int|
            0 <= i < parts.len() ==> {
                let t = #[trigger] parts[i];
                &&& t.len() > 0
                &&& trim(t) == t
                &&& !t.contains(sep)
            },
    ensures
        split_trimmed(join_with(parts, sep), sep) == parts,
    decreases parts.len(),
{
    let e = Seq::<char>::empty();
    assert(nonempty_trimmed(Seq::<Seq<char>>::empty()) == Seq::<Seq<char>>::empty());
    if parts.len() == 0 {
        lemma_split_single(e, sep);
        assert(seq![e].drop_last() =~= Seq::<Seq<char>>::empty());
        assert(seq![e].last() == e);
        assert(trim(e) == e);
        assert(nonempty_trimmed(seq![e]) =~= parts);
    } else if parts.len() == 1 {
        let t = parts[0];
        lemma_split_single(t, sep);
        assert(seq![t].drop_last() =~= Seq::<Seq<char>>::empty());
        assert(seq![t].last() == t);
        assert(nonempty_trimmed(seq![t]) =~= parts);
    } else {
        let pre = parts.drop_last();
        let t = parts.last();
        assert(t == parts[parts.len() - 1]);
        assert forall|i: int| 0 <= i < pre.len() implies {
            let u = #[trigger] pre[i];
            &&& u.len() > 0
            &&& trim(u) == u
            &&& !u.contains(sep)
        } by {
            assert(pre[i] == parts[i]);
        }
        lemma_split_trimmed_join(pre, sep);
        let jp = join_with(pre, sep);
        lemma_split_concat(jp, t, sep);
        lemma_split_single(t, sep);
        let ps = split(jp, sep) + seq![t];
        assert(ps.drop_last() =~= split(jp, sep));
        assert(ps.last() == t);
        assert(nonempty_trimmed(ps) == pre.push(t));
        assert(pre.push(t) =~= parts);
    }
}


/// The lines of a one-line text followed by a line break and more text.
pub proof fn lemma_lines_one(t: Seq<char>, rest: Seq<char>)
    requires
        !t.contains('\n'),
    ensures
        lines(t + seq!['\n'] + rest) == seq![strip_cr(t)] + lines(rest),
{
    let s = t + seq!['\n'] + rest;
    assert forall|j: int| 0 <= j < t.len() implies s[j] != '\n' by {
        assert(s[j] == t[j]);
        if t[j] == '\n' {
            assert(t.contains('\n'));
        }
    }
    lemma_index_of(s, '\n', t.len() as int);
    assert(s.take(t.len() as int) =~= t);
    assert(s.skip(t.len() + 1 as int) =~= rest);
}

} // verus!

//! Character- and string-level helpers over the character view of text.

use vstd::prelude::*;
use crate::order::{lemma_lex_skip_equal_prefix, text_le, char_le};

verus! {

/// The code of `c` with ASCII upper-case letters mapped to lower case.
pub open spec fn ascii_lower_code(c: char) -> int {
    if 'A' <= c && c <= 'Z' {
        (c as int) + 32
    } else {
        c as int
    }
}

pub fn ascii_lower_code_exec(c: char) -> (r: u32)
    ensures
        r as int == ascii_lower_code(c),
{
    let code = c as u32;
    if 'A' <= c && c <= 'Z' {
        code + 32
    } else {
        code
    }
}

/// Two texts are equal once ASCII letters are folded to lower case.
pub open spec fn eq_ignore_ascii_case(a: Seq<char>, b: Seq<char>) -> bool {
    &&& a.len() == b.len()
    &&& forall|i: int| 0 <= i < a.len() ==> ascii_lower_code(#[trigger] a[i]) == ascii_lower_code(b[i])
}

pub fn eq_ignore_ascii_case_exec(a: &str, b: &str) -> (r: bool)
    ensures
        r == eq_ignore_ascii_case(a@, b@),
{
    let n = a.unicode_len();
    if n != b.unicode_len() {
        return false;
    }
    let mut i: usize = 0;
    while i < n
        invariant
            n == a@.len(),
            n == b@.len(),
            i <= n,
            forall|k: int| 0 <= k < i ==> ascii_lower_code(#[trigger] a@[k]) == ascii_lower_code(b@[k]),
        decreases n - i,
    {
        if ascii_lower_code_exec(a.get_char(i)) != ascii_lower_code_exec(b.get_char(i)) {
            return false;
        }
        i = i + 1;
    }
    true
}

/// Exact text equality.
pub fn text_eq(a: &str, b: &str) -> (r: bool)
    ensures
        r == (a@ == b@),
{
    let x = a.to_owned();
    let y = b.to_owned();
    x == y
}

/// Compares two texts character by character.
pub fn text_le_exec(a: &str, b: &str) -> (r: bool)
    ensures
        r == text_le(a@, b@),
{
    let na = a.unicode_len();
    let nb = b.unicode_len();
    let mut i: usize = 0;
    while i < na && i < nb
        invariant
            na == a@.len(),
            nb == b@.len(),
            i <= na,
            i <= nb,
            a@.take(i as int) == b@.take(i as int),
        decreases na - i,
    {
        let ca = a.get_char(i);
        let cb = b.get_char(i);
        if ca != cb {
            proof {
                lemma_lex_skip_equal_prefix(a@, b@, |x: char, y: char| char_le(x, y), i as int);
                assert(a@.skip(i as int)[0] == ca);
                assert(b@.skip(i as int)[0] == cb);
            }
            return (ca as u32) <= (cb as u32);
        }
        assert(a@.take(i + 1) =~= a@.take(i as int).push(ca));
        assert(b@.take(i + 1) =~= b@.take(i as int).push(cb));
        i = i + 1;
    }
    proof {
        lemma_lex_skip_equal_prefix(a@, b@, |x: char, y: char| char_le(x, y), i as int);
    }
    i == na
}

/// Unicode `White_Space` characters.
pub open spec fn is_white_space(c: char) -> bool {
    let n = c as int;
    ||| 0x9 <= n <= 0xD
    ||| n == 0x20
    ||| n == 0x85
    ||| n == 0xA0
    ||| n == 0x1680
    ||| 0x2000 <= n <= 0x200A
    ||| n == 0x2028
    ||| n == 0x2029
    ||| n == 0x202F
    ||| n == 0x205F
    ||| n == 0x3000
}

pub fn is_white_space_exec(c: char) -> (r: bool)
    ensures
        r == is_white_space(c),
{
    let n = c as u32;
    (0x9 <= n && n <= 0xD) || n == 0x20 || n == 0x85 || n == 0xA0 || n == 0x1680 || (0x2000 <= n
        && n <= 0x200A) || n == 0x2028 || n == 0x2029 || n == 0x202F || n == 0x205F || n == 0x3000
}

/// `s` without its leading white space.
pub open spec fn trim_start(s: Seq<char>) -> Seq<char>
    decreases s.len(),
{
    if s.len() > 0 && is_white_space(s[0]) {
        trim_start(s.drop_first())
    } else {
        s
    }
}

/// `s` without its trailing white space.
pub open spec fn trim_end(s: Seq<char>) -> Seq<char>
    decreases s.len(),
{
    if s.len() > 0 && is_white_space(s.last()) {
        trim_end(s.drop_last())
    } else {
        s
    }
}

/// `s` without leading and trailing white space.
pub open spec fn trim(s: Seq<char>) -> Seq<char> {
    trim_end(trim_start(s))
}

proof fn lemma_trim_start_skip(s: Seq<char>, i: int)
    requires
        0 <= i <= s.len(),
        forall|k: int| 0 <= k < i ==> is_white_space(#[trigger] s[k]),
    ensures
        trim_start(s) == trim_start(s.skip(i)),
    decreases i,
{
    if i > 0 {
        lemma_trim_start_skip(s.drop_first(), i - 1);
        assert(s.drop_first().skip(i - 1) =~= s.skip(i));
    } else {
        assert(s.skip(0) =~= s);
    }
}

proof fn lemma_trim_end_take(s: Seq<char>, j: int)
    requires
        0 <= j <= s.len(),
        forall|k: int| j <= k < s.len() ==> is_white_space(#[trigger] s[k]),
    ensures
        trim_end(s) == trim_end(s.take(j)),
    decreases s.len() - j,
{
    if j < s.len() {
        assert(s.drop_last().take(j) =~= s.take(j));
        lemma_trim_end_take(s.drop_last(), j);
    } else {
        assert(s.take(j) =~= s);
    }
}

/// The sub-range `[start, end)` of `s` left once leading and trailing white space is removed.
pub fn trim_bounds(s: &str) -> (r: (usize, usize))
    ensures
        r.0 <= r.1 <= s@.len(),
        trim(s@) == s@.subrange(r.0 as int, r.1 as int),
{
    let n = s.unicode_len();
    let mut i: usize = 0;
    while i < n && is_white_space_exec(s.get_char(i))
        invariant
            n == s@.len(),
            i <= n,
            forall|k: int| 0 <= k < i ==> is_white_space(#[trigger] s@[k]),
        decreases n - i,
    {
        i = i + 1;
    }
    let ghost rest = s@.skip(i as int);
    proof {
        lemma_trim_start_skip(s@, i as int);
        assert(trim_start(rest) == rest);
    }
    let mut j: usize = n;
    while j > i && is_white_space_exec(s.get_char(j - 1))
        invariant
            n == s@.len(),
            i <= j <= n,
            rest == s@.skip(i as int),
            forall|k: int| j <= k < n ==> is_white_space(#[trigger] s@[k]),
        decreases j,
    {
        j = j - 1;
    }
    proof {
        assert forall|k: int| j - i <= k < rest.len() implies is_white_space(#[trigger] rest[k]) by {
            assert(rest[k] == s@[k + i]);
        }
        lemma_trim_end_take(rest, (j - i) as int);
        let t = rest.take((j - i) as int);
        assert(t =~= s@.subrange(i as int, j as int));
        if t.len() > 0 {
            assert(t.last() == s@[j - 1]);
        }
    }
    (i, j)
}

/// `str::trim` over the character view.
pub fn trim_text(s: &str) -> (r: String)
    ensures
        r@ == trim(s@),
{
    let (a, b) = trim_bounds(s);
    s.substring_char(a, b).to_owned()
}

/// `str::split` on one character: the pieces between occurrences of `c`,
/// empty ones included, so `n` occurrences give `n + 1` pieces.
pub open spec fn split_on(s: Seq<char>, c: char) -> Seq<Seq<char>>
    decreases s.len(),
{
    if s.len() == 0 {
        seq![Seq::empty()]
    } else {
        let prev = split_on(s.drop_last(), c);
        if s.last() == c {
            prev.push(Seq::empty())
        } else {
            prev.update(prev.len() - 1, prev.last().push(s.last()))
        }
    }
}

pub proof fn lemma_split_on_nonempty_exported(s: Seq<char>, c: char)
    ensures
        split_on(s, c).len() >= 1,
{
    lemma_split_on_nonempty(s, c);
}

proof fn lemma_split_on_nonempty(s: Seq<char>, c: char)
    ensures
        split_on(s, c).len() >= 1,
    decreases s.len(),
{
    if s.len() > 0 {
        lemma_split_on_nonempty(s.drop_last(), c);
    }
}

/// Splits `s` at every `c`.
pub fn split_char(s: &str, c: char) -> (r: Vec<String>)
    ensures
        r@.map_values(|x: String| x@) == split_on(s@, c),
{
    let n = s.unicode_len();
    let mut pieces: Vec<String> = Vec::new();
    let mut start: usize = 0;
    let mut i: usize = 0;
    proof {
        assert(s@.take(0) =~= Seq::<char>::empty());
    }
    while i < n
        invariant
            n == s@.len(),
            start <= i <= n,
            pieces@.map_values(|x: String| x@).push(s@.subrange(start as int, i as int)) == split_on(
                s@.take(i as int),
                c,
            ),
        decreases n - i,
    {
        let ch = s.get_char(i);
        let ghost before = pieces@.map_values(|x: String| x@);
        proof {
            assert(s@.take(i + 1).drop_last() =~= s@.take(i as int));
            assert(s@.take(i + 1).last() == ch);
            lemma_split_on_nonempty(s@.take(i as int), c);
        }
        if ch == c {
            pieces.push(s.substring_char(start, i).to_owned());
            assert(pieces@.map_values(|x: String| x@) =~= before.push(s@.subrange(start as int, i as int)));
            start = i + 1;
            assert(s@.subrange(start as int, i + 1) =~= Seq::<char>::empty());
        } else {
            let ghost prev = split_on(s@.take(i as int), c);
            assert(s@.subrange(start as int, i + 1) =~= s@.subrange(start as int, i as int).push(ch));
            assert(before.push(s@.subrange(start as int, i + 1)) =~= prev.update(
                prev.len() - 1,
                prev.last().push(ch),
            ));
        }
        i = i + 1;
    }
    pieces.push(s.substring_char(start, n).to_owned());
    assert(s@.take(n as int) =~= s@);
    assert(pieces@.map_values(|x: String| x@) =~= split_on(s@, c));
    pieces
}

/// `line` without one trailing carriage return.
pub open spec fn strip_cr(line: Seq<char>) -> Seq<char> {
    if line.len() > 0 && line.last() == '\r' {
        line.drop_last()
    } else {
        line
    }
}

/// `str::lines`: the text split at `\n`, each line that a `\n` ended losing
/// a trailing `\r`, and no empty last line after a final line ending.
pub open spec fn text_lines(s: Seq<char>) -> Seq<Seq<char>> {
    let pieces = split_on(s, '\n');
    let kept = if pieces.last().len() == 0 { pieces.drop_last() } else { pieces };
    Seq::new(kept.len(), |k: int| if k < pieces.len() - 1 { strip_cr(pieces[k]) } else { pieces[k] })
}

/// The lines of `s`, as `str::lines` gives them.
pub fn lines_of(s: &str) -> (r: Vec<String>)
    ensures
        r@.map_values(|x: String| x@) == text_lines(s@),
{
    let pieces = split_char(s, '\n');
    let ghost pv = pieces@.map_values(|x: String| x@);
    proof {
        lemma_split_on_nonempty(s@, '\n');
    }
    let np = pieces.len();
    let last_empty = pieces[np - 1].as_str().unicode_len() == 0;
    let kept = if last_empty { np - 1 } else { np };
    let mut out: Vec<String> = Vec::new();
    let mut k: usize = 0;
    while k < kept
        invariant
            pv == pieces@.map_values(|x: String| x@),
            pv == split_on(s@, '\n'),
            np == pieces@.len(),
            np >= 1,
            kept <= np,
            kept == (if pv.last().len() == 0 { np - 1 } else { np as int }),
            k <= kept,
            out@.map_values(|x: String| x@) == text_lines(s@).take(k as int),
        decreases kept - k,
    {
        let line = pieces[k].as_str();
        assert(pv[k as int] == line@);
        let ghost before = out@.map_values(|x: String| x@);
        if k + 1 < np {
            let n = line.unicode_len();
            if n > 0 && line.get_char(n - 1) == '\r' {
                out.push(line.substring_char(0, n - 1).to_owned());
                assert(line@.subrange(0, n - 1) =~= line@.drop_last());
            } else {
                out.push(line.to_owned());
            }
        } else {
            out.push(line.to_owned());
        }
        proof {
            let tl = text_lines(s@);
            assert(tl.len() == kept);
            assert(tl[k as int] == (if k < np - 1 { strip_cr(pv[k as int]) } else { pv[k as int] }));
            assert(out@.map_values(|x: String| x@) =~= before.push(tl[k as int]));
            assert(tl.take(k + 1) =~= tl.take(k as int).push(tl[k as int]));
        }
        k = k + 1;
    }
    assert(text_lines(s@).take(kept as int) =~= text_lines(s@));
    out
}

} // verus!

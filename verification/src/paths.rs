//! Paths as sequences of components, the way the rest of the crate sees them:
//! `Path::components`, rendered one string per component (`/` for the root).

use vstd::prelude::*;
use vstd::relations::total_ordering;
use crate::order::{lemma_lex_skip_equal_prefix, lemma_path_total, path_le, path_list_le, component_le, component_rank};
use crate::sort::SortByView;
use crate::text::{text_le_exec, text_eq, split_on, split_char};

verus! {

/// A filesystem path, one string per component.
pub type FsPath = Vec<String>;

/// The components of a path, as text.
pub open spec fn pview(p: FsPath) -> Seq<Seq<char>> {
    p.deep_view()
}

/// The components of every path in a list.
pub open spec fn pviews(ps: Seq<FsPath>) -> Seq<Seq<Seq<char>>> {
    ps.map_values(|p: FsPath| pview(p))
}

/// `Path::starts_with`: `base`'s components are a prefix of `path`'s.
pub open spec fn starts_with(path: Seq<Seq<char>>, base: Seq<Seq<char>>) -> bool {
    base.len() <= path.len() && path.take(base.len() as int) == base
}

/// Component-wise path equality.
pub fn path_eq(a: &FsPath, b: &FsPath) -> (r: bool)
    ensures
        r == (pview(*a) == pview(*b)),
{
    if a.len() != b.len() {
        assert(pview(*a).len() != pview(*b).len());
        return false;
    }
    let mut i: usize = 0;
    while i < a.len()
        invariant
            a@.len() == b@.len(),
            i <= a@.len(),
            forall|k: int| 0 <= k < i ==> pview(*a)[k] == pview(*b)[k],
        decreases a@.len() - i,
    {
        if !(a[i] == b[i]) {
            assert(pview(*a)[i as int] != pview(*b)[i as int]);
            return false;
        }
        i = i + 1;
    }
    assert(pview(*a) =~= pview(*b));
    true
}

/// `Path::starts_with` on component sequences.
pub fn path_starts_with(path: &FsPath, base: &FsPath) -> (r: bool)
    ensures
        r == starts_with(pview(*path), pview(*base)),
{
    if base.len() > path.len() {
        return false;
    }
    let mut i: usize = 0;
    while i < base.len()
        invariant
            base@.len() <= path@.len(),
            i <= base@.len(),
            forall|k: int| 0 <= k < i ==> pview(*path)[k] == pview(*base)[k],
        decreases base@.len() - i,
    {
        if !(path[i] == base[i]) {
            assert(pview(*path).take(base@.len() as int)[i as int] != pview(*base)[i as int]);
            return false;
        }
        i = i + 1;
    }
    assert(pview(*path).take(base@.len() as int) =~= pview(*base));
    true
}

/// A copy of `p` with the same components.
pub fn clone_path(p: &FsPath) -> (r: FsPath)
    ensures
        pview(r) == pview(*p),
{
    let mut out: FsPath = Vec::new();
    let mut i: usize = 0;
    while i < p.len()
        invariant
            i <= p@.len(),
            out@.len() == i,
            forall|k: int| 0 <= k < i ==> out@[k]@ == p@[k]@,
        decreases p@.len() - i,
    {
        out.push(p[i].clone());
        i = i + 1;
    }
    assert(pview(out) =~= pview(*p));
    out
}

/// Copies of every path in a list.
pub fn clone_paths(ps: &Vec<FsPath>) -> (r: Vec<FsPath>)
    ensures
        pviews(r@) == pviews(ps@),
{
    let mut out: Vec<FsPath> = Vec::new();
    let mut i: usize = 0;
    while i < ps.len()
        invariant
            i <= ps@.len(),
            out@.len() == i,
            forall|k: int| 0 <= k < i ==> pview(#[trigger] out@[k]) == pview(ps@[k]),
        decreases ps@.len() - i,
    {
        out.push(clone_path(&ps[i]));
        i = i + 1;
    }
    assert(pviews(out@) =~= pviews(ps@));
    out
}

/// The rank of a component's kind: the root, `.`, `..`, then names.
fn component_rank_exec(c: &str) -> (r: u8)
    ensures
        r as nat == component_rank(c@),
{
    proof {
        reveal_strlit("/");
        reveal_strlit(".");
        reveal_strlit("..");
    }
    if text_eq(c, "/") {
        0
    } else if text_eq(c, ".") {
        1
    } else if text_eq(c, "..") {
        2
    } else {
        3
    }
}

/// Compares two components: by kind first, names as text.
fn component_le_exec(a: &str, b: &str) -> (r: bool)
    ensures
        r == component_le(a@, b@),
{
    let ra = component_rank_exec(a);
    let rb = component_rank_exec(b);
    if ra != rb {
        ra < rb
    } else {
        text_le_exec(a, b)
    }
}

/// Compares two paths component by component.
pub fn path_le_exec(a: &FsPath, b: &FsPath) -> (r: bool)
    ensures
        r == path_le(pview(*a), pview(*b)),
{
    let na = a.len();
    let nb = b.len();
    let mut i: usize = 0;
    while i < na && i < nb
        invariant
            na == a@.len(),
            nb == b@.len(),
            i <= na,
            i <= nb,
            pview(*a).take(i as int) == pview(*b).take(i as int),
        decreases na - i,
    {
        if !(a[i] == b[i]) {
            proof {
                lemma_lex_skip_equal_prefix(
                    pview(*a),
                    pview(*b),
                    |x: Seq<char>, y: Seq<char>| component_le(x, y),
                    i as int,
                );
                assert(pview(*a).skip(i as int)[0] == a@[i as int]@);
                assert(pview(*b).skip(i as int)[0] == b@[i as int]@);
            }
            return component_le_exec(a[i].as_str(), b[i].as_str());
        }
        assert(pview(*a).take(i + 1) =~= pview(*a).take(i as int).push(a@[i as int]@));
        assert(pview(*b).take(i + 1) =~= pview(*b).take(i as int).push(b@[i as int]@));
        i = i + 1;
    }
    proof {
        lemma_lex_skip_equal_prefix(
            pview(*a),
            pview(*b),
            |x: Seq<char>, y: Seq<char>| component_le(x, y),
            i as int,
        );
    }
    i == na
}

impl SortByView for Vec<String> {
    type V = Seq<Seq<char>>;

    open spec fn sort_view(&self) -> Seq<Seq<char>> {
        pview(*self)
    }

    open spec fn view_le(a: Seq<Seq<char>>, b: Seq<Seq<char>>) -> bool {
        path_le(a, b)
    }

    proof fn lemma_view_le_total() {
        lemma_path_total();
        assert((|a: Seq<Seq<char>>, b: Seq<Seq<char>>| Self::view_le(a, b)) =~= (|
            x: Seq<Seq<char>>,
            y: Seq<Seq<char>>,
        | path_le(x, y)));
    }

    fn le_exec(&self, other: &Self) -> (r: bool) {
        path_le_exec(self, other)
    }
}

/// The first `k` components of `p`.
pub fn path_prefix(p: &FsPath, k: usize) -> (r: FsPath)
    requires
        k <= p@.len(),
    ensures
        pview(r) == pview(*p).take(k as int),
{
    let mut out: FsPath = Vec::new();
    let mut i: usize = 0;
    while i < k
        invariant
            k <= p@.len(),
            i <= k,
            out@.len() == i,
            forall|j: int| 0 <= j < i ==> out@[j]@ == p@[j]@,
        decreases k - i,
    {
        out.push(p[i].clone());
        i = i + 1;
    }
    assert(pview(out) =~= pview(*p).take(k as int));
    out
}

/// The components of `p` after the first `k`.
pub fn path_suffix(p: &FsPath, k: usize) -> (r: FsPath)
    requires
        k <= p@.len(),
    ensures
        pview(r) == pview(*p).skip(k as int),
{
    let mut out: FsPath = Vec::new();
    let mut i: usize = k;
    while i < p.len()
        invariant
            k <= i <= p@.len(),
            out@.len() == i - k,
            forall|j: int| 0 <= j < i - k ==> out@[j]@ == p@[j + k]@,
        decreases p@.len() - i,
    {
        out.push(p[i].clone());
        i = i + 1;
    }
    assert(pview(out) =~= pview(*p).skip(k as int));
    out
}

/// `a` followed by the components of `b` (`Path::join` with a relative `b`).
pub fn path_concat(a: &FsPath, b: &FsPath) -> (r: FsPath)
    ensures
        pview(r) == pview(*a) + pview(*b),
{
    let mut out = clone_path(a);
    let mut i: usize = 0;
    while i < b.len()
        invariant
            i <= b@.len(),
            pview(out) == pview(*a) + pview(*b).take(i as int),
        decreases b@.len() - i,
    {
        let ghost before = pview(out);
        out.push(b[i].clone());
        assert(pview(out) =~= before.push(b@[i as int]@));
        assert(pview(*b).take(i + 1) =~= pview(*b).take(i as int).push(b@[i as int]@));
        i = i + 1;
    }
    assert(pview(*b).take(b@.len() as int) =~= pview(*b));
    out
}

/// Whether `ps` holds a path equal to `p`.
pub fn paths_contain(ps: &Vec<FsPath>, p: &FsPath) -> (r: bool)
    ensures
        r == pviews(ps@).contains(pview(*p)),
{
    let mut i: usize = 0;
    while i < ps.len()
        invariant
            i <= ps@.len(),
            forall|j: int| 0 <= j < i ==> pviews(ps@)[j] != pview(*p),
        decreases ps@.len() - i,
    {
        if path_eq(&ps[i], p) {
            assert(pviews(ps@)[i as int] == pview(*p));
            return true;
        }
        i = i + 1;
    }
    false
}

/// Whether `p`'s last components are exactly `suffix`.
pub fn path_ends_with(p: &FsPath, suffix: &FsPath) -> (r: bool)
    ensures
        r == (pview(*suffix).len() <= pview(*p).len() && pview(*p).skip(
            pview(*p).len() - pview(*suffix).len(),
        ) == pview(*suffix)),
{
    if suffix.len() > p.len() {
        return false;
    }
    let off = p.len() - suffix.len();
    let n = p.len();
    let mut i: usize = 0;
    while i < suffix.len()
        invariant
            n == p@.len(),
            suffix@.len() <= p@.len(),
            off == p@.len() - suffix@.len(),
            i <= suffix@.len(),
            forall|k: int| 0 <= k < i ==> pview(*p)[k + off] == pview(*suffix)[k],
        decreases suffix@.len() - i,
    {
        if !(p[off + i] == suffix[i]) {
            assert(pview(*p).skip(off as int)[i as int] != pview(*suffix)[i as int]);
            return false;
        }
        i = i + 1;
    }
    assert(pview(*p).skip(off as int) =~= pview(*suffix));
    true
}

/// Compares two lists of paths path by path.
pub fn path_list_le_exec(a: &Vec<FsPath>, b: &Vec<FsPath>) -> (r: bool)
    ensures
        r == path_list_le(pviews(a@), pviews(b@)),
{
    let na = a.len();
    let nb = b.len();
    let mut i: usize = 0;
    while i < na && i < nb
        invariant
            na == a@.len(),
            nb == b@.len(),
            i <= na,
            i <= nb,
            pviews(a@).take(i as int) == pviews(b@).take(i as int),
        decreases na - i,
    {
        if !path_eq(&a[i], &b[i]) {
            proof {
                lemma_lex_skip_equal_prefix(
                    pviews(a@),
                    pviews(b@),
                    |x: Seq<Seq<char>>, y: Seq<Seq<char>>| path_le(x, y),
                    i as int,
                );
                assert(pviews(a@).skip(i as int)[0] == pview(a@[i as int]));
                assert(pviews(b@).skip(i as int)[0] == pview(b@[i as int]));
            }
            return path_le_exec(&a[i], &b[i]);
        }
        assert(pviews(a@).take(i + 1) =~= pviews(a@).take(i as int).push(pview(a@[i as int])));
        assert(pviews(b@).take(i + 1) =~= pviews(b@).take(i as int).push(pview(b@[i as int])));
        i = i + 1;
    }
    proof {
        lemma_lex_skip_equal_prefix(
            pviews(a@),
            pviews(b@),
            |x: Seq<Seq<char>>, y: Seq<Seq<char>>| path_le(x, y),
            i as int,
        );
    }
    i == na
}

/// Whether two lists of paths are equal path by path.
pub fn paths_eq(a: &Vec<FsPath>, b: &Vec<FsPath>) -> (r: bool)
    ensures
        r == (pviews(a@) == pviews(b@)),
{
    if a.len() != b.len() {
        assert(pviews(a@).len() != pviews(b@).len());
        return false;
    }
    let mut i: usize = 0;
    while i < a.len()
        invariant
            a@.len() == b@.len(),
            i <= a@.len(),
            forall|k: int| 0 <= k < i ==> pviews(a@)[k] == pviews(b@)[k],
        decreases a@.len() - i,
    {
        if !path_eq(&a[i], &b[i]) {
            assert(pviews(a@)[i as int] != pviews(b@)[i as int]);
            return false;
        }
        i = i + 1;
    }
    assert(pviews(a@) =~= pviews(b@));
    true
}

/// The components of a textual path, as `Path::components` reads it on
/// Unix: a leading `/` is the root, separators are `/` and repeated ones
/// count once, `.` is dropped except at the very start, and a trailing
/// separator is ignored.
pub open spec fn parse_components(s: Seq<char>) -> Seq<Seq<char>> {
    let parts = split_on(s, '/');
    let rooted = s.len() > 0 && s[0] == '/';
    let lead_cur = !rooted && parts[0] == "."@;
    let body = parts.filter(|q: Seq<char>| q.len() > 0 && q != "."@);
    (if rooted { seq!["/"@] } else { Seq::empty() }) + (if lead_cur { seq!["."@] } else { Seq::empty() }) + body
}

/// The components joined by `/`.
pub open spec fn join_components(ps: Seq<Seq<char>>) -> Seq<char>
    decreases ps.len(),
{
    if ps.len() == 0 {
        Seq::empty()
    } else if ps.len() == 1 {
        ps[0]
    } else {
        join_components(ps.drop_last()) + "/"@ + ps.last()
    }
}

/// A path written out: the root, then the other components joined by `/`.
pub open spec fn path_text(p: Seq<Seq<char>>) -> Seq<char> {
    if p.len() > 0 && p[0] == "/"@ {
        "/"@ + join_components(p.skip(1))
    } else {
        join_components(p)
    }
}

/// Reads a textual path into its components.
pub fn parse_path(s: &str) -> (r: FsPath)
    ensures
        pview(r) == parse_components(s@),
{
    let parts = split_char(s, '/');
    let ghost pv = parts@.map_values(|x: String| x@);
    proof {
        crate::text::lemma_split_on_nonempty_exported(s@, '/');
        reveal_strlit("/");
        reveal_strlit(".");
    }
    let slash = "/";
    let dot = ".";
    let n = s.unicode_len();
    let rooted = n > 0 && s.get_char(0) == '/';
    let lead_cur = !rooted && text_eq(parts[0].as_str(), dot);
    assert(pv[0] == parts@[0]@);
    let mut out: FsPath = Vec::new();
    if rooted {
        out.push(String::from_str(slash));
    }
    if lead_cur {
        out.push(String::from_str(dot));
    }
    let ghost head = pview(out);
    let ghost keep = |q: Seq<char>| q.len() > 0 && q != "."@;
    assert(head == (if rooted { seq!["/"@] } else { Seq::<Seq<char>>::empty() }) + (if lead_cur {
        seq!["."@]
    } else {
        Seq::<Seq<char>>::empty()
    })) by {
        if rooted && lead_cur {
            assert(false);
        }
    }
    let mut i: usize = 0;
    assert(pv.take(0).filter(keep) =~= Seq::<Seq<char>>::empty()) by {
        reveal(Seq::filter);
    }
    assert(pview(out) =~= head + pv.take(0).filter(keep));
    while i < parts.len()
        invariant
            pv == parts@.map_values(|x: String| x@),
            keep == (|q: Seq<char>| q.len() > 0 && q != "."@),
            dot@ == "."@,
            i <= parts@.len(),
            pview(out) == head + pv.take(i as int).filter(keep),
        decreases parts@.len() - i,
    {
        let part = parts[i].as_str();
        assert(pv[i as int] == part@);
        proof {
            assert(pv.take(i + 1) =~= pv.take(i as int).push(pv[i as int]));
            pv.take(i as int).lemma_filter_push(pv[i as int], keep);
        }
        if part.unicode_len() > 0 && !text_eq(part, dot) {
            let ghost before = pview(out);
            out.push(part.to_owned());
            assert(pview(out) =~= before.push(part@));
        }
        i = i + 1;
    }
    assert(pv.take(parts@.len() as int) =~= pv);
    out
}

/// Writes a path out as text.
pub fn path_string(p: &FsPath) -> (r: String)
    ensures
        r@ == path_text(pview(*p)),
{
    let slash = "/";
    proof {
        reveal_strlit("/");
    }
    let n = p.len();
    if n == 0 {
        return String::new();
    }
    let rooted = text_eq(p[0].as_str(), slash);
    let start: usize = if rooted { 1 } else { 0 };
    let ghost rest = pview(*p).skip(start as int);
    let mut out = String::new();
    let mut i: usize = start;
    assert(rest.take(0) =~= Seq::<Seq<char>>::empty());
    while i < n
        invariant
            n == p@.len(),
            start <= i <= n,
            rest == pview(*p).skip(start as int),
            slash@ == "/"@,
            out@ == join_components(rest.take(i - start)),
        decreases n - i,
    {
        let ghost before = out@;
        proof {
            assert(rest.take(i - start + 1).drop_last() =~= rest.take(i - start));
            assert(rest.take(i - start + 1).last() == p@[i as int]@);
        }
        if i > start {
            out.append(slash);
        } else {
            assert(rest.take(1) =~= seq![p@[i as int]@]);
            assert(before =~= Seq::<char>::empty());
        }
        out.append(p[i].as_str());
        i = i + 1;
    }
    assert(rest.take(n - start) =~= rest);
    assert(pview(*p)[0] == p@[0]@);
    assert(pview(*p).skip(0) =~= pview(*p));
    if rooted {
        let mut r = String::from_str(slash);
        r.append(out.as_str());
        r
    } else {
        out
    }
}

pub proof fn lemma_path_total_exported()
    ensures
        vstd::relations::total_ordering(|a: Seq<Seq<char>>, b: Seq<Seq<char>>| path_le(a, b)),
{
    lemma_path_total();
}

} // verus!

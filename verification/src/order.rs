//! Lexicographic orders over sequences, built from an order on elements.

use vstd::prelude::*;
use vstd::relations::*;

verus! {

/// `a` is at or before `b` in the lexicographic order induced by `le`.
pub open spec fn lex_le<T>(a: Seq<T>, b: Seq<T>, le: spec_fn(T, T) -> bool) -> bool
    decreases a.len(),
{
    if a.len() == 0 {
        true
    } else if b.len() == 0 {
        false
    } else if a[0] == b[0] {
        lex_le(a.drop_first(), b.drop_first(), le)
    } else {
        le(a[0], b[0])
    }
}

proof fn lemma_lex_reflexive<T>(a: Seq<T>, le: spec_fn(T, T) -> bool)
    ensures
        lex_le(a, a, le),
    decreases a.len(),
{
    if a.len() > 0 {
        lemma_lex_reflexive(a.drop_first(), le);
    }
}

proof fn lemma_lex_antisymmetric<T>(a: Seq<T>, b: Seq<T>, le: spec_fn(T, T) -> bool)
    requires
        total_ordering(le),
        lex_le(a, b, le),
        lex_le(b, a, le),
    ensures
        a == b,
    decreases a.len(),
{
    if a.len() == 0 {
        assert(b.len() == 0);
        assert(a =~= b);
    } else {
        assert(b.len() > 0);
        if a[0] == b[0] {
            lemma_lex_antisymmetric(a.drop_first(), b.drop_first(), le);
            assert(a =~= seq![a[0]] + a.drop_first());
            assert(b =~= seq![b[0]] + b.drop_first());
        } else {
            assert(le(a[0], b[0]) && le(b[0], a[0]));
        }
    }
}

proof fn lemma_lex_transitive<T>(a: Seq<T>, b: Seq<T>, c: Seq<T>, le: spec_fn(T, T) -> bool)
    requires
        total_ordering(le),
        lex_le(a, b, le),
        lex_le(b, c, le),
    ensures
        lex_le(a, c, le),
    decreases a.len(),
{
    if a.len() > 0 {
        assert(b.len() > 0 && c.len() > 0);
        if a[0] == b[0] && b[0] == c[0] {
            lemma_lex_transitive(a.drop_first(), b.drop_first(), c.drop_first(), le);
        } else if a[0] == b[0] {
            assert(le(b[0], c[0]));
        } else if b[0] == c[0] {
            assert(le(a[0], b[0]));
        } else {
            assert(le(a[0], b[0]) && le(b[0], c[0]));
            assert(le(a[0], c[0]));
            if a[0] == c[0] {
                assert(le(c[0], b[0]));
            }
        }
    }
}

proof fn lemma_lex_connected<T>(a: Seq<T>, b: Seq<T>, le: spec_fn(T, T) -> bool)
    requires
        total_ordering(le),
    ensures
        lex_le(a, b, le) || lex_le(b, a, le),
    decreases a.len(),
{
    if a.len() > 0 && b.len() > 0 {
        if a[0] == b[0] {
            lemma_lex_connected(a.drop_first(), b.drop_first(), le);
        } else {
            assert(le(a[0], b[0]) || le(b[0], a[0]));
        }
    }
}

/// The lexicographic order over a total order is itself a total order.
pub proof fn lemma_lex_total<T>(le: spec_fn(T, T) -> bool)
    requires
        total_ordering(le),
    ensures
        total_ordering(|a: Seq<T>, b: Seq<T>| lex_le(a, b, le)),
{
    let r = |a: Seq<T>, b: Seq<T>| lex_le(a, b, le);
    assert forall|a: Seq<T>| #[trigger] r(a, a) by {
        lemma_lex_reflexive(a, le);
    }
    assert forall|a: Seq<T>, b: Seq<T>| #[trigger] r(a, b) && #[trigger] r(b, a) implies a == b by {
        lemma_lex_antisymmetric(a, b, le);
    }
    assert forall|a: Seq<T>, b: Seq<T>, c: Seq<T>| #[trigger] r(a, b) && #[trigger] r(b, c) implies r(
        a,
        c,
    ) by {
        lemma_lex_transitive(a, b, c, le);
    }
    assert forall|a: Seq<T>, b: Seq<T>| #[trigger] r(a, b) || #[trigger] r(b, a) by {
        lemma_lex_connected(a, b, le);
    }
}

/// Skipping an equal prefix does not change the lexicographic comparison.
pub proof fn lemma_lex_skip_equal_prefix<T>(a: Seq<T>, b: Seq<T>, le: spec_fn(T, T) -> bool, i: int)
    requires
        0 <= i <= a.len(),
        i <= b.len(),
        a.take(i) == b.take(i),
    ensures
        lex_le(a, b, le) == lex_le(a.skip(i), b.skip(i), le),
    decreases i,
{
    if i > 0 {
        assert(a[0] == a.take(i)[0]);
        assert(b[0] == b.take(i)[0]);
        assert(a.drop_first().take(i - 1) =~= a.take(i).drop_first());
        assert(b.drop_first().take(i - 1) =~= b.take(i).drop_first());
        lemma_lex_skip_equal_prefix(a.drop_first(), b.drop_first(), le, i - 1);
        assert(a.drop_first().skip(i - 1) =~= a.skip(i));
        assert(b.drop_first().skip(i - 1) =~= b.skip(i));
    } else {
        assert(a.skip(0) =~= a);
        assert(b.skip(0) =~= b);
    }
}

/// Characters ordered by code point.
pub open spec fn char_le(a: char, b: char) -> bool {
    (a as int) <= (b as int)
}

/// Text ordered character by character.
pub open spec fn text_le(a: Seq<char>, b: Seq<char>) -> bool {
    lex_le(a, b, |x: char, y: char| char_le(x, y))
}

/// The rank of a path component's kind, as `std::path::Component` orders
/// its variants: the root, then `.`, then `..`, then names.
pub open spec fn component_rank(c: Seq<char>) -> nat {
    if c == "/"@ {
        0
    } else if c == "."@ {
        1
    } else if c == ".."@ {
        2
    } else {
        3
    }
}

/// Components ordered by kind, and names among themselves as text.
pub open spec fn component_le(a: Seq<char>, b: Seq<char>) -> bool {
    if component_rank(a) != component_rank(b) {
        component_rank(a) < component_rank(b)
    } else {
        text_le(a, b)
    }
}

/// Paths ordered component by component, as `Path`'s `Ord` orders them.
pub open spec fn path_le(a: Seq<Seq<char>>, b: Seq<Seq<char>>) -> bool {
    lex_le(a, b, |x: Seq<char>, y: Seq<char>| component_le(x, y))
}

/// Lists of paths ordered path by path.
pub open spec fn path_list_le(a: Seq<Seq<Seq<char>>>, b: Seq<Seq<Seq<char>>>) -> bool {
    lex_le(a, b, |x: Seq<Seq<char>>, y: Seq<Seq<char>>| path_le(x, y))
}

pub proof fn lemma_char_total()
    ensures
        total_ordering(|x: char, y: char| char_le(x, y)),
{
    let r = |x: char, y: char| char_le(x, y);
    assert forall|a: char, b: char| #[trigger] r(a, b) && #[trigger] r(b, a) implies a == b by {
        assert((a as int) == (b as int));
    }
}

pub proof fn lemma_text_total()
    ensures
        total_ordering(|x: Seq<char>, y: Seq<char>| text_le(x, y)),
{
    lemma_char_total();
    lemma_lex_total(|x: char, y: char| char_le(x, y));
    assert((|x: Seq<char>, y: Seq<char>| text_le(x, y)) =~= (|a: Seq<char>, b: Seq<char>|
        lex_le(a, b, |x: char, y: char| char_le(x, y))));
}

pub proof fn lemma_component_total()
    ensures
        total_ordering(|x: Seq<char>, y: Seq<char>| component_le(x, y)),
{
    lemma_text_total();
    let t = |x: Seq<char>, y: Seq<char>| text_le(x, y);
    let r = |x: Seq<char>, y: Seq<char>| component_le(x, y);
    assert forall|a: Seq<char>| #[trigger] r(a, a) by {
        assert(t(a, a));
    }
    assert forall|a: Seq<char>, b: Seq<char>| #[trigger] r(a, b) && #[trigger] r(b, a) implies a == b by {
        assert(t(a, b) && t(b, a));
    }
    assert forall|a: Seq<char>, b: Seq<char>, c: Seq<char>| #[trigger] r(a, b) && #[trigger] r(b, c) implies r(
        a,
        c,
    ) by {
        if component_rank(a) == component_rank(b) && component_rank(b) == component_rank(c) {
            assert(t(a, b) && t(b, c));
        }
    }
    assert forall|a: Seq<char>, b: Seq<char>| #[trigger] r(a, b) || #[trigger] r(b, a) by {
        if component_rank(a) == component_rank(b) {
            assert(t(a, b) || t(b, a));
        }
    }
}

pub proof fn lemma_path_total()
    ensures
        total_ordering(|x: Seq<Seq<char>>, y: Seq<Seq<char>>| path_le(x, y)),
{
    lemma_component_total();
    lemma_lex_total(|x: Seq<char>, y: Seq<char>| component_le(x, y));
    assert((|x: Seq<Seq<char>>, y: Seq<Seq<char>>| path_le(x, y)) =~= (|
        a: Seq<Seq<char>>,
        b: Seq<Seq<char>>,
    | lex_le(a, b, |x: Seq<char>, y: Seq<char>| component_le(x, y))));
}

pub proof fn lemma_path_list_total()
    ensures
        total_ordering(|x: Seq<Seq<Seq<char>>>, y: Seq<Seq<Seq<char>>>| path_list_le(x, y)),
{
    lemma_path_total();
    lemma_lex_total(|x: Seq<Seq<char>>, y: Seq<Seq<char>>| path_le(x, y));
    assert((|x: Seq<Seq<Seq<char>>>, y: Seq<Seq<Seq<char>>>| path_list_le(x, y)) =~= (|
        a: Seq<Seq<Seq<char>>>,
        b: Seq<Seq<Seq<char>>>,
    | lex_le(a, b, |x: Seq<Seq<char>>, y: Seq<Seq<char>>| path_le(x, y))));
}

} // verus!

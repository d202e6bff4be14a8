//! Stable insertion sort over values compared through a view with a total order,
//! plus the facts about sorted sequences the rest of the crate relies on.

use vstd::prelude::*;
use vstd::relations::*;
use vstd::multiset::Multiset;
use vstd::seq_lib::{group_to_multiset_ensures, to_multiset_insert, to_multiset_build};

verus! {

/// A value whose order is given by a total order on its view.
pub trait SortByView: Sized {
    type V;

    spec fn sort_view(&self) -> Self::V;

    spec fn view_le(a: Self::V, b: Self::V) -> bool;

    proof fn lemma_view_le_total()
        ensures
            total_ordering(|a: Self::V, b: Self::V| Self::view_le(a, b)),
    ;

    fn le_exec(&self, other: &Self) -> (r: bool)
        ensures
            r == Self::view_le(self.sort_view(), other.sort_view()),
    ;
}

/// `v` taken as indices.
pub open spec fn as_ints(v: Seq<usize>) -> Seq<int> {
    v.map_values(|x: usize| x as int)
}

/// The indices `0..n`.
pub open spec fn indices(n: nat) -> Seq<int> {
    Seq::new(n, |x: int| x)
}

pub open spec fn views<T: SortByView>(s: Seq<T>) -> Seq<T::V> {
    s.map_values(|x: T| x.sort_view())
}

pub open spec fn view_order<T: SortByView>() -> spec_fn(T::V, T::V) -> bool {
    |a: T::V, b: T::V| T::view_le(a, b)
}

/// Whether two values have the same view.
pub fn same_view<T: SortByView>(a: &T, b: &T) -> (r: bool)
    ensures
        r == (a.sort_view() == b.sort_view()),
{
    proof {
        T::lemma_view_le_total();
    }
    let x = a.le_exec(b);
    let y = b.le_exec(a);
    proof {
        let le = view_order::<T>();
        assert(le(a.sort_view(), b.sort_view()) == x);
        assert(le(b.sort_view(), a.sort_view()) == y);
        if a.sort_view() == b.sort_view() {
            assert(le(a.sort_view(), a.sort_view()));
        }
    }
    x && y
}

/// Sorts `v` by view, keeping the input order among values with equal views.
pub fn sort_by_view<T: SortByView>(v: Vec<T>) -> (r: Vec<T>)
    ensures
        sorted_by(views(r@), view_order::<T>()),
        views(r@).to_multiset() == views(v@).to_multiset(),
        r@.to_multiset() == v@.to_multiset(),
        r@.len() == v@.len(),
{
    broadcast use group_to_multiset_ensures;

    proof {
        T::lemma_view_le_total();
    }
    let ghost orig = views(v@);
    let ghost orig_elems = v@;
    let ghost le = view_order::<T>();
    let mut input = v;
    let mut out: Vec<T> = Vec::new();
    while input.len() > 0
        invariant
            le == view_order::<T>(),
            total_ordering(le),
            sorted_by(views(out@), le),
            views(input@).to_multiset().add(views(out@).to_multiset()) == orig.to_multiset(),
            input@.to_multiset().add(out@.to_multiset()) == orig_elems.to_multiset(),
            input@.len() + out@.len() == orig.len(),
        decreases input@.len(),
    {
        let ghost before = input@;
        let x = input.pop().unwrap();
        proof {
            assert(before =~= input@.push(x));
            assert(views(before) =~= views(input@).push(x.sort_view()));
        }
        let mut p: usize = 0;
        while p < out.len() && out[p].le_exec(&x)
            invariant
                le == view_order::<T>(),
                total_ordering(le),
                p <= out@.len(),
                forall|k: int| 0 <= k < p ==> le(#[trigger] views(out@)[k], x.sort_view()),
            decreases out@.len() - p,
        {
            p = p + 1;
        }
        let ghost old_out = views(out@);
        let ghost old_elems = out@;
        out.insert(p, x);
        proof {
            to_multiset_insert(old_elems, p as int, x);
            to_multiset_build(input@, x);
            assert(input@.to_multiset().insert(x).add(old_elems.to_multiset())
                =~= input@.to_multiset().add(old_elems.to_multiset().insert(x)));
            let nv = views(out@);
            assert(nv =~= old_out.insert(p as int, x.sort_view()));
            to_multiset_insert(old_out, p as int, x.sort_view());
            to_multiset_build(views(input@), x.sort_view());
            if p < old_out.len() {
                assert(!le(old_out[p as int], x.sort_view()));
                assert(le(x.sort_view(), old_out[p as int]));
            }
            assert forall|i: int, j: int| 0 <= i < j < nv.len() implies #[trigger] le(
                nv[i],
                nv[j],
            ) by {
                if j < p {
                    assert(nv[i] == old_out[i] && nv[j] == old_out[j]);
                } else if j == p {
                    assert(nv[i] == old_out[i]);
                } else if i == p {
                    assert(nv[j] == old_out[j - 1]);
                    if j - 1 > p {
                        assert(le(old_out[p as int], old_out[j - 1]));
                    }
                } else if i < p {
                    assert(nv[i] == old_out[i] && nv[j] == old_out[j - 1]);
                } else {
                    assert(nv[i] == old_out[i - 1] && nv[j] == old_out[j - 1]);
                }
            }
            assert(views(input@).to_multiset().insert(x.sort_view()).add(old_out.to_multiset())
                =~= views(input@).to_multiset().add(old_out.to_multiset().insert(x.sort_view())));
        }
    }
    proof {
        assert(views(input@).to_multiset() =~= Multiset::empty());
        assert(input@.to_multiset() =~= Multiset::empty());
        assert(out@.to_multiset() =~= Multiset::<T>::empty().add(out@.to_multiset()));
        assert(views(out@).to_multiset() =~= Multiset::<T::V>::empty().add(views(out@).to_multiset()));
    }
    out
}

/// Two sequences sorted by the same total order with the same elements are equal.
pub proof fn lemma_sorted_unique<V>(a: Seq<V>, b: Seq<V>, le: spec_fn(V, V) -> bool)
    requires
        total_ordering(le),
        sorted_by(a, le),
        sorted_by(b, le),
        a.to_multiset() == b.to_multiset(),
    ensures
        a == b,
    decreases a.len(),
{
    broadcast use group_to_multiset_ensures;

    assert(a.to_multiset().len() == a.len());
    assert(b.to_multiset().len() == b.len());
    if a.len() == 0 {
        assert(b.len() == 0);
        assert(a =~= b);
    } else {
        // a[0] occurs in b and b[0] occurs in a, so each is at most the other.
        assert(a.to_multiset().count(a[0]) > 0);
        assert(b.contains(a[0]));
        let j = choose|j: int| 0 <= j < b.len() && b[j] == a[0];
        assert(b.to_multiset().count(b[0]) > 0);
        assert(a.contains(b[0]));
        let i = choose|i: int| 0 <= i < a.len() && a[i] == b[0];
        if j > 0 {
            assert(le(b[0], b[j]));
        } else {
            assert(le(b[0], b[j]));
        }
        if i > 0 {
            assert(le(a[0], a[i]));
        } else {
            assert(le(a[0], a[i]));
        }
        assert(a[0] == b[0]);
        let a1 = a.drop_first();
        let b1 = b.drop_first();
        assert(a =~= a.remove(0).insert(0, a[0]));
        assert(a.remove(0) =~= a1);
        assert(b.remove(0) =~= b1);
        assert(a1.to_multiset() == a.to_multiset().remove(a[0]));
        assert(b1.to_multiset() == b.to_multiset().remove(b[0]));
        assert(sorted_by(a1, le)) by {
            assert forall|x: int, y: int| 0 <= x < y < a1.len() implies #[trigger] le(a1[x], a1[y]) by {
                assert(a1[x] == a[x + 1] && a1[y] == a[y + 1]);
            }
        }
        assert(sorted_by(b1, le)) by {
            assert forall|x: int, y: int| 0 <= x < y < b1.len() implies #[trigger] le(b1[x], b1[y]) by {
                assert(b1[x] == b[x + 1] && b1[y] == b[y + 1]);
            }
        }
        lemma_sorted_unique(a1, b1, le);
        assert(a =~= seq![a[0]] + a1);
        assert(b =~= seq![b[0]] + b1);
    }
}

/// A sequence without duplicates has the same multiset as any other such
/// sequence with the same elements.
pub proof fn lemma_distinct_same_multiset<V>(a: Seq<V>, b: Seq<V>)
    requires
        a.no_duplicates(),
        b.no_duplicates(),
        forall|x: V| a.contains(x) <==> b.contains(x),
    ensures
        a.to_multiset() == b.to_multiset(),
{
    broadcast use group_to_multiset_ensures;

    a.lemma_multiset_has_no_duplicates();
    b.lemma_multiset_has_no_duplicates();
    assert forall|x: V| a.to_multiset().count(x) == b.to_multiset().count(x) by {
        if a.contains(x) {
            assert(a.to_multiset().contains(x));
            assert(b.to_multiset().contains(x));
        } else {
            assert(!b.contains(x));
        }
    }
    assert(a.to_multiset() =~= b.to_multiset());
}

/// Sorted, duplicate-free sequences with the same elements are equal.
pub proof fn lemma_sorted_distinct_unique<V>(a: Seq<V>, b: Seq<V>, le: spec_fn(V, V) -> bool)
    requires
        total_ordering(le),
        sorted_by(a, le),
        sorted_by(b, le),
        a.no_duplicates(),
        b.no_duplicates(),
        forall|x: V| a.contains(x) <==> b.contains(x),
    ensures
        a == b,
{
    lemma_distinct_same_multiset(a, b);
    lemma_sorted_unique(a, b, le);
}

/// Equal multisets: one sequence is duplicate-free when the other is.
pub proof fn lemma_same_multiset_distinct<V>(a: Seq<V>, b: Seq<V>)
    requires
        a.no_duplicates(),
        a.to_multiset() == b.to_multiset(),
    ensures
        b.no_duplicates(),
        forall|x: V| a.contains(x) <==> b.contains(x),
{
    broadcast use group_to_multiset_ensures;

    a.lemma_multiset_has_no_duplicates();
    assert forall|x: V| b.to_multiset().contains(x) implies b.to_multiset().count(x) == 1 by {
        assert(a.to_multiset().contains(x));
    }
    b.lemma_multiset_has_no_duplicates_conv();
    assert forall|x: V| a.contains(x) <==> b.contains(x) by {
        assert(a.contains(x) <==> a.to_multiset().count(x) > 0);
        assert(b.contains(x) <==> b.to_multiset().count(x) > 0);
    }
}

/// The distinct views of `v`, sorted; every value kept is one of `v`'s.
pub fn sorted_distinct<T: SortByView>(v: Vec<T>) -> (r: Vec<T>)
    ensures
        sorted_by(views(r@), view_order::<T>()),
        views(r@).no_duplicates(),
        forall|x: T::V| views(r@).contains(x) <==> views(v@).contains(x),
        forall|e: T| r@.contains(e) ==> v@.contains(e),
{
    let ghost orig = v@;
    let mut input = v;
    let mut uniq: Vec<T> = Vec::new();
    while input.len() > 0
        invariant
            orig == input@ + orig.skip(input@.len() as int),
            input@.len() <= orig.len(),
            views(uniq@).no_duplicates(),
            forall|x: T::V| #![trigger views(uniq@).contains(x)]
                views(uniq@).contains(x) <==> views(orig.skip(input@.len() as int)).contains(x),
            forall|e: T| uniq@.contains(e) ==> orig.contains(e),
        decreases input@.len(),
    {
        let ghost before = input@;
        let x = input.pop().unwrap();
        proof {
            assert(before =~= input@.push(x));
            assert(orig.skip(input@.len() as int) =~= seq![x] + orig.skip(before.len() as int));
            assert(orig[input@.len() as int] == x);
        }
        let mut k: usize = 0;
        let mut seen = false;
        while k < uniq.len()
            invariant
                k <= uniq@.len(),
                !seen ==> forall|j: int| 0 <= j < k ==> views(uniq@)[j] != x.sort_view(),
                seen ==> views(uniq@).contains(x.sort_view()),
            decreases uniq@.len() - k,
        {
            if same_view(&uniq[k], &x) {
                seen = true;
                assert(views(uniq@)[k as int] == x.sort_view());
            }
            k = k + 1;
        }
        let ghost old_u = uniq@;
        let ghost rest = orig.skip(input@.len() as int);
        if !seen {
            uniq.push(x);
            assert(views(uniq@) =~= views(old_u).push(x.sort_view()));
        }
        proof {
            assert(views(rest) =~= seq![x.sort_view()] + views(orig.skip(before.len() as int)));
            let old_rest = views(orig.skip(before.len() as int));
            assert forall|y: T::V| views(rest).contains(y) <==> (y == x.sort_view() || old_rest.contains(
                y,
            )) by {
                if views(rest).contains(y) {
                    let j = choose|j: int| 0 <= j < views(rest).len() && views(rest)[j] == y;
                    if j > 0 {
                        assert(old_rest[j - 1] == y);
                    }
                }
                if old_rest.contains(y) {
                    let j = choose|j: int| 0 <= j < old_rest.len() && old_rest[j] == y;
                    assert(views(rest)[j + 1] == y);
                }
                if y == x.sort_view() {
                    assert(views(rest)[0] == y);
                }
            }
            assert forall|y: T::V| views(uniq@).contains(y) <==> (y == x.sort_view()
                || views(old_u).contains(y)) by {
                if !seen {
                    if views(uniq@).contains(y) {
                        let j = choose|j: int| 0 <= j < views(uniq@).len() && views(uniq@)[j] == y;
                        if j < old_u.len() {
                            assert(views(old_u)[j] == y);
                        }
                    }
                    if views(old_u).contains(y) {
                        let j = choose|j: int| 0 <= j < views(old_u).len() && views(old_u)[j] == y;
                        assert(views(uniq@)[j] == y);
                    }
                    assert(views(uniq@)[old_u.len() as int] == x.sort_view());
                }
            }
            assert forall|y: T::V| #![trigger views(uniq@).contains(y)]
                views(uniq@).contains(y) <==> views(rest).contains(y) by {
                assert(views(old_u).contains(y) <==> old_rest.contains(y));
            }
            assert forall|e: T| uniq@.contains(e) implies orig.contains(e) by {
                if !old_u.contains(e) {
                    assert(e == x);
                }
            }
        }
    }
    proof {
        assert(orig.skip(0) =~= orig);
    }
    let r = sort_by_view(uniq);
    proof {
        lemma_same_multiset_distinct(views(uniq@), views(r@));
        assert forall|e: T| r@.contains(e) implies v@.contains(e) by {
            broadcast use group_to_multiset_ensures;
            assert(r@.to_multiset().count(e) > 0);
            assert(uniq@.contains(e));
        }
    }
    r
}

/// Filtering the indices `0..n` keeps them increasing.
pub proof fn lemma_filter_increasing(n: nat, p: spec_fn(int) -> bool)
    ensures
        forall|a: int, b: int|
            0 <= a < b < indices(n).filter(p).len() ==> #[trigger] indices(n).filter(p)[a] < #[trigger] indices(
                n,
            ).filter(p)[b],
    decreases n,
{
    let ids = indices(n);
    if n > 0 {
        let prev = indices((n - 1) as nat);
        lemma_filter_increasing((n - 1) as nat, p);
        assert(ids =~= prev.push(n - 1));
        prev.lemma_filter_push(n - 1, p);
        assert forall|a: int| 0 <= a < prev.filter(p).len() implies prev.filter(p)[a] < n - 1 by {
            assert(prev.filter(p).contains(prev.filter(p)[a]));
            prev.lemma_filter_contains_rev(p, prev.filter(p)[a]);
        }
    } else {
        assert(ids.filter(p) =~= Seq::<int>::empty()) by {
            reveal(Seq::filter);
        }
    }
}

} // verus!

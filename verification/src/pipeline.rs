//! The staged duplicate-detection decisions: hardlink aliases collapse into
//! one file, files are grouped by size, then by a partial hash of sampled
//! ranges, then by a full-content hash, optionally byte-verified; every
//! surviving group of two or more distinct files becomes a duplicate group.
//! Reading files and hashing their bytes happen outside; these functions
//! decide what to do with the results.

use vstd::prelude::*;
use vstd::relations::*;
use crate::folder_dedup::PathV;
use crate::model::{DuplicateGroup, FileIdentity};
use crate::order::{path_le, lemma_path_total};
use crate::paths::{FsPath, pview, pviews, clone_path, clone_paths};
use crate::sort::{SortByView, views, view_order, sort_by_view, indices, as_ints, lemma_filter_increasing};

verus! {

/// What files are grouped by: a file identity, a size or hash, or nothing
/// (a file whose hash could not be computed).
#[derive(Debug, Clone, Copy, PartialEq, Eq, Structural)]
pub enum GroupKey {
    Id(FileIdentity),
    Value(u128),
    Missing,
}

/// Index `i` holds the first occurrence of its key.
pub open spec fn first_of(keys: Seq<GroupKey>, i: int) -> bool {
    0 <= i < keys.len() && forall|j: int| 0 <= j < i ==> keys[j] != keys[i]
}

/// The indices whose key is `k`, in order.
pub open spec fn with_key(keys: Seq<GroupKey>, k: GroupKey) -> Seq<int> {
    indices(keys.len()).filter(|j: int| keys[j] == k)
}

/// The indices grouped by key, groups in order of their first member.
pub open spec fn key_groups(keys: Seq<GroupKey>) -> Seq<Seq<int>> {
    indices(keys.len()).filter(|i: int| first_of(keys, i)).map_values(|i: int| with_key(keys, keys[i]))
}

/// Groups the indices of `keys` by equal key.
pub fn group_indices(keys: &Vec<GroupKey>) -> (r: Vec<Vec<usize>>)
    ensures
        r@.map_values(|g: Vec<usize>| as_ints(g@)) == key_groups(keys@),
        forall|k: int, q: int| 0 <= k < r@.len() && 0 <= q < r@[k]@.len() ==> #[trigger] r@[k]@[q] < keys@.len(),
{
    let n = keys.len();
    let ghost ids = indices(n as nat);
    let ghost fp = |i: int| first_of(keys@, i);
    let ghost f = |i: int| with_key(keys@, keys@[i]);
    let mut out: Vec<Vec<usize>> = Vec::new();
    let mut i: usize = 0;
    assert(ids.take(0).filter(fp) =~= Seq::<int>::empty()) by {
        reveal(Seq::filter);
    }
    assert(out@.map_values(|g: Vec<usize>| as_ints(g@)) =~= Seq::<Seq<int>>::empty());
    while i < n
        invariant
            n == keys@.len(),
            ids == indices(n as nat),
            fp == (|i: int| first_of(keys@, i)),
            f == (|i: int| with_key(keys@, keys@[i])),
            i <= n,
            out@.map_values(|g: Vec<usize>| as_ints(g@)) == ids.take(i as int).filter(fp).map_values(f),
            forall|k: int, q: int| 0 <= k < out@.len() && 0 <= q < out@[k]@.len() ==> #[trigger] out@[k]@[q] < n,
        decreases n - i,
    {
        let mut first = true;
        let mut j: usize = 0;
        while j < i
            invariant
                n == keys@.len(),
                i < n,
                j <= i,
                first == forall|q: int| 0 <= q < j ==> keys@[q] != keys@[i as int],
            decreases i - j,
        {
            if keys[j] == keys[i] {
                first = false;
            }
            j = j + 1;
        }
        proof {
            assert(ids.take(i + 1) =~= ids.take(i as int).push(i as int));
            ids.take(i as int).lemma_filter_push(i as int, fp);
        }
        if first {
            let ghost kp = |q: int| keys@[q] == keys@[i as int];
            let mut members: Vec<usize> = Vec::new();
            let mut q: usize = 0;
            assert(ids.take(0).filter(kp) =~= Seq::<int>::empty()) by {
                reveal(Seq::filter);
            }
            assert(as_ints(members@) =~= Seq::<int>::empty());
            while q < n
                invariant
                    n == keys@.len(),
                    ids == indices(n as nat),
                    i < n,
                    kp == (|q: int| keys@[q] == keys@[i as int]),
                    q <= n,
                    as_ints(members@) == ids.take(q as int).filter(kp),
                    forall|k: int| 0 <= k < members@.len() ==> #[trigger] members@[k] < n,
                decreases n - q,
            {
                proof {
                    assert(ids.take(q + 1) =~= ids.take(q as int).push(q as int));
                    ids.take(q as int).lemma_filter_push(q as int, kp);
                }
                if keys[q] == keys[i] {
                    let ghost before = as_ints(members@);
                    members.push(q);
                    assert(as_ints(members@) =~= before.push(q as int));
                }
                q = q + 1;
            }
            assert(ids.take(n as int) =~= ids);
            assert(as_ints(members@) == f(i as int));
            let ghost before = out@.map_values(|g: Vec<usize>| as_ints(g@));
            out.push(members);
            assert(out@.map_values(|g: Vec<usize>| as_ints(g@)) =~= before.push(f(i as int)));
        }
        i = i + 1;
    }
    assert(ids.take(n as int) =~= ids);
    out
}

/// A file found by traversal: its path, size and platform identity.
#[derive(Debug, Clone, PartialEq, Eq)]
pub struct Candidate {
    pub path: FsPath,
    pub size: u64,
    pub identity: FileIdentity,
}

/// One distinct file: its first alias, and every path sharing its storage.
#[derive(Debug, Clone, PartialEq, Eq)]
pub struct FileGroup {
    pub representative: FsPath,
    /// Sorted.
    pub aliases: Vec<FsPath>,
}

/// A file group by its components.
pub open spec fn fg_view(g: FileGroup) -> (PathV, Seq<PathV>) {
    (pview(g.representative), pviews(g.aliases@))
}

pub open spec fn fg_views(gs: Seq<FileGroup>) -> Seq<(PathV, Seq<PathV>)> {
    gs.map_values(|g: FileGroup| fg_view(g))
}

/// `ps` sorted by path.
pub open spec fn sorted_paths(ps: Seq<PathV>) -> Seq<PathV> {
    ps.sort_by(|a: PathV, b: PathV| path_le(a, b))
}

/// The distinct files among `cands`: for each identity, in order of first
/// appearance, the size of its first candidate and all its paths, sorted.
pub open spec fn hardlink_sets(cands: Seq<Candidate>) -> Seq<(u64, Seq<PathV>)> {
    let keys = cands.map_values(|c: Candidate| GroupKey::Id(c.identity));
    key_groups(keys).map_values(
        |g: Seq<int>| (cands[g[0]].size, sorted_paths(g.map_values(|q: int| pview(cands[q].path)))),
    )
}

proof fn lemma_with_key_nonempty(keys: Seq<GroupKey>, i: int)
    requires
        0 <= i < keys.len(),
    ensures
        with_key(keys, keys[i]).len() >= 1,
        with_key(keys, keys[i]).contains(i),
{
    let p = |j: int| keys[j] == keys[i];
    assert(indices(keys.len())[i] == i);
    indices(keys.len()).lemma_filter_contains(p, i);
}

/// Collapses hardlink aliases: candidates sharing an identity share storage
/// and count as one file, represented by its alphabetically first path.
pub fn collapse_hardlinks(cands: &Vec<Candidate>) -> (r: Vec<(u64, FileGroup)>)
    ensures
        r@.map_values(|e: (u64, FileGroup)| (e.0, pviews(e.1.aliases@))) == hardlink_sets(cands@),
        forall|k: int|
            0 <= k < r@.len() ==> (#[trigger] r@[k]).1.aliases@.len() >= 1 && pview(r@[k].1.representative)
                == pviews(r@[k].1.aliases@)[0],
{
    let ghost keys = cands@.map_values(|c: Candidate| GroupKey::Id(c.identity));
    let mut keyv: Vec<GroupKey> = Vec::new();
    let mut i: usize = 0;
    while i < cands.len()
        invariant
            i <= cands@.len(),
            keys == cands@.map_values(|c: Candidate| GroupKey::Id(c.identity)),
            keyv@ == keys.take(i as int),
        decreases cands@.len() - i,
    {
        keyv.push(GroupKey::Id(cands[i].identity));
        assert(keyv@ =~= keys.take(i + 1));
        i = i + 1;
    }
    assert(keys.take(cands@.len() as int) =~= keys);
    let groups = group_indices(&keyv);
    let ghost gv = groups@.map_values(|g: Vec<usize>| as_ints(g@));
    let ghost f = |g: Seq<int>| (cands@[g[0]].size, sorted_paths(g.map_values(|q: int| pview(cands@[q].path))));
    proof {
        lemma_path_total();
        assert(key_groups(keys).map_values(f) == hardlink_sets(cands@));
    }
    let mut out: Vec<(u64, FileGroup)> = Vec::new();
    let mut k: usize = 0;
    while k < groups.len()
        invariant
            keyv@ == keys,
            keys.len() == cands@.len(),
            gv == groups@.map_values(|g: Vec<usize>| as_ints(g@)),
            gv == key_groups(keys),
            forall|a: int, q: int| 0 <= a < groups@.len() && 0 <= q < groups@[a]@.len() ==> #[trigger] groups@[a]@[q] < keys.len(),
            f == (|g: Seq<int>| (cands@[g[0]].size, sorted_paths(g.map_values(|q: int| pview(cands@[q].path))))),
            total_ordering(|a: PathV, b: PathV| path_le(a, b)),
            k <= groups@.len(),
            out@.map_values(|e: (u64, FileGroup)| (e.0, pviews(e.1.aliases@))) == gv.take(k as int).map_values(f),
            forall|q: int|
                0 <= q < out@.len() ==> (#[trigger] out@[q]).1.aliases@.len() >= 1 && pview(out@[q].1.representative)
                    == pviews(out@[q].1.aliases@)[0],
        decreases groups@.len() - k,
    {
        let g = &groups[k];
        let ghost gi = gv[k as int];
        assert(gi == as_ints(g@));
        proof {
            let fp = |i: int| first_of(keys, i);
            let fl = indices(keys.len()).filter(fp);
            assert(gv.len() == fl.len());
            let first = fl[k as int];
            assert(fl.contains(first));
            indices(keys.len()).lemma_filter_contains_rev(fp, first);
            assert(indices(keys.len()).contains(first));
            lemma_with_key_nonempty(keys, first);
            assert(gi == with_key(keys, keys[first]));
        }
        let mut paths: Vec<FsPath> = Vec::new();
        let mut q: usize = 0;
        while q < g.len()
            invariant
                gi == as_ints(g@),
                forall|a: int| 0 <= a < g@.len() ==> #[trigger] g@[a] < cands@.len(),
                q <= g@.len(),
                pviews(paths@) == gi.take(q as int).map_values(|x: int| pview(cands@[x].path)),
            decreases g@.len() - q,
        {
            let ghost before = pviews(paths@);
            paths.push(clone_path(&cands[g[q]].path));
            assert(pviews(paths@) =~= before.push(pview(cands@[g@[q as int] as int].path)));
            assert(gi.take(q + 1) =~= gi.take(q as int).push(gi[q as int]));
            q = q + 1;
        }
        assert(gi.take(g@.len() as int) =~= gi);
        let ghost unsorted = pviews(paths@);
        let sorted = sort_by_view(paths);
        proof {
            let le = |a: PathV, b: PathV| path_le(a, b);
            assert(views(sorted@) =~= pviews(sorted@));
            assert(views(paths@) =~= pviews(paths@));
            assert(view_order::<FsPath>() =~= le);
            unsorted.lemma_sort_by_ensures(le);
            crate::sort::lemma_sorted_unique(pviews(sorted@), sorted_paths(unsorted), le);
        }
        let rep = clone_path(&sorted[0]);
        let size = cands[g[0]].size;
        let ghost before = out@.map_values(|e: (u64, FileGroup)| (e.0, pviews(e.1.aliases@)));
        out.push((size, FileGroup { representative: rep, aliases: sorted }));
        assert(out@.map_values(|e: (u64, FileGroup)| (e.0, pviews(e.1.aliases@))) =~= before.push(f(gi)));
        assert(gv.take(k + 1) =~= gv.take(k as int).push(gi));
        k = k + 1;
    }
    assert(gv.take(groups@.len() as int) =~= gv);
    out
}

/// The key groups with two or more members and a known key.
pub open spec fn shared_groups(keys: Seq<GroupKey>) -> Seq<Seq<int>> {
    key_groups(keys).filter(|g: Seq<int>| g.len() >= 2 && keys[g[0]] != GroupKey::Missing)
}

/// The items at `g`, by their components.
pub open spec fn items_at(items: Seq<FileGroup>, g: Seq<int>) -> Seq<(PathV, Seq<PathV>)> {
    g.map_values(|q: int| fg_view(items[q]))
}

/// A copy of a file group.
pub fn clone_group(g: &FileGroup) -> (r: FileGroup)
    ensures
        fg_view(r) == fg_view(*g),
{
    FileGroup { representative: clone_path(&g.representative), aliases: clone_paths(&g.aliases) }
}

proof fn lemma_key_group_members(keys: Seq<GroupKey>, k: int)
    requires
        0 <= k < key_groups(keys).len(),
    ensures
        key_groups(keys)[k].len() >= 1,
        forall|q: int| 0 <= q < key_groups(keys)[k].len() ==> 0 <= #[trigger] key_groups(keys)[k][q] < keys.len(),
{
    let fp = |i: int| first_of(keys, i);
    let fl = indices(keys.len()).filter(fp);
    let first = fl[k];
    assert(fl.contains(first));
    indices(keys.len()).lemma_filter_contains_rev(fp, first);
    lemma_with_key_nonempty(keys, first);
    let kp = |j: int| keys[j] == keys[first];
    let g = with_key(keys, keys[first]);
    assert forall|q: int| 0 <= q < g.len() implies 0 <= #[trigger] g[q] < keys.len() by {
        assert(g.contains(g[q]));
        indices(keys.len()).lemma_filter_contains_rev(kp, g[q]);
    }
}

/// The groups of items sharing a known key, two or more to a group, each
/// with the index of its first item.
fn pick_shared(items: &Vec<FileGroup>, keys: &Vec<GroupKey>) -> (r: Vec<(usize, Vec<FileGroup>)>)
    requires
        items@.len() == keys@.len(),
    ensures
        r@.map_values(|e: (usize, Vec<FileGroup>)| fg_views(e.1@)) == shared_groups(keys@).map_values(
            |g: Seq<int>| items_at(items@, g),
        ),
        r@.map_values(|e: (usize, Vec<FileGroup>)| e.0 as int) == shared_groups(keys@).map_values(
            |g: Seq<int>| g[0],
        ),
        forall|k: int| 0 <= k < r@.len() ==> (#[trigger] r@[k]).0 < items@.len(),
{
    let groups = group_indices(keys);
    let ghost gv = groups@.map_values(|g: Vec<usize>| as_ints(g@));
    let ghost sp = |g: Seq<int>| g.len() >= 2 && keys@[g[0]] != GroupKey::Missing;
    let ghost fi = |g: Seq<int>| items_at(items@, g);
    let ghost f0 = |g: Seq<int>| g[0];
    let mut out: Vec<(usize, Vec<FileGroup>)> = Vec::new();
    let mut k: usize = 0;
    assert(gv.take(0).filter(sp) =~= Seq::<Seq<int>>::empty()) by {
        reveal(Seq::filter);
    }
    assert(out@.map_values(|e: (usize, Vec<FileGroup>)| fg_views(e.1@)) =~= Seq::<Seq<(PathV, Seq<PathV>)>>::empty());
    assert(out@.map_values(|e: (usize, Vec<FileGroup>)| e.0 as int) =~= Seq::<int>::empty());
    while k < groups.len()
        invariant
            items@.len() == keys@.len(),
            gv == groups@.map_values(|g: Vec<usize>| as_ints(g@)),
            gv == key_groups(keys@),
            sp == (|g: Seq<int>| g.len() >= 2 && keys@[g[0]] != GroupKey::Missing),
            fi == (|g: Seq<int>| items_at(items@, g)),
            f0 == (|g: Seq<int>| g[0]),
            k <= groups@.len(),
            out@.map_values(|e: (usize, Vec<FileGroup>)| fg_views(e.1@)) == gv.take(k as int).filter(sp).map_values(fi),
            out@.map_values(|e: (usize, Vec<FileGroup>)| e.0 as int) == gv.take(k as int).filter(sp).map_values(f0),
            forall|q: int| 0 <= q < out@.len() ==> (#[trigger] out@[q]).0 < items@.len(),
        decreases groups@.len() - k,
    {
        let g = &groups[k];
        let ghost gi = gv[k as int];
        proof {
            lemma_key_group_members(keys@, k as int);
            assert(gv.take(k + 1) =~= gv.take(k as int).push(gi));
            gv.take(k as int).lemma_filter_push(gi, sp);
        }
        if g.len() >= 2 && keys[g[0]] != GroupKey::Missing {
            let mut members: Vec<FileGroup> = Vec::new();
            let mut q: usize = 0;
            while q < g.len()
                invariant
                    items@.len() == keys@.len(),
                    gi == as_ints(g@),
                    forall|a: int| 0 <= a < gi.len() ==> 0 <= #[trigger] gi[a] < keys@.len(),
                    q <= g@.len(),
                    fg_views(members@) == items_at(items@, gi).take(q as int),
                decreases g@.len() - q,
            {
                assert(gi[q as int] == g@[q as int] as int);
                let ghost before = fg_views(members@);
                members.push(clone_group(&items[g[q]]));
                assert(fg_views(members@) =~= before.push(fg_view(items@[gi[q as int]])));
                assert(items_at(items@, gi).take(q + 1) =~= items_at(items@, gi).take(q as int).push(
                    fg_view(items@[gi[q as int]]),
                ));
                q = q + 1;
            }
            assert(items_at(items@, gi).take(g@.len() as int) =~= items_at(items@, gi));
            let first = g[0];
            assert(first as int == gi[0]);
            let ghost b1 = out@.map_values(|e: (usize, Vec<FileGroup>)| fg_views(e.1@));
            let ghost b2 = out@.map_values(|e: (usize, Vec<FileGroup>)| e.0 as int);
            out.push((first, members));
            assert(out@.map_values(|e: (usize, Vec<FileGroup>)| fg_views(e.1@)) =~= b1.push(fi(gi)));
            assert(out@.map_values(|e: (usize, Vec<FileGroup>)| e.0 as int) =~= b2.push(f0(gi)));
        }
        k = k + 1;
    }
    assert(gv.take(groups@.len() as int) =~= gv);
    out
}

/// The size groups: distinct files grouped by size, keeping only sizes that
/// two or more distinct files share, since only those can be duplicates.
pub open spec fn size_groups_spec(files: Seq<(u64, FileGroup)>) -> Seq<(u64, Seq<(PathV, Seq<PathV>)>)> {
    let keys = files.map_values(|e: (u64, FileGroup)| GroupKey::Value(e.0 as u128));
    let items = files.map_values(|e: (u64, FileGroup)| e.1);
    shared_groups(keys).map_values(|g: Seq<int>| (files[g[0]].0, items_at(items, g)))
}

/// Groups distinct files by size, keeping sizes shared by two or more.
pub fn size_groups(files: &Vec<(u64, FileGroup)>) -> (r: Vec<(u64, Vec<FileGroup>)>)
    ensures
        r@.map_values(|e: (u64, Vec<FileGroup>)| (e.0, fg_views(e.1@))) == size_groups_spec(files@),
{
    let ghost keys = files@.map_values(|e: (u64, FileGroup)| GroupKey::Value(e.0 as u128));
    let ghost items = files@.map_values(|e: (u64, FileGroup)| e.1);
    let mut keyv: Vec<GroupKey> = Vec::new();
    let mut itemv: Vec<FileGroup> = Vec::new();
    let mut i: usize = 0;
    while i < files.len()
        invariant
            i <= files@.len(),
            keys == files@.map_values(|e: (u64, FileGroup)| GroupKey::Value(e.0 as u128)),
            items == files@.map_values(|e: (u64, FileGroup)| e.1),
            keyv@ == keys.take(i as int),
            fg_views(itemv@) == fg_views(items.take(i as int)),
        decreases files@.len() - i,
    {
        keyv.push(GroupKey::Value(files[i].0 as u128));
        let ghost before = fg_views(itemv@);
        let c = clone_group(&files[i].1);
        itemv.push(c);
        assert(items[i as int] == files@[i as int].1);
        assert(keyv@ =~= keys.take(i + 1));
        assert(fg_views(itemv@) =~= before.push(fg_view(items[i as int])));
        assert(fg_views(items.take(i + 1)) =~= fg_views(items.take(i as int)).push(fg_view(items[i as int])));
        i = i + 1;
    }
    assert(keys.take(files@.len() as int) =~= keys);
    assert(items.take(files@.len() as int) =~= items);
    let picked = pick_shared(&itemv, &keyv);
    let ghost sg = shared_groups(keys);
    let ghost pv = picked@;
    assert(pv.map_values(|e: (usize, Vec<FileGroup>)| e.0 as int).len() == sg.map_values(|g: Seq<int>| g[0]).len());
    let mut out: Vec<(u64, Vec<FileGroup>)> = Vec::new();
    let mut k: usize = 0;
    while k < picked.len()
        invariant
            pv == picked@,
            pv.len() == sg.len(),
            pv.map_values(|e: (usize, Vec<FileGroup>)| fg_views(e.1@)) == sg.map_values(
                |g: Seq<int>| items_at(itemv@, g),
            ),
            pv.map_values(|e: (usize, Vec<FileGroup>)| e.0 as int) == sg.map_values(|g: Seq<int>| g[0]),
            forall|q: int| 0 <= q < pv.len() ==> (#[trigger] pv[q]).0 < itemv@.len(),
            itemv@.len() == files@.len(),
            fg_views(itemv@) == fg_views(items),
            sg == shared_groups(keys),
            keys == files@.map_values(|e: (u64, FileGroup)| GroupKey::Value(e.0 as u128)),
            items == files@.map_values(|e: (u64, FileGroup)| e.1),
            k <= pv.len(),
            out@.map_values(|e: (u64, Vec<FileGroup>)| (e.0, fg_views(e.1@))) == size_groups_spec(files@).take(
                k as int,
            ),
        decreases pv.len() - k,
    {
        let first = picked[k].0;
        let members = clone_groups(&picked[k].1);
        let size = files[first].0;
        proof {
            let g = sg[k as int];
            assert(pv.map_values(|e: (usize, Vec<FileGroup>)| fg_views(e.1@))[k as int] == fg_views(pv[k as int].1@));
            assert(sg.map_values(|g: Seq<int>| items_at(itemv@, g))[k as int] == items_at(itemv@, g));
            assert(pv.map_values(|e: (usize, Vec<FileGroup>)| e.0 as int)[k as int] == pv[k as int].0 as int);
            assert(sg.map_values(|g: Seq<int>| g[0])[k as int] == g[0]);
            assert(fg_views(pv[k as int].1@) == items_at(itemv@, g));
            assert(first as int == g[0]);
            lemma_shared_members(keys, k as int);
            assert forall|q: int| 0 <= q < g.len() implies #[trigger] items_at(itemv@, g)[q] == items_at(items, g)[q] by {
                assert(fg_views(itemv@)[g[q]] == fg_views(items)[g[q]]);
            }
            assert(items_at(itemv@, g) =~= items_at(items, g));
        }
        let ghost b = out@.map_values(|e: (u64, Vec<FileGroup>)| (e.0, fg_views(e.1@)));
        out.push((size, members));
        assert(out@.map_values(|e: (u64, Vec<FileGroup>)| (e.0, fg_views(e.1@))) =~= b.push(size_groups_spec(files@)[k as int]));
        assert(size_groups_spec(files@).take(k + 1) =~= size_groups_spec(files@).take(k as int).push(size_groups_spec(files@)[k as int]));
        k = k + 1;
    }
    assert(size_groups_spec(files@).take(k as int) =~= size_groups_spec(files@));
    out
}

/// A copy of a list of file groups.
pub fn clone_groups(gs: &Vec<FileGroup>) -> (r: Vec<FileGroup>)
    ensures
        fg_views(r@) == fg_views(gs@),
{
    let mut out: Vec<FileGroup> = Vec::new();
    let mut i: usize = 0;
    while i < gs.len()
        invariant
            i <= gs@.len(),
            fg_views(out@) == fg_views(gs@.take(i as int)),
        decreases gs@.len() - i,
    {
        let ghost before = fg_views(out@);
        let c = clone_group(&gs[i]);
        out.push(c);
        assert(fg_views(out@) =~= before.push(fg_view(gs@[i as int])));
        assert(fg_views(gs@.take(i + 1)) =~= fg_views(gs@.take(i as int)).push(fg_view(gs@[i as int])));
        i = i + 1;
    }
    assert(gs@.take(gs@.len() as int) =~= gs@);
    out
}

proof fn lemma_shared_members(keys: Seq<GroupKey>, k: int)
    requires
        0 <= k < shared_groups(keys).len(),
    ensures
        shared_groups(keys)[k].len() >= 2,
        forall|q: int| 0 <= q < shared_groups(keys)[k].len() ==> 0 <= #[trigger] shared_groups(keys)[k][q] < keys.len(),
{
    let sp = |g: Seq<int>| g.len() >= 2 && keys[g[0]] != GroupKey::Missing;
    let kg = key_groups(keys);
    let g = kg.filter(sp)[k];
    kg.filter_lemma(sp);
    assert(kg.filter(sp).contains(g));
    kg.lemma_filter_contains_rev(sp, g);
    let j = choose|j: int| 0 <= j < kg.len() && kg[j] == g;
    lemma_key_group_members(keys, j);
}

/// The grouping key of a hash that may be missing.
pub open spec fn hash_key(h: Option<u128>) -> GroupKey {
    match h {
        Some(v) => GroupKey::Value(v),
        None => GroupKey::Missing,
    }
}

fn hash_keys(hashes: &Vec<Option<u128>>) -> (r: Vec<GroupKey>)
    ensures
        r@ == hashes@.map_values(|h: Option<u128>| hash_key(h)),
{
    let mut out: Vec<GroupKey> = Vec::new();
    let mut i: usize = 0;
    while i < hashes.len()
        invariant
            i <= hashes@.len(),
            out@ == hashes@.take(i as int).map_values(|h: Option<u128>| hash_key(h)),
        decreases hashes@.len() - i,
    {
        let k = match hashes[i] {
            Some(v) => GroupKey::Value(v),
            None => GroupKey::Missing,
        };
        out.push(k);
        assert(out@ =~= hashes@.take(i + 1).map_values(|h: Option<u128>| hash_key(h)));
        i = i + 1;
    }
    assert(hashes@.take(hashes@.len() as int) =~= hashes@);
    out
}

/// The files grouped by equal hash, dropping files whose hash is missing
/// and hashes only one file has.
pub open spec fn hash_groups_spec(members: Seq<FileGroup>, hashes: Seq<Option<u128>>) -> Seq<
    Seq<(PathV, Seq<PathV>)>,
> {
    shared_groups(hash_key_seq(hashes)).map_values(|g: Seq<int>| items_at(members, g))
}

/// Groups files by the hash computed for each (`hashes[i]` for
/// `members[i]`, `None` where it could not be read), keeping hashes shared
/// by two or more files.
pub fn hash_groups(members: &Vec<FileGroup>, hashes: &Vec<Option<u128>>) -> (r: Vec<Vec<FileGroup>>)
    requires
        members@.len() == hashes@.len(),
    ensures
        r@.map_values(|g: Vec<FileGroup>| fg_views(g@)) == hash_groups_spec(members@, hashes@),
{
    let keys = hash_keys(hashes);
    let picked = pick_shared(members, &keys);
    let ghost pv = picked@;
    let ghost target = hash_groups_spec(members@, hashes@);
    assert(pv.map_values(|e: (usize, Vec<FileGroup>)| fg_views(e.1@)) == target);
    let mut out: Vec<Vec<FileGroup>> = Vec::new();
    let mut k: usize = 0;
    while k < picked.len()
        invariant
            pv == picked@,
            pv.map_values(|e: (usize, Vec<FileGroup>)| fg_views(e.1@)) == target,
            k <= pv.len(),
            out@.map_values(|g: Vec<FileGroup>| fg_views(g@)) == target.take(k as int),
        decreases pv.len() - k,
    {
        let c = clone_groups(&picked[k].1);
        assert(pv.map_values(|e: (usize, Vec<FileGroup>)| fg_views(e.1@))[k as int] == fg_views(pv[k as int].1@));
        let ghost b = out@.map_values(|g: Vec<FileGroup>| fg_views(g@));
        out.push(c);
        assert(out@.map_values(|g: Vec<FileGroup>| fg_views(g@)) =~= b.push(target[k as int]));
        assert(target.take(k + 1) =~= target.take(k as int).push(target[k as int]));
        k = k + 1;
    }
    assert(target.take(pv.len() as int) =~= target);
    out
}

/// The partial-hash stage: the files whose sampled-range hash another file
/// shares, in group order; the others cannot be duplicates.
pub fn partial_survivors(members: &Vec<FileGroup>, hashes: &Vec<Option<u128>>) -> (r: Vec<FileGroup>)
    requires
        members@.len() == hashes@.len(),
    ensures
        fg_views(r@) == hash_groups_spec(members@, hashes@).flatten(),
{
    let groups = hash_groups(members, hashes);
    let ghost gv = groups@.map_values(|g: Vec<FileGroup>| fg_views(g@));
    let mut out: Vec<FileGroup> = Vec::new();
    let mut k: usize = 0;
    assert(gv.take(0).flatten() =~= Seq::<(PathV, Seq<PathV>)>::empty()) by {
        reveal(Seq::flatten);
    }
    assert(fg_views(out@) =~= Seq::<(PathV, Seq<PathV>)>::empty());
    while k < groups.len()
        invariant
            gv == groups@.map_values(|g: Vec<FileGroup>| fg_views(g@)),
            k <= groups@.len(),
            fg_views(out@) == gv.take(k as int).flatten(),
        decreases groups@.len() - k,
    {
        let g = &groups[k];
        let ghost start = fg_views(out@);
        let mut q: usize = 0;
        while q < g.len()
            invariant
                q <= g@.len(),
                fg_views(out@) == start + fg_views(g@).take(q as int),
            decreases g@.len() - q,
        {
            let c = clone_group(&g[q]);
            let ghost before = fg_views(out@);
            out.push(c);
            assert(fg_views(out@) =~= before.push(fg_view(g@[q as int])));
            assert(fg_views(g@).take(q + 1) =~= fg_views(g@).take(q as int).push(fg_view(g@[q as int])));
            q = q + 1;
        }
        assert(fg_views(g@).take(g@.len() as int) =~= fg_views(g@));
        proof {
            assert(gv.take(k + 1) =~= gv.take(k as int).push(gv[k as int]));
            gv.take(k as int).lemma_flatten_push(gv[k as int]);
        }
        k = k + 1;
    }
    assert(gv.take(groups@.len() as int) =~= gv);
    out
}

/// Files at or below the small-file threshold skip the partial-hash stage.
pub fn needs_partial_hash(size: u64, small_file_threshold: u64) -> (r: bool)
    ensures
        r == (size > small_file_threshold),
{
    size > small_file_threshold
}

/// Whether two byte strings are equal.
fn bytes_eq(a: &Vec<u8>, b: &Vec<u8>) -> (r: bool)
    ensures
        r == (a@ == b@),
{
    if a.len() != b.len() {
        return false;
    }
    let mut i: usize = 0;
    while i < a.len()
        invariant
            a@.len() == b@.len(),
            i <= a@.len(),
            forall|k: int| 0 <= k < i ==> a@[k] == b@[k],
        decreases a@.len() - i,
    {
        if a[i] != b[i] {
            return false;
        }
        i = i + 1;
    }
    assert(a@ =~= b@);
    true
}

/// Byte verification of a hash group: the files that could be read, if at
/// least two could, each kept only if its bytes equal the first readable
/// file's.
pub open spec fn verified_members(group: Seq<FileGroup>, contents: Seq<Option<Vec<u8>>>) -> Seq<(PathV, Seq<PathV>)> {
    let ok = indices(group.len()).filter(readable(contents));
    if ok.len() < 2 {
        Seq::empty()
    } else {
        ok.filter(same_bytes(contents, ok[0])).map_values(|i: int| fg_view(group[i]))
    }
}

/// Whether file `i` could be read.
pub open spec fn readable(contents: Seq<Option<Vec<u8>>>) -> spec_fn(int) -> bool {
    |i: int| contents[i] is Some
}

/// Whether file `i` holds the same bytes as file `r`.
pub open spec fn same_bytes(contents: Seq<Option<Vec<u8>>>, r: int) -> spec_fn(int) -> bool {
    |i: int| contents[i]->0@ == contents[r]->0@
}

/// Byte verification law. Let `f` be the first file of the group that could
/// be read. When no other file could be read, nothing survives. Otherwise
/// `f` survives, so does every readable file with exactly `f`'s bytes, and
/// every survivor is such a file: a group is never reduced to files that
/// differ from the first readable one.
pub proof fn lemma_verify_keeps_copies_of_first_readable(
    group: Seq<FileGroup>,
    contents: Seq<Option<Vec<u8>>>,
    f: int,
)
    requires
        group.len() == contents.len(),
        0 <= f < contents.len(),
        contents[f] is Some,
        forall|j: int| 0 <= j < f ==> contents[j] is None,
    ensures
        (forall|g: int| 0 <= g < contents.len() && g != f ==> contents[g] is None) ==> verified_members(
            group,
            contents,
        ).len() == 0,
        (exists|g: int| 0 <= g < contents.len() && g != f && contents[g] is Some) ==> {
            &&& verified_members(group, contents).contains(fg_view(group[f]))
            &&& forall|i: int|
                0 <= i < contents.len() && contents[i] is Some && contents[i]->0@ == contents[f]->0@
                    ==> verified_members(group, contents).contains(fg_view(#[trigger] group[i]))
            &&& forall|k: int|
                0 <= k < verified_members(group, contents).len() ==> exists|i: int|
                    0 <= i < contents.len() && contents[i] is Some && contents[i]->0@ == contents[f]->0@
                        && #[trigger] verified_members(group, contents)[k] == fg_view(group[i])
        },
{
    let n = group.len();
    let rp = readable(contents);
    let ok = indices(n).filter(rp);
    indices(n).filter_lemma(rp);
    lemma_filter_increasing(n, rp);
    assert(indices(n)[f] == f);
    assert(ok.contains(f));
    let mf = choose|m: int| 0 <= m < ok.len() && ok[m] == f;
    // Every readable index is in `ok`, and every member of `ok` is readable.
    assert forall|m: int| 0 <= m < ok.len() implies 0 <= #[trigger] ok[m] < n && contents[ok[m]] is Some by {
        assert(ok.contains(ok[m]));
        indices(n).lemma_filter_contains_rev(rp, ok[m]);
        assert(rp(ok[m]));
    }
    // `ok[0]` is `f`.
    assert(ok[0] == f) by {
        if mf > 0 {
            assert(ok[0] < ok[mf]);
        }
        assert(contents[ok[0]] is Some);
    }
    if forall|g: int| 0 <= g < contents.len() && g != f ==> contents[g] is None {
        if ok.len() >= 2 {
            assert(ok[0] < ok[1]);
            assert(contents[ok[1]] is Some);
        }
    }
    if exists|g: int| 0 <= g < contents.len() && g != f && contents[g] is Some {
        let g = choose|g: int| 0 <= g < contents.len() && g != f && contents[g] is Some;
        assert(indices(n)[g] == g);
        assert(ok.contains(g));
        let mg = choose|m: int| 0 <= m < ok.len() && ok[m] == g;
        assert(ok.len() >= 2) by {
            if ok.len() < 2 {
                assert(mg == 0 && mf == 0);
            }
        }
        let sp = same_bytes(contents, ok[0]);
        let kept = ok.filter(sp);
        let vm = verified_members(group, contents);
        assert(vm == kept.map_values(|i: int| fg_view(group[i])));
        ok.filter_lemma(sp);
        assert forall|i: int|
            0 <= i < contents.len() && contents[i] is Some && contents[i]->0@ == contents[f]->0@ implies vm.contains(
            fg_view(#[trigger] group[i]),
        ) by {
            assert(indices(n)[i] == i);
            assert(ok.contains(i));
            let mi = choose|m: int| 0 <= m < ok.len() && ok[m] == i;
            assert(sp(ok[mi]));
            assert(kept.contains(i));
            let ki = choose|k: int| 0 <= k < kept.len() && kept[k] == i;
            assert(vm[ki] == fg_view(group[i]));
        }
        assert(vm.contains(fg_view(group[f])));
        assert forall|k: int| 0 <= k < vm.len() implies exists|i: int|
            0 <= i < contents.len() && contents[i] is Some && contents[i]->0@ == contents[f]->0@
                && #[trigger] vm[k] == fg_view(group[i]) by {
            let i = kept[k];
            assert(kept.contains(i));
            ok.lemma_filter_contains_rev(sp, i);
            let mi = choose|m: int| 0 <= m < ok.len() && ok[m] == i;
            assert(sp(i));
            assert(vm[k] == fg_view(group[i]));
        }
    }
}

/// Byte-compares every file of a hash group against the first readable one
/// (`contents[i]` is the content of `group[i]`, `None` where unreadable),
/// dropping any that differ. Aliases are never re-read: they share storage.
pub fn verify_representatives(group: &Vec<FileGroup>, contents: &Vec<Option<Vec<u8>>>) -> (r: Vec<FileGroup>)
    requires
        group@.len() == contents@.len(),
    ensures
        fg_views(r@) == verified_members(group@, contents@),
{
    let n = group.len();
    let ghost ids = indices(n as nat);
    let ghost okp = readable(contents@);
    let mut ok: Vec<usize> = Vec::new();
    let mut i: usize = 0;
    assert(ids.take(0).filter(okp) =~= Seq::<int>::empty()) by {
        reveal(Seq::filter);
    }
    assert(as_ints(ok@) =~= Seq::<int>::empty());
    while i < n
        invariant
            n == group@.len(),
            n == contents@.len(),
            ids == indices(n as nat),
            okp == readable(contents@),
            i <= n,
            as_ints(ok@) == ids.take(i as int).filter(okp),
            forall|k: int| 0 <= k < ok@.len() ==> #[trigger] ok@[k] < n && contents@[ok@[k] as int] is Some,
        decreases n - i,
    {
        proof {
            assert(ids.take(i + 1) =~= ids.take(i as int).push(i as int));
            ids.take(i as int).lemma_filter_push(i as int, okp);
        }
        if contents[i].is_some() {
            let ghost before = as_ints(ok@);
            ok.push(i);
            assert(as_ints(ok@) =~= before.push(i as int));
        }
        i = i + 1;
    }
    assert(ids.take(n as int) =~= ids);
    let ghost okv = as_ints(ok@);
    if ok.len() < 2 {
        let none: Vec<FileGroup> = Vec::new();
        assert(fg_views(none@) =~= Seq::<(PathV, Seq<PathV>)>::empty());
        return none;
    }
    let reference = match &contents[ok[0]] {
        Some(b) => b,
        None => {
            return Vec::new();
        },
    };
    let ghost same = same_bytes(contents@, okv[0]);
    let mut out: Vec<FileGroup> = Vec::new();
    let mut k: usize = 0;
    assert(okv.take(0).filter(same) =~= Seq::<int>::empty()) by {
        reveal(Seq::filter);
    }
    assert(fg_views(out@) =~= Seq::<(PathV, Seq<PathV>)>::empty());
    while k < ok.len()
        invariant
            n == group@.len(),
            n == contents@.len(),
            okv == as_ints(ok@),
            okv.len() >= 2,
            reference@ == contents@[okv[0]]->0@,
            same == same_bytes(contents@, okv[0]),
            forall|q: int| 0 <= q < ok@.len() ==> #[trigger] ok@[q] < n && contents@[ok@[q] as int] is Some,
            k <= ok@.len(),
            fg_views(out@) == okv.take(k as int).filter(same).map_values(|i: int| fg_view(group@[i])),
        decreases ok@.len() - k,
    {
        let j = ok[k];
        proof {
            assert(okv.take(k + 1) =~= okv.take(k as int).push(okv[k as int]));
            okv.take(k as int).lemma_filter_push(okv[k as int], same);
        }
        let keep = match &contents[j] {
            Some(b) => bytes_eq(b, reference),
            None => false,
        };
        if keep {
            let c = clone_group(&group[j]);
            let ghost before = fg_views(out@);
            out.push(c);
            assert(fg_views(out@) =~= before.push(fg_view(group@[j as int])));
        }
        assert(okv.take(k + 1).filter(same).map_values(|i: int| fg_view(group@[i])) =~= (if same(okv[k as int]) {
            okv.take(k as int).filter(same).push(okv[k as int])
        } else {
            okv.take(k as int).filter(same)
        }).map_values(|i: int| fg_view(group@[i])));
        k = k + 1;
    }
    assert(okv.take(ok@.len() as int) =~= okv);
    out
}

/// All aliases of all files of a group, sorted.
pub open spec fn group_paths(group: Seq<FileGroup>) -> Seq<PathV> {
    sorted_paths(group.map_values(|g: FileGroup| pviews(g.aliases@)).flatten())
}

/// The duplicate group made of two or more distinct files of `size` bytes:
/// every alias of every file, sorted. `None` for fewer than two files.
pub fn duplicate_group(size: u64, group: &Vec<FileGroup>) -> (r: Option<DuplicateGroup>)
    ensures
        group@.len() <= 1 ==> r is None,
        group@.len() > 1 ==> (r matches Some(d) && d.size == size && d.path_views() == group_paths(group@)),
{
    if group.len() <= 1 {
        return None;
    }
    let ghost av = group@.map_values(|g: FileGroup| pviews(g.aliases@));
    let mut paths: Vec<FsPath> = Vec::new();
    let mut k: usize = 0;
    assert(av.take(0).flatten() =~= Seq::<PathV>::empty()) by {
        reveal(Seq::flatten);
    }
    assert(pviews(paths@) =~= Seq::<PathV>::empty());
    while k < group.len()
        invariant
            av == group@.map_values(|g: FileGroup| pviews(g.aliases@)),
            k <= group@.len(),
            pviews(paths@) == av.take(k as int).flatten(),
        decreases group@.len() - k,
    {
        let a = &group[k].aliases;
        let ghost start = pviews(paths@);
        let mut q: usize = 0;
        while q < a.len()
            invariant
                q <= a@.len(),
                pviews(paths@) == start + pviews(a@).take(q as int),
            decreases a@.len() - q,
        {
            let ghost before = pviews(paths@);
            paths.push(clone_path(&a[q]));
            assert(pviews(paths@) =~= before.push(pview(a@[q as int])));
            assert(pviews(a@).take(q + 1) =~= pviews(a@).take(q as int).push(pview(a@[q as int])));
            q = q + 1;
        }
        assert(pviews(a@).take(a@.len() as int) =~= pviews(a@));
        proof {
            assert(av.take(k + 1) =~= av.take(k as int).push(av[k as int]));
            av.take(k as int).lemma_flatten_push(av[k as int]);
        }
        k = k + 1;
    }
    assert(av.take(group@.len() as int) =~= av);
    let ghost unsorted = pviews(paths@);
    let sorted = sort_by_view(paths);
    proof {
        lemma_path_total();
        let le = |a: PathV, b: PathV| path_le(a, b);
        assert(views(sorted@) =~= pviews(sorted@));
        assert(views(paths@) =~= pviews(paths@));
        assert(view_order::<FsPath>() =~= le);
        unsorted.lemma_sort_by_ensures(le);
        crate::sort::lemma_sorted_unique(pviews(sorted@), sorted_paths(unsorted), le);
    }
    Some(DuplicateGroup { size, paths: sorted })
}

proof fn lemma_shared_same_key(keys: Seq<GroupKey>, k: int)
    requires
        0 <= k < shared_groups(keys).len(),
    ensures
        shared_groups(keys)[k].len() >= 2,
        keys[shared_groups(keys)[k][0]] != GroupKey::Missing,
        forall|q: int|
            0 <= q < shared_groups(keys)[k].len() ==> 0 <= #[trigger] shared_groups(keys)[k][q] < keys.len()
                && keys[shared_groups(keys)[k][q]] == keys[shared_groups(keys)[k][0]],
{
    let sp = |g: Seq<int>| g.len() >= 2 && keys[g[0]] != GroupKey::Missing;
    let kg = key_groups(keys);
    let g = kg.filter(sp)[k];
    kg.filter_lemma(sp);
    assert(kg.filter(sp).contains(g));
    kg.lemma_filter_contains_rev(sp, g);
    let j = choose|j: int| 0 <= j < kg.len() && kg[j] == g;
    lemma_key_group_members(keys, j);
    let fp = |i: int| first_of(keys, i);
    let fl = indices(keys.len()).filter(fp);
    let first = fl[j];
    assert(fl.contains(first));
    indices(keys.len()).lemma_filter_contains_rev(fp, first);
    assert(g == with_key(keys, keys[first]));
    let kp = |x: int| keys[x] == keys[first];
    indices(keys.len()).filter_lemma(kp);
    assert forall|q: int| 0 <= q < g.len() implies keys[#[trigger] g[q]] == keys[first] by {
        assert(kp(g[q]));
    }
}

/// The grouping keys of `hashes`.
pub open spec fn hash_key_seq(hashes: Seq<Option<u128>>) -> Seq<GroupKey> {
    hashes.map_values(|h: Option<u128>| hash_key(h))
}

/// The grouping keys of the sizes of `files`.
pub open spec fn size_key_seq(files: Seq<(u64, FileGroup)>) -> Seq<GroupKey> {
    files.map_values(|e: (u64, FileGroup)| GroupKey::Value(e.0 as u128))
}

/// Hash-stage law: every group the hash stage keeps has two or more files,
/// all with the same hash, none of them missing; and sizes group the same
/// way, every size group sharing one size.
pub proof fn lemma_stage_groups_agree(hashes: Seq<Option<u128>>, files: Seq<(u64, FileGroup)>)
    ensures
        forall|k: int| 0 <= k < shared_groups(hash_key_seq(hashes)).len() ==> {
            let g = #[trigger] shared_groups(hash_key_seq(hashes))[k];
            &&& g.len() >= 2
            &&& forall|q: int| 0 <= q < g.len() ==> 0 <= #[trigger] g[q] < hashes.len() && hashes[g[q]] is Some
                && hashes[g[q]] == hashes[g[0]]
        },
        forall|k: int| 0 <= k < shared_groups(size_key_seq(files)).len() ==> {
            let g = #[trigger] shared_groups(size_key_seq(files))[k];
            &&& g.len() >= 2
            &&& forall|q: int| 0 <= q < g.len() ==> 0 <= #[trigger] g[q] < files.len() && files[g[q]].0 == files[g[0]].0
        },
{
    let hk = hash_key_seq(hashes);
    assert forall|k: int| 0 <= k < shared_groups(hk).len() implies {
        let g = #[trigger] shared_groups(hk)[k];
        &&& g.len() >= 2
        &&& forall|q: int| 0 <= q < g.len() ==> 0 <= #[trigger] g[q] < hashes.len() && hashes[g[q]] is Some
            && hashes[g[q]] == hashes[g[0]]
    } by {
        lemma_shared_same_key(hk, k);
        let g = shared_groups(hk)[k];
        assert forall|q: int| 0 <= q < g.len() implies 0 <= #[trigger] g[q] < hashes.len() && hashes[g[q]] is Some
            && hashes[g[q]] == hashes[g[0]] by {
            assert(hk[g[q]] == hk[g[0]]);
            assert(hk[g[0]] == hash_key(hashes[g[0]]));
            assert(hk[g[q]] == hash_key(hashes[g[q]]));
        }
    }
    let sk = size_key_seq(files);
    assert forall|k: int| 0 <= k < shared_groups(sk).len() implies {
        let g = #[trigger] shared_groups(sk)[k];
        &&& g.len() >= 2
        &&& forall|q: int| 0 <= q < g.len() ==> 0 <= #[trigger] g[q] < files.len() && files[g[q]].0 == files[g[0]].0
    } by {
        lemma_shared_same_key(sk, k);
        let g = shared_groups(sk)[k];
        assert forall|q: int| 0 <= q < g.len() implies 0 <= #[trigger] g[q] < files.len() && files[g[q]].0
            == files[g[0]].0 by {
            assert(sk[g[q]] == sk[g[0]]);
        }
    }
}

/// The total size of the first `n` candidates.
pub open spec fn candidate_bytes(cands: Seq<Candidate>, n: int) -> nat
    decreases n,
{
    if n <= 0 {
        0
    } else {
        candidate_bytes(cands, n - 1) + cands[n - 1].size as nat
    }
}

/// The number of paths in the first `n` groups.
pub open spec fn grouped_files(groups: Seq<DuplicateGroup>, n: int) -> nat
    decreases n,
{
    if n <= 0 {
        0
    } else {
        grouped_files(groups, n - 1) + groups[n - 1].paths@.len()
    }
}

proof fn lemma_candidate_bytes_monotone(cands: Seq<Candidate>, i: int, n: int)
    requires
        0 <= i <= n,
    ensures
        candidate_bytes(cands, i) <= candidate_bytes(cands, n),
    decreases n - i,
{
    if i < n {
        lemma_candidate_bytes_monotone(cands, i, n - 1);
    }
}

proof fn lemma_grouped_files_monotone(groups: Seq<DuplicateGroup>, i: int, n: int)
    requires
        0 <= i <= n,
    ensures
        grouped_files(groups, i) <= grouped_files(groups, n),
    decreases n - i,
{
    if i < n {
        lemma_grouped_files_monotone(groups, i, n - 1);
    }
}

/// The summary of a finished scan: files and bytes traversed, duplicate
/// groups found and the files in them.
pub fn scan_summary(cands: &Vec<Candidate>, groups: &Vec<DuplicateGroup>) -> (r: crate::model::ScanSummary)
    requires
        candidate_bytes(cands@, cands@.len() as int) <= u64::MAX,
        grouped_files(groups@, groups@.len() as int) <= u64::MAX,
    ensures
        r.files_scanned == cands@.len(),
        r.bytes_scanned == candidate_bytes(cands@, cands@.len() as int),
        r.duplicate_groups == groups@.len(),
        r.duplicate_files == grouped_files(groups@, groups@.len() as int),
{
    let mut bytes: u64 = 0;
    let mut i: usize = 0;
    while i < cands.len()
        invariant
            i <= cands@.len(),
            candidate_bytes(cands@, cands@.len() as int) <= u64::MAX,
            bytes == candidate_bytes(cands@, i as int),
        decreases cands@.len() - i,
    {
        proof {
            lemma_candidate_bytes_monotone(cands@, i + 1, cands@.len() as int);
        }
        bytes = bytes + cands[i].size;
        i = i + 1;
    }
    let mut files: u64 = 0;
    let mut k: usize = 0;
    while k < groups.len()
        invariant
            k <= groups@.len(),
            grouped_files(groups@, groups@.len() as int) <= u64::MAX,
            files == grouped_files(groups@, k as int),
        decreases groups@.len() - k,
    {
        proof {
            lemma_grouped_files_monotone(groups@, k + 1, groups@.len() as int);
        }
        files = files + groups[k].paths.len() as u64;
        k = k + 1;
    }
    crate::model::ScanSummary {
        files_scanned: cands.len() as u64,
        bytes_scanned: bytes,
        duplicate_groups: groups.len() as u64,
        duplicate_files: files,
    }
}

} // verus!

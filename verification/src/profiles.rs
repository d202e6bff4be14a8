//! Saved scan presets: where they are stored, and how a list of them is
//! updated by saving a preset under a name or removing one.

use vstd::prelude::*;
use crate::paths::{FsPath, pview, clone_path};
use crate::payload::ScanProfilePayload;
use crate::text::text_eq;

verus! {

/// The file, inside a preset folder, that holds the presets.
pub fn profiles_path(dir: &FsPath) -> (r: FsPath)
    ensures
        pview(r) == pview(*dir).push("scan_profiles.json"@),
{
    let mut p = clone_path(dir);
    p.push(String::from_str("scan_profiles.json"));
    p
}

/// The position of the first preset named `name`.
pub open spec fn first_named(ps: Seq<ScanProfilePayload>, name: Seq<char>) -> Option<int> {
    if exists|i: int| 0 <= i < ps.len() && ps[i].name@ == name {
        Some(choose|i: int| 0 <= i < ps.len() && ps[i].name@ == name && forall|j: int| 0 <= j < i ==> ps[j].name@ != name)
    } else {
        None
    }
}

proof fn lemma_first_named(ps: Seq<ScanProfilePayload>, name: Seq<char>, i: int)
    requires
        0 <= i < ps.len(),
        ps[i].name@ == name,
        forall|j: int| 0 <= j < i ==> ps[j].name@ != name,
    ensures
        first_named(ps, name) == Some(i),
{
    let k = choose|k: int| 0 <= k < ps.len() && ps[k].name@ == name && forall|j: int| 0 <= j < k ==> ps[j].name@ != name;
    assert(ps[i].name@ == name);
    if k < i {
        assert(ps[k].name@ != name);
    } else if k > i {
        assert(ps[i].name@ != name);
    }
}

proof fn lemma_minimal_named(ps: Seq<ScanProfilePayload>, name: Seq<char>, i: int)
    requires
        0 <= i < ps.len(),
        ps[i].name@ == name,
    ensures
        exists|k: int| 0 <= k < ps.len() && ps[k].name@ == name && forall|j: int| 0 <= j < k ==> ps[j].name@ != name,
    decreases i,
{
    if exists|j: int| 0 <= j < i && ps[j].name@ == name {
        let j = choose|j: int| 0 <= j < i && ps[j].name@ == name;
        lemma_minimal_named(ps, name, j);
    } else {
        assert(forall|j: int| 0 <= j < i ==> ps[j].name@ != name);
    }
}

proof fn lemma_first_named_props(ps: Seq<ScanProfilePayload>, name: Seq<char>)
    ensures
        match first_named(ps, name) {
            Some(i) => 0 <= i < ps.len() && ps[i].name@ == name && forall|j: int| 0 <= j < i ==> ps[j].name@ != name,
            None => forall|j: int| 0 <= j < ps.len() ==> ps[j].name@ != name,
        },
{
    if exists|i: int| 0 <= i < ps.len() && ps[i].name@ == name {
        let i = choose|i: int| 0 <= i < ps.len() && ps[i].name@ == name;
        lemma_minimal_named(ps, name, i);
    }
}

/// `ps` with `p` saved: replacing the first preset of its name, else appended.
pub open spec fn upserted(ps: Seq<ScanProfilePayload>, p: ScanProfilePayload) -> Seq<ScanProfilePayload> {
    match first_named(ps, p.name@) {
        Some(i) => ps.update(i, p),
        None => ps.push(p),
    }
}

/// `ps` without the presets named `name`.
pub open spec fn removed(ps: Seq<ScanProfilePayload>, name: Seq<char>) -> Seq<ScanProfilePayload> {
    ps.filter(|q: ScanProfilePayload| q.name@ != name)
}

/// Saves `profile` into `profiles`: it replaces the first preset of the same
/// name, or is appended when no preset has that name. Saving under a name
/// in use is an update, not an error.
pub fn upsert(profiles: Vec<ScanProfilePayload>, profile: ScanProfilePayload) -> (r: Vec<ScanProfilePayload>)
    ensures
        r@ == upserted(profiles@, profile),
{
    let ghost orig = profiles@;
    let mut ps = profiles;
    let mut i: usize = 0;
    while i < ps.len()
        invariant
            ps@ == orig,
            orig == profiles@,
            i <= ps@.len(),
            forall|j: int| 0 <= j < i ==> ps@[j].name@ != profile.name@,
        decreases ps@.len() - i,
    {
        if text_eq(ps[i].name.as_str(), profile.name.as_str()) {
            proof {
                lemma_first_named(orig, profile.name@, i as int);
            }
            ps.set(i, profile);
            return ps;
        }
        i = i + 1;
    }
    proof {
        assert(!exists|j: int| 0 <= j < orig.len() && orig[j].name@ == profile.name@);
    }
    ps.push(profile);
    ps
}

/// Removes every preset named `name`; removing a name not in use changes nothing.
pub fn remove(profiles: Vec<ScanProfilePayload>, name: &str) -> (r: Vec<ScanProfilePayload>)
    ensures
        r@ == removed(profiles@, name@),
{
    let ghost all = profiles@;
    let ghost keep = |p: ScanProfilePayload| p.name@ != name@;
    let mut rest = profiles;
    let mut stack: Vec<ScanProfilePayload> = Vec::new();
    // Take the presets off the back, then walk them front to back.
    while rest.len() > 0
        invariant
            all == rest@ + stack@.reverse(),
        decreases rest@.len(),
    {
        let ghost before = rest@;
        let p = rest.pop().unwrap();
        proof {
            assert(before =~= rest@.push(p));
        }
        stack.push(p);
        assert(stack@.reverse() =~= seq![p] + stack@.drop_last().reverse());
        assert(all =~= rest@ + stack@.reverse());
    }
    assert(stack@.reverse() =~= all);
    let mut out: Vec<ScanProfilePayload> = Vec::new();
    let ghost mut done: int = 0;
    assert(all.take(0).filter(keep) =~= Seq::<ScanProfilePayload>::empty()) by {
        reveal(Seq::filter);
    }
    while stack.len() > 0
        invariant
            keep == (|p: ScanProfilePayload| p.name@ != name@),
            0 <= done <= all.len(),
            stack@.len() == all.len() - done,
            stack@.reverse() == all.skip(done),
            out@ == all.take(done).filter(keep),
        decreases stack@.len(),
    {
        let ghost before = stack@;
        let p = stack.pop().unwrap();
        proof {
            assert(before.reverse()[0] == p);
            assert(all.skip(done)[0] == all[done]);
            assert(stack@.reverse() =~= before.reverse().drop_first());
            assert(all.skip(done + 1) =~= all.skip(done).drop_first());
            assert(all.take(done + 1) =~= all.take(done).push(all[done]));
            all.take(done).lemma_filter_push(all[done], keep);
        }
        if !text_eq(p.name.as_str(), name) {
            out.push(p);
        }
        proof {
            done = done + 1;
        }
    }
    assert(all.take(done) =~= all);
    out
}

/// Preset laws: saving a preset keeps every preset of another name where it
/// was and leaves exactly one more or the same number of presets; saving the
/// same preset twice is saving it once; after removing a name, no preset has
/// that name.
pub proof fn lemma_profile_laws(ps: Seq<ScanProfilePayload>, p: ScanProfilePayload, name: Seq<char>)
    ensures
        forall|k: int| 0 <= k < ps.len() && ps[k].name@ != p.name@ ==> #[trigger] upserted(ps, p)[k] == ps[k],
        upserted(ps, p).contains(p),
        upserted(upserted(ps, p), p) == upserted(ps, p),
        forall|k: int| 0 <= k < removed(ps, name).len() ==> (#[trigger] removed(ps, name)[k]).name@ != name,
        forall|k: int| 0 <= k < ps.len() && ps[k].name@ != name ==> removed(ps, name).contains(#[trigger] ps[k]),
{
    let u = upserted(ps, p);
    lemma_first_named_props(ps, p.name@);
    match first_named(ps, p.name@) {
        Some(i) => {
            assert(u[i] == p);
            assert forall|j: int| 0 <= j < i implies u[j].name@ != p.name@ by {
                assert(u[j] == ps[j]);
            }
            lemma_first_named(u, p.name@, i);
            assert(u.update(i, p) =~= u);
            assert(u.contains(p));
        },
        None => {
            let n = ps.len() as int;
            assert(u[n] == p);
            assert forall|j: int| 0 <= j < n implies u[j].name@ != p.name@ by {
                assert(u[j] == ps[j]);
            }
            lemma_first_named(u, p.name@, n);
            assert(u.update(n, p) =~= u);
            assert(u.contains(p));
        },
    }
    let keep = |q: ScanProfilePayload| q.name@ != name;
    ps.filter_lemma(keep);
    assert forall|k: int| 0 <= k < ps.len() && ps[k].name@ != name implies removed(ps, name).contains(#[trigger] ps[k]) by {
        ps.lemma_filter_contains(keep, k);
    }
}

} // verus!

//! Association lists keyed by path-like strings.
//!
//! The project-root mapping and the per-project file map are stored as
//! entry vectors with unique keys; their model is the finite map that
//! such a vector represents, built here generically.

use vstd::prelude::*;

verus! {

/// The map an entry sequence represents; a later entry for the same key
/// overrides an earlier one.
pub open spec fn assoc_map<V>(s: Seq<(Seq<char>, V)>) -> Map<Seq<char>, V>
    decreases s.len(),
{
    if s.len() == 0 {
        Map::empty()
    } else {
        assoc_map(s.drop_last()).insert(s.last().0, s.last().1)
    }
}

/// At most one entry per key.
pub open spec fn uniq_keys<V>(s: Seq<(Seq<char>, V)>) -> bool {
    forall|i: int, j: int|
        0 <= i < s.len() && 0 <= j < s.len() && i != j ==> (#[trigger] s[i]).0 != (
        #[trigger] s[j]).0
}

/// A key is in the map exactly when some entry carries it.
pub proof fn lemma_assoc_membership<V>(s: Seq<(Seq<char>, V)>)
    ensures
        forall|p: Seq<char>|
            #[trigger] assoc_map(s).contains_key(p) <==> exists|i: int|
                0 <= i < s.len() && (#[trigger] s[i]).0 == p,
    decreases s.len(),
{
    if s.len() > 0 {
        let dl = s.drop_last();
        lemma_assoc_membership(dl);
        assert forall|p: Seq<char>| #[trigger] assoc_map(s).contains_key(p) implies exists|i: int|
            0 <= i < s.len() && (#[trigger] s[i]).0 == p by {
            if p == s.last().0 {
                assert((s[s.len() - 1]).0 == p);
            } else {
                assert(assoc_map(dl).contains_key(p));
                let i = choose|i: int| 0 <= i < dl.len() && (#[trigger] dl[i]).0 == p;
                assert((s[i]).0 == p);
            }
        }
        assert forall|p: Seq<char>|
            (exists|i: int| 0 <= i < s.len() && (#[trigger] s[i]).0 == p) implies #[trigger]
            assoc_map(s).contains_key(p) by {
            let i = choose|i: int| 0 <= i < s.len() && (#[trigger] s[i]).0 == p;
            if i == s.len() - 1 {
                assert(assoc_map(s).contains_key(s.last().0));
            } else {
                assert((dl[i]).0 == p);
                assert(assoc_map(dl).contains_key(p));
            }
        }
    }
}

/// With unique keys, the map assigns each entry's value to its key.
pub proof fn lemma_assoc_values<V>(s: Seq<(Seq<char>, V)>)
    requires
        uniq_keys(s),
    ensures
        forall|i: int|
            0 <= i < s.len() ==> assoc_map(s).contains_key((#[trigger] s[i]).0) && assoc_map(
                s,
            )[s[i].0] == s[i].1,
    decreases s.len(),
{
    if s.len() > 0 {
        let dl = s.drop_last();
        assert forall|i: int, j: int|
            0 <= i < dl.len() && 0 <= j < dl.len() && i != j implies (#[trigger] dl[i]).0
            != (#[trigger] dl[j]).0 by {
            assert(dl[i] == s[i]);
            assert(dl[j] == s[j]);
        }
        lemma_assoc_values(dl);
        assert forall|i: int|
            0 <= i < s.len() implies assoc_map(s).contains_key((#[trigger] s[i]).0) && assoc_map(
            s,
        )[s[i].0] == s[i].1 by {
            if i < s.len() - 1 {
                assert(dl[i] == s[i]);
                assert(s[i].0 != s[s.len() - 1].0);
            }
        }
    }
}

/// Overwriting the value at an existing entry updates exactly that key.
pub proof fn lemma_assoc_update<V>(s: Seq<(Seq<char>, V)>, i: int, v: V)
    requires
        uniq_keys(s),
        0 <= i < s.len(),
    ensures
        assoc_map(s.update(i, (s[i].0, v))) == assoc_map(s).insert(s[i].0, v),
        uniq_keys(s.update(i, (s[i].0, v))),
    decreases s.len(),
{
    let t = s.update(i, (s[i].0, v));
    assert forall|a: int, b: int|
        0 <= a < t.len() && 0 <= b < t.len() && a != b implies (#[trigger] t[a]).0 != (
    #[trigger] t[b]).0 by {
        assert(t[a].0 == s[a].0);
        assert(t[b].0 == s[b].0);
    }
    if i == s.len() - 1 {
        assert(t.drop_last() =~= s.drop_last());
        assert(t.last() == (s[i].0, v));
        assert(assoc_map(t) == assoc_map(s.drop_last()).insert(s[i].0, v));
        assert(assoc_map(s.drop_last()).insert(s[i].0, v) =~= assoc_map(s).insert(s[i].0, v));
    } else {
        let dl = s.drop_last();
        assert forall|a: int, b: int|
            0 <= a < dl.len() && 0 <= b < dl.len() && a != b implies (#[trigger] dl[a]).0
            != (#[trigger] dl[b]).0 by {
            assert(dl[a] == s[a]);
            assert(dl[b] == s[b]);
        }
        lemma_assoc_update(dl, i, v);
        assert(t.drop_last() =~= dl.update(i, (dl[i].0, v)));
        assert(t.last() == s.last());
        assert(assoc_map(t) == assoc_map(dl).insert(s[i].0, v).insert(s.last().0, s.last().1));
        // the two inserted keys differ, so the inserts commute
        assert(s[i].0 != s.last().0);
        assert(assoc_map(dl).insert(s[i].0, v).insert(s.last().0, s.last().1) =~= assoc_map(
            dl,
        ).insert(s.last().0, s.last().1).insert(s[i].0, v));
    }
}

/// Appending an entry with a fresh key inserts exactly that key and
/// keeps the keys unique.
pub proof fn lemma_assoc_push<V>(s: Seq<(Seq<char>, V)>, k: Seq<char>, v: V)
    requires
        uniq_keys(s),
        forall|i: int| 0 <= i < s.len() ==> (#[trigger] s[i]).0 != k,
    ensures
        assoc_map(s.push((k, v))) == assoc_map(s).insert(k, v),
        uniq_keys(s.push((k, v))),
{
    let t = s.push((k, v));
    assert(t.drop_last() =~= s);
    assert(t.last() == (k, v));
    assert forall|a: int, b: int|
        0 <= a < t.len() && 0 <= b < t.len() && a != b implies (#[trigger] t[a]).0 != (
    #[trigger] t[b]).0 by {
        if a < s.len() && b < s.len() {
            assert(t[a] == s[a]);
            assert(t[b] == s[b]);
        } else if a == s.len() {
            assert(t[b] == s[b]);
        } else {
            assert(t[a] == s[a]);
        }
    }
}

} // verus!

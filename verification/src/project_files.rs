//! Partitioning the flat file index into per-project buckets.
//!
//! Given a project-root mapping, a prior partition and a delta, the
//! partitioner re-derives the per-project file lists and the remaining
//! global files.  Every updated record is classified by structural
//! longest-prefix match against the mapping — not by where it
//! previously lived — and every deleted path is removed from its
//! owning project's list and, defensively, from the globals.

use vstd::prelude::*;
use crate::records::{FileData, Rec, file_views, uniq_paths, path_seq, clone_records};
use crate::assoc::{
    assoc_map, uniq_keys, lemma_assoc_membership, lemma_assoc_values, lemma_assoc_update,
    lemma_assoc_push,
};
use crate::project_graph::{ProjectRootMappings, spec_find_project, find_project_for_path};

verus! {

/// Whether some record of `s` carries the path `p`.
pub open spec fn has_path(s: Seq<Rec>, p: Seq<char>) -> bool {
    exists|i: int| 0 <= i < s.len() && (#[trigger] s[i]).0 == p
}

/// The position of the first record with path `p`, if any.
pub open spec fn first_at(s: Seq<Rec>, p: Seq<char>) -> Option<int>
    decreases s.len(),
{
    if s.len() == 0 {
        None
    } else if s[0].0 == p {
        Some(0)
    } else {
        match first_at(s.drop_first(), p) {
            Some(i) => Some(i + 1),
            None => None,
        }
    }
}

/// Overwrites the hash of the first record with path `p`, or appends a
/// new record.
pub open spec fn upsert_rec(s: Seq<Rec>, p: Seq<char>, h: Seq<char>) -> Seq<Rec> {
    match first_at(s, p) {
        Some(i) => s.update(i, (p, h)),
        None => s.push((p, h)),
    }
}

/// Removes the first record with path `p`, if any.
pub open spec fn remove_rec(s: Seq<Rec>, p: Seq<char>) -> Seq<Rec> {
    match first_at(s, p) {
        Some(i) => s.remove(i),
        None => s,
    }
}

pub proof fn lemma_first_at_props(s: Seq<Rec>, p: Seq<char>)
    ensures
        match first_at(s, p) {
            Some(i) => 0 <= i < s.len() && s[i].0 == p && forall|j: int|
                0 <= j < i ==> (#[trigger] s[j]).0 != p,
            None => forall|j: int| 0 <= j < s.len() ==> (#[trigger] s[j]).0 != p,
        },
    decreases s.len(),
{
    if s.len() > 0 && s[0].0 != p {
        let df = s.drop_first();
        lemma_first_at_props(df, p);
        match first_at(df, p) {
            Some(i) => {
                assert(s[i + 1] == df[i]);
                assert forall|j: int| 0 <= j < i + 1 implies (#[trigger] s[j]).0 != p by {
                    if j > 0 {
                        assert(df[j - 1] == s[j]);
                    }
                }
            },
            None => {
                assert forall|j: int| 0 <= j < s.len() implies (#[trigger] s[j]).0 != p by {
                    if j > 0 {
                        assert(df[j - 1] == s[j]);
                    }
                }
            },
        }
    }
}

pub proof fn lemma_first_at_exact(s: Seq<Rec>, p: Seq<char>, k: int)
    requires
        0 <= k < s.len(),
        s[k].0 == p,
        forall|j: int| 0 <= j < k ==> (#[trigger] s[j]).0 != p,
    ensures
        first_at(s, p) == Some(k),
    decreases s.len(),
{
    if k > 0 {
        let df = s.drop_first();
        assert(df[k - 1] == s[k]);
        assert forall|j: int| 0 <= j < k - 1 implies (#[trigger] df[j]).0 != p by {
            assert(df[j] == s[j + 1]);
        }
        lemma_first_at_exact(df, p, k - 1);
    }
}

pub proof fn lemma_first_at_none(s: Seq<Rec>, p: Seq<char>)
    requires
        forall|j: int| 0 <= j < s.len() ==> (#[trigger] s[j]).0 != p,
    ensures
        first_at(s, p) is None,
{
    lemma_first_at_props(s, p);
    match first_at(s, p) {
        Some(i) => {
            assert(s[i].0 != p);
            assert(false);
        },
        None => {},
    }
}

/// An upsert keeps paths unique and adds exactly the path `p`.
pub proof fn lemma_upsert_paths(s: Seq<Rec>, p: Seq<char>, h: Seq<char>)
    requires
        uniq_paths(s),
    ensures
        uniq_paths(upsert_rec(s, p, h)),
        forall|q: Seq<char>|
            #[trigger] has_path(upsert_rec(s, p, h), q) <==> (has_path(s, q) || q == p),
{
    lemma_first_at_props(s, p);
    let u = upsert_rec(s, p, h);
    match first_at(s, p) {
        Some(i) => {
            assert forall|a: int, b: int|
                0 <= a < u.len() && 0 <= b < u.len() && a != b implies (#[trigger] u[a]).0 != (
            #[trigger] u[b]).0 by {
                assert(u[a].0 == s[a].0);
                assert(u[b].0 == s[b].0);
            }
            assert forall|q: Seq<char>|
                #[trigger] has_path(u, q) <==> (has_path(s, q) || q == p) by {
                assert forall|k: int| 0 <= k < u.len() implies u[k].0 == s[k].0 by {}
                if has_path(u, q) {
                    let k = choose|k: int| 0 <= k < u.len() && (#[trigger] u[k]).0 == q;
                    assert(s[k].0 == q);
                }
                if has_path(s, q) {
                    let k = choose|k: int| 0 <= k < s.len() && (#[trigger] s[k]).0 == q;
                    assert(u[k].0 == q);
                }
                if q == p {
                    assert(u[i].0 == q);
                }
            }
        },
        None => {
            assert forall|a: int, b: int|
                0 <= a < u.len() && 0 <= b < u.len() && a != b implies (#[trigger] u[a]).0 != (
            #[trigger] u[b]).0 by {
                if a < s.len() && b < s.len() {
                    assert(u[a] == s[a]);
                    assert(u[b] == s[b]);
                } else if a == s.len() {
                    assert(u[b] == s[b]);
                    assert(s[b].0 != p);
                } else {
                    assert(u[a] == s[a]);
                    assert(s[a].0 != p);
                }
            }
            assert forall|q: Seq<char>|
                #[trigger] has_path(u, q) <==> (has_path(s, q) || q == p) by {
                if has_path(u, q) {
                    let k = choose|k: int| 0 <= k < u.len() && (#[trigger] u[k]).0 == q;
                    if k < s.len() {
                        assert(s[k].0 == q);
                    }
                }
                if has_path(s, q) {
                    let k = choose|k: int| 0 <= k < s.len() && (#[trigger] s[k]).0 == q;
                    assert(u[k].0 == q);
                }
                if q == p {
                    assert(u[s.len() as int].0 == q);
                }
            }
        },
    }
}

/// A removal keeps paths unique and removes exactly the path `p`.
pub proof fn lemma_remove_paths(s: Seq<Rec>, p: Seq<char>)
    requires
        uniq_paths(s),
    ensures
        uniq_paths(remove_rec(s, p)),
        forall|q: Seq<char>|
            #[trigger] has_path(remove_rec(s, p), q) <==> (has_path(s, q) && q != p),
{
    lemma_first_at_props(s, p);
    let r = remove_rec(s, p);
    match first_at(s, p) {
        Some(i) => {
            assert forall|k: int| 0 <= k < r.len() implies (#[trigger] r[k]) == (
            if k < i {
                s[k]
            } else {
                s[k + 1]
            }) by {}
            assert forall|a: int, b: int|
                0 <= a < r.len() && 0 <= b < r.len() && a != b implies (#[trigger] r[a]).0 != (
            #[trigger] r[b]).0 by {
                let a2: int = if a < i {
                    a
                } else {
                    a + 1
                };
                let b2: int = if b < i {
                    b
                } else {
                    b + 1
                };
                assert(r[a] == s[a2]);
                assert(r[b] == s[b2]);
            }
            assert forall|q: Seq<char>|
                #[trigger] has_path(r, q) <==> (has_path(s, q) && q != p) by {
                if has_path(r, q) {
                    let k = choose|k: int| 0 <= k < r.len() && (#[trigger] r[k]).0 == q;
                    let k2: int = if k < i {
                        k
                    } else {
                        k + 1
                    };
                    assert(s[k2].0 == q);
                    // the record at i is the unique one with path p
                    assert(k2 != i);
                    if q == p {
                        assert(s[i].0 == s[k2].0);
                        assert(false);
                    }
                }
                if has_path(s, q) && q != p {
                    let k = choose|k: int| 0 <= k < s.len() && (#[trigger] s[k]).0 == q;
                    assert(k != i);
                    if k < i {
                        assert(r[k].0 == q);
                    } else {
                        assert(r[k - 1] == s[k]);
                        assert(r[k - 1].0 == q);
                    }
                }
            }
        },
        None => {
            assert forall|q: Seq<char>|
                #[trigger] has_path(r, q) <==> (has_path(s, q) && q != p) by {
                if has_path(s, q) && q == p {
                    let k = choose|k: int| 0 <= k < s.len() && (#[trigger] s[k]).0 == q;
                    assert(false);
                }
            }
        },
    }
}

/// Every list of a consistent partition holds unique paths classified
/// to its own bucket: project lists hold paths the mapping assigns to
/// that project, the globals hold unowned paths.
pub open spec fn all_owned_by(m: Map<Seq<char>, Seq<char>>, s: Seq<Rec>, proj: Seq<char>) -> bool {
    forall|i: int|
        0 <= i < s.len() ==> spec_find_project(m, (#[trigger] s[i]).0) == Some(proj)
}

pub open spec fn all_global(m: Map<Seq<char>, Seq<char>>, s: Seq<Rec>) -> bool {
    forall|i: int| 0 <= i < s.len() ==> spec_find_project(m, (#[trigger] s[i]).0) is None
}

pub open spec fn consistent(
    m: Map<Seq<char>, Seq<char>>,
    pf: Map<Seq<char>, Seq<Rec>>,
    gl: Seq<Rec>,
) -> bool {
    &&& forall|proj: Seq<char>| #[trigger]
        pf.contains_key(proj) ==> uniq_paths(pf[proj]) && all_owned_by(m, pf[proj], proj)
    &&& uniq_paths(gl)
    &&& all_global(m, gl)
}

/// The set of paths present in any bucket of the partition.
pub open spec fn bucket_paths(pf: Map<Seq<char>, Seq<Rec>>, gl: Seq<Rec>) -> Set<Seq<char>> {
    Set::new(
        |q: Seq<char>|
            (exists|proj: Seq<char>| #[trigger] pf.contains_key(proj) && has_path(pf[proj], q))
                || has_path(gl, q),
    )
}

/// The set of paths of a record sequence.
pub open spec fn rec_path_set(s: Seq<Rec>) -> Set<Seq<char>> {
    Set::new(|q: Seq<char>| has_path(s, q))
}

/// Applies one updated record: it is classified by the mapping and
/// inserted or overwritten in its bucket, creating the project's list
/// if the project had none.
pub open spec fn apply_update_one(
    m: Map<Seq<char>, Seq<char>>,
    pf: Map<Seq<char>, Seq<Rec>>,
    gl: Seq<Rec>,
    r: Rec,
) -> (Map<Seq<char>, Seq<Rec>>, Seq<Rec>) {
    match spec_find_project(m, r.0) {
        Some(proj) => {
            let list = if pf.contains_key(proj) {
                pf[proj]
            } else {
                Seq::empty()
            };
            (pf.insert(proj, upsert_rec(list, r.0, r.1)), gl)
        },
        None => (pf, upsert_rec(gl, r.0, r.1)),
    }
}

/// Applies the updated records in order.
pub open spec fn apply_updates(
    m: Map<Seq<char>, Seq<char>>,
    pf: Map<Seq<char>, Seq<Rec>>,
    gl: Seq<Rec>,
    ups: Seq<Rec>,
) -> (Map<Seq<char>, Seq<Rec>>, Seq<Rec>)
    decreases ups.len(),
{
    if ups.len() == 0 {
        (pf, gl)
    } else {
        let mid = apply_updates(m, pf, gl, ups.drop_last());
        apply_update_one(m, mid.0, mid.1, ups.last())
    }
}

/// Applies one deleted path: it is removed from its owning project's
/// list, if that project has one, and from the globals.
pub open spec fn apply_delete_one(
    m: Map<Seq<char>, Seq<char>>,
    pf: Map<Seq<char>, Seq<Rec>>,
    gl: Seq<Rec>,
    p: Seq<char>,
) -> (Map<Seq<char>, Seq<Rec>>, Seq<Rec>) {
    let pf1 = match spec_find_project(m, p) {
        Some(proj) => if pf.contains_key(proj) {
            pf.insert(proj, remove_rec(pf[proj], p))
        } else {
            pf
        },
        None => pf,
    };
    (pf1, remove_rec(gl, p))
}

/// Applies the deleted paths in order.
pub open spec fn apply_deletes(
    m: Map<Seq<char>, Seq<char>>,
    pf: Map<Seq<char>, Seq<Rec>>,
    gl: Seq<Rec>,
    dels: Seq<Seq<char>>,
) -> (Map<Seq<char>, Seq<Rec>>, Seq<Rec>)
    decreases dels.len(),
{
    if dels.len() == 0 {
        (pf, gl)
    } else {
        let mid = apply_deletes(m, pf, gl, dels.drop_last());
        apply_delete_one(m, mid.0, mid.1, dels.last())
    }
}

/// The whole recomputation: all updates, then all deletions.
pub open spec fn partition_after(
    m: Map<Seq<char>, Seq<char>>,
    pf: Map<Seq<char>, Seq<Rec>>,
    gl: Seq<Rec>,
    ups: Seq<Rec>,
    dels: Seq<Seq<char>>,
) -> (Map<Seq<char>, Seq<Rec>>, Seq<Rec>) {
    let mid = apply_updates(m, pf, gl, ups);
    apply_deletes(m, mid.0, mid.1, dels)
}

pub proof fn lemma_apply_update_one(
    m: Map<Seq<char>, Seq<char>>,
    pf: Map<Seq<char>, Seq<Rec>>,
    gl: Seq<Rec>,
    r: Rec,
)
    requires
        consistent(m, pf, gl),
    ensures
        ({
            let a = apply_update_one(m, pf, gl, r);
            consistent(m, a.0, a.1) && bucket_paths(a.0, a.1) == bucket_paths(pf, gl).insert(r.0)
        }),
{
    let a = apply_update_one(m, pf, gl, r);
    match spec_find_project(m, r.0) {
        Some(proj) => {
            let list = if pf.contains_key(proj) {
                pf[proj]
            } else {
                Seq::empty()
            };
            let nl = upsert_rec(list, r.0, r.1);
            assert(uniq_paths(list));
            lemma_upsert_paths(list, r.0, r.1);
            assert(all_owned_by(m, nl, proj)) by {
                assert forall|i: int|
                    0 <= i < nl.len() implies spec_find_project(m, (#[trigger] nl[i]).0) == Some(
                    proj,
                ) by {
                    assert(has_path(nl, nl[i].0));
                    if nl[i].0 != r.0 {
                        assert(has_path(list, nl[i].0));
                        let k = choose|k: int|
                            0 <= k < list.len() && (#[trigger] list[k]).0 == nl[i].0;
                    }
                }
            }
            assert(consistent(m, a.0, a.1)) by {
                assert forall|pr: Seq<char>| #[trigger]
                    a.0.contains_key(pr) implies uniq_paths(a.0[pr]) && all_owned_by(
                    m,
                    a.0[pr],
                    pr,
                ) by {
                    if pr != proj {
                        assert(pf.contains_key(pr));
                        assert(a.0[pr] == pf[pr]);
                    }
                }
            }
            assert(bucket_paths(a.0, a.1) =~= bucket_paths(pf, gl).insert(r.0)) by {
                assert forall|q: Seq<char>|
                    bucket_paths(a.0, a.1).contains(q) implies bucket_paths(pf, gl).insert(
                    r.0,
                ).contains(q) by {
                    if exists|pr: Seq<char>| #[trigger]
                        a.0.contains_key(pr) && has_path(a.0[pr], q) {
                        let pr = choose|pr: Seq<char>| #[trigger]
                            a.0.contains_key(pr) && has_path(a.0[pr], q);
                        if pr == proj {
                            if q != r.0 {
                                assert(has_path(list, q));
                                assert(pf.contains_key(proj) && has_path(pf[proj], q));
                            }
                        } else {
                            assert(pf.contains_key(pr) && has_path(pf[pr], q));
                        }
                    }
                }
                assert forall|q: Seq<char>|
                    bucket_paths(pf, gl).insert(r.0).contains(q) implies bucket_paths(
                    a.0,
                    a.1,
                ).contains(q) by {
                    if q == r.0 {
                        assert(a.0.contains_key(proj));
                        assert(has_path(a.0[proj], q));
                    } else if exists|pr: Seq<char>| #[trigger]
                        pf.contains_key(pr) && has_path(pf[pr], q) {
                        let pr = choose|pr: Seq<char>| #[trigger]
                            pf.contains_key(pr) && has_path(pf[pr], q);
                        if pr == proj {
                            assert(has_path(nl, q));
                            assert(a.0.contains_key(proj) && has_path(a.0[proj], q));
                        } else {
                            assert(a.0.contains_key(pr) && has_path(a.0[pr], q));
                        }
                    }
                }
            }
        },
        None => {
            lemma_upsert_paths(gl, r.0, r.1);
            let nl = upsert_rec(gl, r.0, r.1);
            assert(all_global(m, nl)) by {
                assert forall|i: int|
                    0 <= i < nl.len() implies spec_find_project(m, (#[trigger] nl[i]).0) is None by {
                    assert(has_path(nl, nl[i].0));
                    if nl[i].0 != r.0 {
                        assert(has_path(gl, nl[i].0));
                        let k = choose|k: int| 0 <= k < gl.len() && (#[trigger] gl[k]).0 == nl[i].0;
                    }
                }
            }
            assert(bucket_paths(a.0, a.1) =~= bucket_paths(pf, gl).insert(r.0)) by {
                assert forall|q: Seq<char>|
                    bucket_paths(pf, gl).insert(r.0).contains(q) implies bucket_paths(
                    a.0,
                    a.1,
                ).contains(q) by {
                    if q == r.0 || has_path(gl, q) {
                        assert(has_path(nl, q));
                    }
                }
            }
        },
    }
}

pub proof fn lemma_apply_delete_one(
    m: Map<Seq<char>, Seq<char>>,
    pf: Map<Seq<char>, Seq<Rec>>,
    gl: Seq<Rec>,
    p: Seq<char>,
)
    requires
        consistent(m, pf, gl),
    ensures
        ({
            let a = apply_delete_one(m, pf, gl, p);
            consistent(m, a.0, a.1) && bucket_paths(a.0, a.1) == bucket_paths(pf, gl).remove(p)
        }),
{
    let a = apply_delete_one(m, pf, gl, p);
    lemma_remove_paths(gl, p);
    match spec_find_project(m, p) {
        Some(proj) => {
            if pf.contains_key(proj) {
                lemma_remove_paths(pf[proj], p);
            }
            assert(consistent(m, a.0, a.1)) by {
                assert forall|pr: Seq<char>| #[trigger]
                    a.0.contains_key(pr) implies uniq_paths(a.0[pr]) && all_owned_by(
                    m,
                    a.0[pr],
                    pr,
                ) by {
                    if pf.contains_key(proj) && pr == proj {
                        let nl = remove_rec(pf[proj], p);
                        assert forall|i: int|
                            0 <= i < nl.len() implies spec_find_project(
                            m,
                            (#[trigger] nl[i]).0,
                        ) == Some(proj) by {
                            assert(has_path(nl, nl[i].0));
                            assert(has_path(pf[proj], nl[i].0));
                            let k = choose|k: int|
                                0 <= k < pf[proj].len() && (#[trigger] pf[proj][k]).0 == nl[i].0;
                        }
                    } else {
                        assert(pf.contains_key(pr));
                        assert(a.0[pr] == pf[pr]);
                    }
                }
                let ng = remove_rec(gl, p);
                assert forall|i: int|
                    0 <= i < ng.len() implies spec_find_project(m, (#[trigger] ng[i]).0) is None by {
                    assert(has_path(ng, ng[i].0));
                    assert(has_path(gl, ng[i].0));
                    let k = choose|k: int| 0 <= k < gl.len() && (#[trigger] gl[k]).0 == ng[i].0;
                }
            }
            assert(bucket_paths(a.0, a.1) =~= bucket_paths(pf, gl).remove(p)) by {
                assert forall|q: Seq<char>|
                    bucket_paths(a.0, a.1).contains(q) implies bucket_paths(pf, gl).remove(
                    p,
                ).contains(q) by {
                    if exists|pr: Seq<char>| #[trigger]
                        a.0.contains_key(pr) && has_path(a.0[pr], q) {
                        let pr = choose|pr: Seq<char>| #[trigger]
                            a.0.contains_key(pr) && has_path(a.0[pr], q);
                        if pf.contains_key(proj) && pr == proj {
                            assert(has_path(pf[proj], q) && q != p);
                        } else {
                            assert(pf.contains_key(pr) && has_path(pf[pr], q));
                            // q lives in pr's bucket, so it is owned by pr and is not p
                            if q == p {
                                let k = choose|k: int|
                                    0 <= k < pf[pr].len() && (#[trigger] pf[pr][k]).0 == q;
                                assert(spec_find_project(m, q) == Some(pr));
                                assert(false);
                            }
                        }
                    } else {
                        assert(has_path(gl, q) && q != p);
                    }
                }
                assert forall|q: Seq<char>|
                    bucket_paths(pf, gl).remove(p).contains(q) implies bucket_paths(
                    a.0,
                    a.1,
                ).contains(q) by {
                    if exists|pr: Seq<char>| #[trigger]
                        pf.contains_key(pr) && has_path(pf[pr], q) {
                        let pr = choose|pr: Seq<char>| #[trigger]
                            pf.contains_key(pr) && has_path(pf[pr], q);
                        if pf.contains_key(proj) && pr == proj {
                            assert(has_path(remove_rec(pf[proj], p), q));
                            assert(a.0.contains_key(proj) && has_path(a.0[proj], q));
                        } else {
                            assert(a.0.contains_key(pr) && has_path(a.0[pr], q));
                        }
                    } else {
                        assert(has_path(gl, q));
                        assert(has_path(remove_rec(gl, p), q));
                    }
                }
            }
        },
        None => {
            assert(a.0 == pf);
            assert(consistent(m, a.0, a.1)) by {
                let ng = remove_rec(gl, p);
                assert forall|i: int|
                    0 <= i < ng.len() implies spec_find_project(m, (#[trigger] ng[i]).0) is None by {
                    assert(has_path(ng, ng[i].0));
                    assert(has_path(gl, ng[i].0));
                    let k = choose|k: int| 0 <= k < gl.len() && (#[trigger] gl[k]).0 == ng[i].0;
                }
            }
            assert(bucket_paths(a.0, a.1) =~= bucket_paths(pf, gl).remove(p)) by {
                assert forall|q: Seq<char>|
                    bucket_paths(pf, gl).remove(p).contains(q) implies bucket_paths(
                    a.0,
                    a.1,
                ).contains(q) by {
                    if !(exists|pr: Seq<char>| #[trigger]
                        pf.contains_key(pr) && has_path(pf[pr], q)) {
                        assert(has_path(gl, q));
                        assert(has_path(remove_rec(gl, p), q));
                    }
                }
                assert forall|q: Seq<char>|
                    bucket_paths(a.0, a.1).contains(q) implies bucket_paths(pf, gl).remove(
                    p,
                ).contains(q) by {
                    if !(exists|pr: Seq<char>| #[trigger]
                        a.0.contains_key(pr) && has_path(a.0[pr], q)) {
                        assert(has_path(remove_rec(gl, p), q));
                        assert(has_path(gl, q) && q != p);
                    } else {
                        let pr = choose|pr: Seq<char>| #[trigger]
                            a.0.contains_key(pr) && has_path(a.0[pr], q);
                        // a path in a project bucket is owned, so it is not p
                        if q == p {
                            let k = choose|k: int|
                                0 <= k < pf[pr].len() && (#[trigger] pf[pr][k]).0 == q;
                            assert(spec_find_project(m, q) == Some(pr));
                            assert(false);
                        }
                    }
                }
            }
        },
    }
}

pub proof fn lemma_apply_updates(
    m: Map<Seq<char>, Seq<char>>,
    pf: Map<Seq<char>, Seq<Rec>>,
    gl: Seq<Rec>,
    ups: Seq<Rec>,
)
    requires
        consistent(m, pf, gl),
    ensures
        ({
            let a = apply_updates(m, pf, gl, ups);
            consistent(m, a.0, a.1) && bucket_paths(a.0, a.1) == bucket_paths(pf, gl).union(
                rec_path_set(ups),
            )
        }),
    decreases ups.len(),
{
    let a = apply_updates(m, pf, gl, ups);
    if ups.len() == 0 {
        assert(bucket_paths(pf, gl).union(rec_path_set(ups)) =~= bucket_paths(pf, gl)) by {
            assert forall|q: Seq<char>| !rec_path_set(ups).contains(q) by {
                if has_path(ups, q) {
                    let k = choose|k: int| 0 <= k < ups.len() && (#[trigger] ups[k]).0 == q;
                    assert(false);
                }
            }
        }
    } else {
        let dl = ups.drop_last();
        lemma_apply_updates(m, pf, gl, dl);
        let mid = apply_updates(m, pf, gl, dl);
        lemma_apply_update_one(m, mid.0, mid.1, ups.last());
        assert(bucket_paths(a.0, a.1) =~= bucket_paths(pf, gl).union(rec_path_set(ups))) by {
            assert forall|q: Seq<char>|
                #[trigger] rec_path_set(ups).contains(q) <==> rec_path_set(dl).contains(q) || q
                    == ups.last().0 by {
                if has_path(ups, q) {
                    let k = choose|k: int| 0 <= k < ups.len() && (#[trigger] ups[k]).0 == q;
                    if k < ups.len() - 1 {
                        assert(dl[k] == ups[k]);
                        assert(has_path(dl, q));
                    }
                }
                if has_path(dl, q) {
                    let k = choose|k: int| 0 <= k < dl.len() && (#[trigger] dl[k]).0 == q;
                    assert(ups[k] == dl[k]);
                    assert(has_path(ups, q));
                }
                if q == ups.last().0 {
                    assert((ups[ups.len() - 1]).0 == q);
                    assert(has_path(ups, q));
                }
            }
        }
    }
}

pub proof fn lemma_apply_deletes(
    m: Map<Seq<char>, Seq<char>>,
    pf: Map<Seq<char>, Seq<Rec>>,
    gl: Seq<Rec>,
    dels: Seq<Seq<char>>,
)
    requires
        consistent(m, pf, gl),
    ensures
        ({
            let a = apply_deletes(m, pf, gl, dels);
            consistent(m, a.0, a.1) && bucket_paths(a.0, a.1) == bucket_paths(pf, gl).difference(
                dels.to_set(),
            )
        }),
    decreases dels.len(),
{
    let a = apply_deletes(m, pf, gl, dels);
    if dels.len() == 0 {
        assert(bucket_paths(pf, gl).difference(dels.to_set()) =~= bucket_paths(pf, gl)) by {
            assert forall|q: Seq<char>| !dels.to_set().contains(q) by {
                if dels.contains(q) {
                    let k = choose|k: int| 0 <= k < dels.len() && dels[k] == q;
                    assert(false);
                }
            }
        }
    } else {
        let dl = dels.drop_last();
        lemma_apply_deletes(m, pf, gl, dl);
        let mid = apply_deletes(m, pf, gl, dl);
        lemma_apply_delete_one(m, mid.0, mid.1, dels.last());
        assert(bucket_paths(a.0, a.1) =~= bucket_paths(pf, gl).difference(dels.to_set())) by {
            assert forall|q: Seq<char>|
                #[trigger] dels.to_set().contains(q) <==> dl.to_set().contains(q) || q
                    == dels.last() by {
                if dels.contains(q) {
                    let k = choose|k: int| 0 <= k < dels.len() && dels[k] == q;
                    if k < dels.len() - 1 {
                        assert(dl[k] == dels[k]);
                        assert(dl.contains(q));
                    }
                }
                if dl.contains(q) {
                    let k = choose|k: int| 0 <= k < dl.len() && dl[k] == q;
                    assert(dels[k] == dl[k]);
                    assert(dels.contains(q));
                }
                if q == dels.last() {
                    assert(dels[dels.len() - 1] == q);
                    assert(dels.contains(q));
                }
            }
        }
    }
}

/// Partition completeness: starting from a consistent partition, the
/// recomputed partition is consistent and its path set is exactly the
/// prior paths plus the updated paths, minus the deleted paths.
pub proof fn lemma_partition_complete(
    m: Map<Seq<char>, Seq<char>>,
    pf: Map<Seq<char>, Seq<Rec>>,
    gl: Seq<Rec>,
    ups: Seq<Rec>,
    dels: Seq<Seq<char>>,
)
    requires
        consistent(m, pf, gl),
    ensures
        ({
            let fin = partition_after(m, pf, gl, ups, dels);
            consistent(m, fin.0, fin.1) && bucket_paths(fin.0, fin.1) == bucket_paths(
                pf,
                gl,
            ).union(rec_path_set(ups)).difference(dels.to_set())
        }),
{
    lemma_apply_updates(m, pf, gl, ups);
    let mid = apply_updates(m, pf, gl, ups);
    lemma_apply_deletes(m, mid.0, mid.1, dels);
}

/// No path sits in two buckets of a consistent partition: never in two
/// project lists, and never both in a project list and in the globals.
pub proof fn lemma_consistent_disjoint(
    m: Map<Seq<char>, Seq<char>>,
    pf: Map<Seq<char>, Seq<Rec>>,
    gl: Seq<Rec>,
)
    requires
        consistent(m, pf, gl),
    ensures
        forall|proj: Seq<char>, q: Seq<char>|
            pf.contains_key(proj) && #[trigger] has_path(pf[proj], q) ==> !has_path(gl, q),
        forall|p1: Seq<char>, p2: Seq<char>, q: Seq<char>|
            pf.contains_key(p1) && pf.contains_key(p2) && p1 != p2 && #[trigger] has_path(
                pf[p1],
                q,
            ) ==> !(#[trigger] has_path(pf[p2], q)),
{
    assert forall|proj: Seq<char>, q: Seq<char>|
        pf.contains_key(proj) && #[trigger] has_path(pf[proj], q) implies !has_path(gl, q) by {
        let k = choose|k: int| 0 <= k < pf[proj].len() && (#[trigger] pf[proj][k]).0 == q;
        assert(spec_find_project(m, q) == Some(proj));
        if has_path(gl, q) {
            let l = choose|l: int| 0 <= l < gl.len() && (#[trigger] gl[l]).0 == q;
            assert(spec_find_project(m, q) is None);
            assert(false);
        }
    }
    assert forall|p1: Seq<char>, p2: Seq<char>, q: Seq<char>|
        pf.contains_key(p1) && pf.contains_key(p2) && p1 != p2 && #[trigger] has_path(
            pf[p1],
            q,
        ) implies !(#[trigger] has_path(pf[p2], q)) by {
        let k = choose|k: int| 0 <= k < pf[p1].len() && (#[trigger] pf[p1][k]).0 == q;
        assert(spec_find_project(m, q) == Some(p1));
        if has_path(pf[p2], q) {
            let l = choose|l: int| 0 <= l < pf[p2].len() && (#[trigger] pf[p2][l]).0 == q;
            assert(spec_find_project(m, q) == Some(p2));
            assert(false);
        }
    }
}

} // verus!

use vstd::pervasive::VecAdditionalExecFns;

verus! {

/// The position of the first record with the given path, as `first_at`
/// describes it.
fn find_record_pos(v: &Vec<FileData>, p: &String) -> (r: Option<usize>)
    ensures
        r matches Some(i) ==> first_at(file_views(v@), p@) == Some(i as int),
        r is None ==> first_at(file_views(v@), p@) is None,
{
    let mut i: usize = 0;
    while i < v.len()
        invariant
            i <= v.len(),
            forall|k: int| 0 <= k < i as int ==> (#[trigger] file_views(v@)[k]).0 != p@,
        decreases v.len() - i,
    {
        if v[i].file == *p {
            proof {
                assert(file_views(v@)[i as int].0 == p@);
                lemma_first_at_exact(file_views(v@), p@, i as int);
            }
            return Some(i);
        }
        i += 1;
    }
    proof {
        lemma_first_at_none(file_views(v@), p@);
    }
    None
}

/// Overwrites the hash of the first record with the given path, or
/// appends the record.
fn upsert_record(v: &mut Vec<FileData>, fd: FileData)
    ensures
        file_views(final(v)@) == upsert_rec(file_views(old(v)@), fd.file@, fd.hash@),
{
    let ghost pre = file_views(v@);
    match find_record_pos(v, &fd.file) {
        Some(i) => {
            proof {
                lemma_first_at_props(pre, fd.file@);
            }
            v.set(i, fd);
            proof {
                assert(file_views(v@) =~= pre.update(i as int, (fd.file@, fd.hash@)));
            }
        },
        None => {
            v.push(fd);
            proof {
                assert(file_views(v@) =~= pre.push((fd.file@, fd.hash@)));
            }
        },
    }
}

/// Removes the first record with the given path, if any.
fn remove_record(v: &mut Vec<FileData>, p: &String)
    ensures
        file_views(final(v)@) == remove_rec(file_views(old(v)@), p@),
{
    let ghost pre = file_views(v@);
    match find_record_pos(v, p) {
        Some(i) => {
            proof {
                lemma_first_at_props(pre, p@);
            }
            v.remove(i);
            proof {
                assert(file_views(v@) =~= pre.remove(i as int));
            }
        },
        None => {},
    }
}

/// The per-project file lists: a mapping from project identifier to the
/// ordered records of that project's files.
pub struct ProjectFiles {
    entries: Vec<(String, Vec<FileData>)>,
}

/// The models of the per-project entries.
pub open spec fn pf_entry_views(s: Seq<(String, Vec<FileData>)>) -> Seq<(Seq<char>, Seq<Rec>)> {
    s.map_values(|e: (String, Vec<FileData>)| (e.0@, file_views(e.1@)))
}

impl View for ProjectFiles {
    type V = Map<Seq<char>, Seq<Rec>>;

    closed spec fn view(&self) -> Map<Seq<char>, Seq<Rec>> {
        assoc_map(pf_entry_views(self.entries@))
    }
}

impl ProjectFiles {
    /// One entry per project.
    pub closed spec fn wf(self) -> bool {
        uniq_keys(pf_entry_views(self.entries@))
    }

    /// An empty partition: no project holds any file.
    pub fn new() -> (r: Self)
        ensures
            r.wf(),
            r@ == Map::<Seq<char>, Seq<Rec>>::empty(),
    {
        let r = ProjectFiles { entries: Vec::new() };
        proof {
            assert(pf_entry_views(r.entries@) =~= Seq::<(Seq<char>, Seq<Rec>)>::empty());
        }
        r
    }

    /// Sets a project's file list, overwriting any previous list.
    pub fn insert(&mut self, project: String, files: Vec<FileData>)
        requires
            old(self).wf(),
        ensures
            final(self).wf(),
            final(self)@ == old(self)@.insert(project@, file_views(files@)),
    {
        let ghost pre = pf_entry_views(self.entries@);
        let mut i: usize = 0;
        while i < self.entries.len()
            invariant
                i <= self.entries.len(),
                pre == pf_entry_views(self.entries@),
                old(self)@ == assoc_map(pre),
                uniq_keys(pre),
                forall|k: int| 0 <= k < i as int ==> (#[trigger] pre[k]).0 != project@,
            decreases self.entries.len() - i,
        {
            if self.entries[i].0 == project {
                proof {
                    assert(pre[i as int].0 == project@);
                    lemma_assoc_update(pre, i as int, file_views(files@));
                }
                self.entries.set(i, (project, files));
                proof {
                    assert(pf_entry_views(self.entries@) =~= pre.update(
                        i as int,
                        (pre[i as int].0, file_views(self.entries@[i as int].1@)),
                    ));
                }
                return;
            }
            i += 1;
        }
        proof {
            lemma_assoc_push(pre, project@, file_views(files@));
        }
        self.entries.push((project, files));
        proof {
            let post = pf_entry_views(self.entries@);
            assert(post =~= pre.push((post.last().0, post.last().1)));
        }
    }

    /// A copy of a project's records, if the project has an entry.
    pub fn get_project_records(&self, project: &String) -> (r: Option<Vec<FileData>>)
        requires
            self.wf(),
        ensures
            r matches Some(v) ==> self@.contains_key(project@) && file_views(v@)
                == self@[project@],
            r is None ==> !self@.contains_key(project@),
    {
        let ghost views = pf_entry_views(self.entries@);
        let mut i: usize = 0;
        while i < self.entries.len()
            invariant
                i <= self.entries.len(),
                views == pf_entry_views(self.entries@),
                self@ == assoc_map(views),
                self.wf(),
                forall|k: int| 0 <= k < i as int ==> (#[trigger] views[k]).0 != project@,
            decreases self.entries.len() - i,
        {
            if self.entries[i].0 == *project {
                let v = clone_records(&self.entries[i].1);
                proof {
                    assert(views[i as int].0 == project@);
                    assert(views[i as int].1 == file_views(v@));
                    lemma_assoc_values(views);
                }
                return Some(v);
            }
            i += 1;
        }
        proof {
            lemma_assoc_membership(views);
            if self@.contains_key(project@) {
                let k = choose|k: int| 0 <= k < views.len() && (#[trigger] views[k]).0 == project@;
                assert(false);
            }
        }
        None
    }

    /// Inserts or overwrites one record in the owning project's list,
    /// creating the list when the project had none.
    fn upsert_in_project(&mut self, project: String, fd: FileData)
        requires
            old(self).wf(),
        ensures
            final(self).wf(),
            final(self)@ == old(self)@.insert(
                project@,
                upsert_rec(
                    if old(self)@.contains_key(project@) {
                        old(self)@[project@]
                    } else {
                        Seq::empty()
                    },
                    fd.file@,
                    fd.hash@,
                ),
            ),
    {
        let ghost pre = pf_entry_views(self.entries@);
        let mut i: usize = 0;
        while i < self.entries.len()
            invariant
                i <= self.entries.len(),
                pre == pf_entry_views(self.entries@),
                old(self)@ == assoc_map(pre),
                old(self).wf(),
                uniq_keys(pre),
                forall|k: int| 0 <= k < i as int ==> (#[trigger] pre[k]).0 != project@,
            decreases self.entries.len() - i,
        {
            if self.entries[i].0 == project {
                let mut list = clone_records(&self.entries[i].1);
                proof {
                    assert(pre[i as int].0 == project@);
                    assert(pre[i as int].1 == file_views(list@));
                    lemma_assoc_values(pre);
                    assert(old(self)@[project@] == file_views(list@));
                }
                upsert_record(&mut list, fd);
                proof {
                    lemma_assoc_update(pre, i as int, file_views(list@));
                }
                self.entries.set(i, (project, list));
                proof {
                    assert(pf_entry_views(self.entries@) =~= pre.update(
                        i as int,
                        (pre[i as int].0, file_views(self.entries@[i as int].1@)),
                    ));
                }
                return;
            }
            i += 1;
        }
        proof {
            lemma_assoc_membership(pre);
            if old(self)@.contains_key(project@) {
                let k = choose|k: int| 0 <= k < pre.len() && (#[trigger] pre[k]).0 == project@;
                assert(false);
            }
        }
        let mut list: Vec<FileData> = Vec::new();
        proof {
            assert(file_views(list@) =~= Seq::<Rec>::empty());
        }
        upsert_record(&mut list, fd);
        proof {
            lemma_assoc_push(pre, project@, file_views(list@));
        }
        self.entries.push((project, list));
        proof {
            let post = pf_entry_views(self.entries@);
            assert(post =~= pre.push((post.last().0, post.last().1)));
        }
    }

    /// Removes one path from a project's list, when that project has an
    /// entry and the path is in it.
    fn remove_in_project(&mut self, project: &String, path: &String)
        requires
            old(self).wf(),
        ensures
            final(self).wf(),
            final(self)@ == if old(self)@.contains_key(project@) {
                old(self)@.insert(project@, remove_rec(old(self)@[project@], path@))
            } else {
                old(self)@
            },
    {
        let ghost pre = pf_entry_views(self.entries@);
        let mut i: usize = 0;
        while i < self.entries.len()
            invariant
                i <= self.entries.len(),
                pre == pf_entry_views(self.entries@),
                old(self)@ == assoc_map(pre),
                old(self).wf(),
                uniq_keys(pre),
                forall|k: int| 0 <= k < i as int ==> (#[trigger] pre[k]).0 != project@,
            decreases self.entries.len() - i,
        {
            if self.entries[i].0 == *project {
                let mut list = clone_records(&self.entries[i].1);
                proof {
                    assert(pre[i as int].0 == project@);
                    assert(pre[i as int].1 == file_views(list@));
                    lemma_assoc_values(pre);
                    assert(old(self)@[project@] == file_views(list@));
                }
                remove_record(&mut list, path);
                proof {
                    lemma_assoc_update(pre, i as int, file_views(list@));
                }
                let name = self.entries[i].0.clone();
                self.entries.set(i, (name, list));
                proof {
                    assert(pf_entry_views(self.entries@) =~= pre.update(
                        i as int,
                        (pre[i as int].0, file_views(self.entries@[i as int].1@)),
                    ));
                }
                return;
            }
            i += 1;
        }
        proof {
            lemma_assoc_membership(pre);
            if old(self)@.contains_key(project@) {
                let k = choose|k: int| 0 <= k < pre.len() && (#[trigger] pre[k]).0 == project@;
                assert(false);
            }
        }
    }
}

/// A deep copy of the per-project file lists.
fn duplicate_project_files(pf: &ProjectFiles) -> (r: ProjectFiles)
    requires
        pf.wf(),
    ensures
        r.wf(),
        r@ == pf@,
{
    let mut entries: Vec<(String, Vec<FileData>)> = Vec::new();
    let mut i: usize = 0;
    while i < pf.entries.len()
        invariant
            i <= pf.entries.len(),
            pf_entry_views(entries@) == pf_entry_views(pf.entries@).take(i as int),
        decreases pf.entries.len() - i,
    {
        let name = pf.entries[i].0.clone();
        let list = clone_records(&pf.entries[i].1);
        entries.push((name, list));
        proof {
            let full = pf_entry_views(pf.entries@);
            assert(full.take(i + 1 as int).drop_last() =~= full.take(i as int));
            assert(full.take(i + 1 as int).last() == full[i as int]);
            assert(pf_entry_views(entries@) =~= full.take(i as int).push(full[i as int]));
        }
        i += 1;
    }
    proof {
        assert(pf_entry_views(pf.entries@).take(pf.entries@.len() as int) =~= pf_entry_views(
            pf.entries@,
        ));
    }
    let r = ProjectFiles { entries };
    r
}

/// The full partition of the workspace at one point in time: the
/// per-project file lists and the files no project owns.
pub struct FileMap {
    pub project_file_map: ProjectFiles,
    pub non_project_files: Vec<FileData>,
}

/// Recomputes the partition from a prior partition and a delta, as
/// `partition_after` describes: every updated record is classified by
/// the mapping and inserted into its bucket, then every deleted path is
/// removed from its owning project's list and from the globals.
pub fn update_file_map(
    mappings: &ProjectRootMappings,
    project_files: &ProjectFiles,
    global_files: &Vec<FileData>,
    updated_files: &Vec<FileData>,
    deleted_files: &Vec<String>,
) -> (r: FileMap)
    requires
        mappings.wf(),
        project_files.wf(),
    ensures
        r.project_file_map.wf(),
        r.project_file_map@ == partition_after(
            mappings@,
            project_files@,
            file_views(global_files@),
            file_views(updated_files@),
            path_seq(deleted_files@),
        ).0,
        file_views(r.non_project_files@) == partition_after(
            mappings@,
            project_files@,
            file_views(global_files@),
            file_views(updated_files@),
            path_seq(deleted_files@),
        ).1,
{
    let ghost m = mappings@;
    let ghost pf0 = project_files@;
    let ghost gl0 = file_views(global_files@);
    let ghost ups = file_views(updated_files@);
    let ghost dels = path_seq(deleted_files@);
    let mut pf = duplicate_project_files(project_files);
    let mut gl = clone_records(global_files);
    let mut i: usize = 0;
    proof {
        assert(ups.take(0) =~= Seq::<Rec>::empty());
    }
    while i < updated_files.len()
        invariant
            i <= updated_files.len(),
            mappings.wf(),
            m == mappings@,
            ups == file_views(updated_files@),
            pf.wf(),
            pf@ == apply_updates(m, pf0, gl0, ups.take(i as int)).0,
            file_views(gl@) == apply_updates(m, pf0, gl0, ups.take(i as int)).1,
        decreases updated_files.len() - i,
    {
        let fd = updated_files[i].clone();
        proof {
            assert(ups.take(i + 1 as int).drop_last() =~= ups.take(i as int));
            assert(ups.take(i + 1 as int).last() == ups[i as int]);
            assert(ups[i as int] == updated_files@[i as int]@);
            assert(fd@ == ups[i as int]);
        }
        match find_project_for_path(&fd.file, mappings) {
            Some(proj) => {
                pf.upsert_in_project(proj, fd);
            },
            None => {
                upsert_record(&mut gl, fd);
            },
        }
        i += 1;
    }
    proof {
        assert(ups.take(updated_files@.len() as int) =~= ups);
    }
    let ghost mpf = pf@;
    let ghost mgl = file_views(gl@);
    let mut j: usize = 0;
    proof {
        assert(dels.take(0) =~= Seq::<Seq<char>>::empty());
    }
    while j < deleted_files.len()
        invariant
            j <= deleted_files.len(),
            mappings.wf(),
            m == mappings@,
            dels == path_seq(deleted_files@),
            pf.wf(),
            pf@ == apply_deletes(m, mpf, mgl, dels.take(j as int)).0,
            file_views(gl@) == apply_deletes(m, mpf, mgl, dels.take(j as int)).1,
        decreases deleted_files.len() - j,
    {
        let p = &deleted_files[j];
        proof {
            assert(dels.take(j + 1 as int).drop_last() =~= dels.take(j as int));
            assert(dels.take(j + 1 as int).last() == dels[j as int]);
            assert(dels[j as int] == deleted_files@[j as int]@);
        }
        match find_project_for_path(p, mappings) {
            Some(proj) => {
                pf.remove_in_project(&proj, p);
            },
            None => {},
        }
        remove_record(&mut gl, p);
        j += 1;
    }
    proof {
        assert(dels.take(deleted_files@.len() as int) =~= dels);
    }
    FileMap { project_file_map: pf, non_project_files: gl }
}

} // verus!

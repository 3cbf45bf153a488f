//! The workspace file index.
//!
//! `FilesWorker` owns the canonical path-to-hash state.  It is populated
//! once from the traversal collaborator's output, read as a sorted copy,
//! and mutated by caller-reported incremental updates.  The surrounding
//! process serialises access (one lock around the worker) and performs
//! the blocking wait that `must_wait` calls for; the worker itself is the
//! synchronous core those operations protect.

use vstd::prelude::*;
use crate::records::{
    FileData, Rec, file_views, sorted_by_path, uniq_paths, index_map, keep_outside, path_seq,
    clone_records, lemma_index_map_membership, lemma_index_map_concat, lemma_index_map_filter,
    lemma_perm_index_map, lemma_sorted_uniq_determined,
};
use crate::hasher::{
    entry_views, entry_paths, uniq_entry_paths, hashed_views, par_hash_entries,
};
use crate::sorting::par_sort_files;

verus! {

/// The index map after one incremental update: the deleted paths are
/// removed, then every successfully hashed updated path is inserted or
/// overwritten.
pub open spec fn updated_index(
    pre: Map<Seq<char>, Seq<char>>,
    updated: Seq<(Seq<char>, Seq<u8>)>,
    deleted: Seq<Seq<char>>,
) -> Map<Seq<char>, Seq<char>> {
    pre.remove_keys(deleted.to_set()).union_prefer_right(index_map(hashed_views(updated)))
}

/// One incremental update step: `pre` and `post` are the snapshot models
/// before and after, `updated` the successfully read entries, `deleted`
/// the reported deletions, and `result` the returned records.  The
/// result carries exactly the freshly hashed updated entries, and the
/// new snapshot is the sorted, duplicate-free sequence of the updated
/// index map.
pub open spec fn update_step(
    pre: Seq<Rec>,
    post: Seq<Rec>,
    updated: Seq<(Seq<char>, Seq<u8>)>,
    deleted: Seq<Seq<char>>,
    result: Seq<Rec>,
) -> bool {
    &&& result == hashed_views(updated)
    &&& sorted_by_path(post)
    &&& uniq_paths(post)
    &&& index_map(post) == updated_index(index_map(pre), updated, deleted)
}

/// The canonical file store: flag for whether the workspace root existed,
/// flag for whether the one-time population has been applied, and the
/// sorted records.
pub struct FilesWorker {
    root_found: bool,
    populated: bool,
    files: Vec<FileData>,
}

impl FilesWorker {
    /// Whether the workspace root existed when the index was created.
    pub closed spec fn has_root(self) -> bool {
        self.root_found
    }

    /// Whether the one-time initial population has been applied.
    pub closed spec fn is_populated(self) -> bool {
        self.populated
    }

    /// The model of the current snapshot.
    pub closed spec fn records(self) -> Seq<Rec> {
        file_views(self.files@)
    }

    /// The path-to-hash map the snapshot represents.
    pub open spec fn index(self) -> Map<Seq<char>, Seq<char>> {
        index_map(self.records())
    }

    /// Snapshot invariant: sorted by path, one record per path, and
    /// empty until the population has run (a missing root never
    /// populates).
    pub open spec fn wf(self) -> bool {
        &&& sorted_by_path(self.records())
        &&& uniq_paths(self.records())
        &&& (!self.has_root() ==> !self.is_populated())
        &&& (!self.is_populated() ==> self.records() == Seq::<Rec>::empty())
    }

    /// Readers may proceed: either the root was missing (the index is
    /// permanently empty) or the population has been applied.
    pub open spec fn is_ready(self) -> bool {
        !self.has_root() || self.is_populated()
    }

    /// Creates the store.  With a missing root it is permanently empty;
    /// otherwise it awaits the single population pass.
    pub fn new(root_found: bool) -> (r: Self)
        ensures
            r.wf(),
            r.has_root() == root_found,
            !r.is_populated(),
            r.records() == Seq::<Rec>::empty(),
    {
        let r = FilesWorker { root_found, populated: false, files: Vec::new() };
        proof {
            assert(file_views(r.files@) =~= Seq::<Rec>::empty());
        }
        r
    }

    /// Whether a reader has to block: only before the first population
    /// of an index whose root exists.  Once the population signal has
    /// been delivered this is false forever, so no later read can block
    /// again.
    pub fn must_wait(&self) -> (r: bool)
        ensures
            r == (self.has_root() && !self.is_populated()),
    {
        self.root_found && !self.populated
    }

    /// Applies the one-time initial population: hashes every traversed
    /// entry, sorts the records by path, and marks the index populated.
    pub fn populate(&mut self, entries: &Vec<(String, Vec<u8>)>)
        requires
            old(self).wf(),
            old(self).has_root(),
            !old(self).is_populated(),
            uniq_entry_paths(entry_views(entries@)),
        ensures
            final(self).wf(),
            final(self).has_root(),
            final(self).is_populated(),
            final(self).records().to_multiset() == hashed_views(entry_views(entries@)).to_multiset(),
            final(self).index() == index_map(hashed_views(entry_views(entries@))),
    {
        let mut new_files = par_hash_entries(entries);
        par_sort_files(&mut new_files);
        self.files = new_files;
        self.populated = true;
        proof {
            let u = entry_views(entries@);
            let hv = hashed_views(u);
            assert forall|i: int, j: int|
                0 <= i < hv.len() && 0 <= j < hv.len() && i != j implies (#[trigger] hv[i]).0 != (
            #[trigger] hv[j]).0 by {
                assert(hv[i].0 == u[i].0);
                assert(hv[j].0 == u[j].0);
            }
            lemma_perm_index_map(hv, file_views(self.files@));
        }
    }

    /// Returns a copy of the current snapshot.  With a missing root the
    /// result is empty; otherwise it is the full sorted record list.
    pub fn get_files(&self) -> (r: Vec<FileData>)
        requires
            self.wf(),
            self.is_ready(),
        ensures
            file_views(r@) == self.records(),
    {
        if self.root_found {
            clone_records(&self.files)
        } else {
            let r: Vec<FileData> = Vec::new();
            proof {
                assert(file_views(r@) =~= Seq::<Rec>::empty());
            }
            r
        }
    }

    /// Applies one caller-reported delta: drops the deleted paths,
    /// inserts or overwrites a freshly hashed record for every updated
    /// entry, re-sorts, and returns exactly the records of the updated
    /// entries.  With a missing root nothing changes and the result is
    /// empty.
    pub fn update_files(&mut self, updated: &Vec<(String, Vec<u8>)>, deleted: &Vec<String>) -> (r:
        Vec<FileData>)
        requires
            old(self).wf(),
            old(self).is_ready(),
            uniq_entry_paths(entry_views(updated@)),
        ensures
            final(self).wf(),
            final(self).is_ready(),
            final(self).has_root() == old(self).has_root(),
            final(self).is_populated() == old(self).is_populated(),
            old(self).has_root() ==> update_step(
                old(self).records(),
                final(self).records(),
                entry_views(updated@),
                path_seq(deleted@),
                file_views(r@),
            ),
            !old(self).has_root() ==> *final(self) == *old(self) && file_views(r@)
                == Seq::<Rec>::empty(),
    {
        if !self.root_found {
            let r: Vec<FileData> = Vec::new();
            proof {
                assert(file_views(r@) =~= Seq::<Rec>::empty());
            }
            return r;
        }
        let ghost pre = file_views(self.files@);
        let ghost u = entry_views(updated@);
        let ghost excl = path_seq(deleted@).to_set().union(entry_paths(u).to_set());
        let new_records = par_hash_entries(updated);
        let mut kept: Vec<FileData> = Vec::new();
        let mut i: usize = 0;
        while i < self.files.len()
            invariant
                i <= self.files.len(),
                pre == file_views(self.files@),
                u == entry_views(updated@),
                excl == path_seq(deleted@).to_set().union(entry_paths(u).to_set()),
                file_views(kept@) == pre.take(i as int).filter(keep_outside(excl)),
            decreases self.files.len() - i,
        {
            let in_deleted = contains_path(deleted, &self.files[i].file);
            let in_updated = contains_entry_path(updated, &self.files[i].file);
            proof {
                reveal(Seq::filter);
                assert(pre.take(i + 1 as int).drop_last() =~= pre.take(i as int));
                assert(pre.take(i + 1 as int).last() == pre[i as int]);
                assert(pre[i as int] == self.files@[i as int]@);
            }
            if !in_deleted && !in_updated {
                let fd = self.files[i].clone();
                kept.push(fd);
                proof {
                    assert(!excl.contains(pre[i as int].0));
                    assert(file_views(kept@) =~= pre.take(i as int).filter(
                        keep_outside(excl),
                    ).push(pre[i as int]));
                }
            } else {
                proof {
                    assert(excl.contains(pre[i as int].0));
                }
            }
            i += 1;
        }
        proof {
            assert(pre.take(self.files@.len() as int) =~= pre);
        }
        let mut merged = kept;
        let mut tail = clone_records(&new_records);
        merged.append(&mut tail);
        par_sort_files(&mut merged);
        self.files = merged;
        proof {
            let hv = hashed_views(u);
            let fk = pre.filter(keep_outside(excl));
            let post = file_views(self.files@);
            assert(file_views(kept@ + new_records@) =~= fk + hv);
            assert forall|a: int, b: int|
                0 <= a < hv.len() && 0 <= b < hv.len() && a != b implies (#[trigger] hv[a]).0 != (
            #[trigger] hv[b]).0 by {
                assert(hv[a].0 == u[a].0);
                assert(hv[b].0 == u[b].0);
            }
            lemma_index_map_filter(pre, excl);
            assert(uniq_paths(fk + hv)) by {
                assert forall|a: int, b: int|
                    0 <= a < (fk + hv).len() && 0 <= b < (fk + hv).len() && a != b implies (
                #[trigger] (fk + hv)[a]).0 != (#[trigger] (fk + hv)[b]).0 by {
                    if a < fk.len() && b < fk.len() {
                        assert((fk + hv)[a] == fk[a]);
                        assert((fk + hv)[b] == fk[b]);
                    } else if a >= fk.len() && b >= fk.len() {
                        assert((fk + hv)[a] == hv[a - fk.len()]);
                        assert((fk + hv)[b] == hv[b - fk.len()]);
                    } else {
                        let ka: int = if a < fk.len() {
                            a
                        } else {
                            b
                        };
                        let kb: int = if a < fk.len() {
                            b
                        } else {
                            a
                        };
                        assert((fk + hv)[ka] == fk[ka]);
                        assert((fk + hv)[kb] == hv[kb - fk.len()]);
                        // a kept record's path lies outside `excl`, while every
                        // hashed record's path is an updated path inside it
                        pre.lemma_filter_pred(keep_outside(excl), ka);
                        let w = kb - fk.len();
                        assert(hv[w].0 == u[w].0);
                        assert(entry_paths(u)[w] == u[w].0);
                        assert(entry_paths(u).contains(hv[w].0));
                        assert(excl.contains(hv[w].0));
                    }
                }
            }
            lemma_index_map_concat(fk, hv);
            lemma_perm_index_map(fk + hv, post);
            lemma_index_map_membership(hv);
            assert(index_map(post) =~= updated_index(index_map(pre), u, path_seq(deleted@))) by {
                let lhs = index_map(pre).remove_keys(excl).union_prefer_right(index_map(hv));
                let rhs = index_map(pre).remove_keys(path_seq(deleted@).to_set()).union_prefer_right(
                    index_map(hv),
                );
                assert forall|k: Seq<char>| #[trigger] lhs.contains_key(k) <==> rhs.contains_key(k) by {
                    if !index_map(hv).contains_key(k) && entry_paths(u).contains(k) {
                        let w = choose|w: int| 0 <= w < entry_paths(u).len() && entry_paths(u)[w] == k;
                        assert(hv[w].0 == u[w].0);
                        assert(false);
                    }
                }
                assert forall|k: Seq<char>| #[trigger]
                    lhs.contains_key(k) implies lhs[k] == rhs[k] by {
                    if !index_map(hv).contains_key(k) && entry_paths(u).contains(k) {
                        let w = choose|w: int| 0 <= w < entry_paths(u).len() && entry_paths(u)[w] == k;
                        assert(hv[w].0 == u[w].0);
                        assert(false);
                    }
                }
            }
        }
        new_records
    }
}

/// Whether `v` holds a string equal to `p`.
fn contains_path(v: &Vec<String>, p: &String) -> (r: bool)
    ensures
        r == path_seq(v@).contains(p@),
{
    let mut i: usize = 0;
    while i < v.len()
        invariant
            i <= v.len(),
            forall|k: int| 0 <= k < i as int ==> (#[trigger] path_seq(v@)[k]) != p@,
        decreases v.len() - i,
    {
        if v[i] == *p {
            proof {
                assert(path_seq(v@)[i as int] == p@);
            }
            return true;
        }
        i += 1;
    }
    proof {
        if path_seq(v@).contains(p@) {
            let k = choose|k: int| 0 <= k < path_seq(v@).len() && path_seq(v@)[k] == p@;
            assert(false);
        }
    }
    false
}

/// Whether some entry of `v` names the path `p`.
fn contains_entry_path(v: &Vec<(String, Vec<u8>)>, p: &String) -> (r: bool)
    ensures
        r == entry_paths(entry_views(v@)).contains(p@),
{
    let mut i: usize = 0;
    while i < v.len()
        invariant
            i <= v.len(),
            forall|k: int| 0 <= k < i as int ==> (#[trigger] entry_paths(entry_views(v@))[k]) != p@,
        decreases v.len() - i,
    {
        if v[i].0 == *p {
            proof {
                assert(entry_paths(entry_views(v@))[i as int] == p@);
            }
            return true;
        }
        i += 1;
    }
    proof {
        if entry_paths(entry_views(v@)).contains(p@) {
            let k = choose|k: int|
                0 <= k < entry_paths(entry_views(v@)).len() && entry_paths(entry_views(v@))[k]
                    == p@;
            assert(false);
        }
    }
    false
}

/// Deleting a path that the index does not hold, twice in a row, returns
/// an empty result both times and leaves the snapshot unchanged.
pub proof fn lemma_delete_absent_idempotent(
    pre: Seq<Rec>,
    mid: Seq<Rec>,
    post: Seq<Rec>,
    p: Seq<char>,
    r1: Seq<Rec>,
    r2: Seq<Rec>,
)
    requires
        sorted_by_path(pre),
        uniq_paths(pre),
        !index_map(pre).contains_key(p),
        update_step(pre, mid, Seq::empty(), seq![p], r1),
        update_step(mid, post, Seq::empty(), seq![p], r2),
    ensures
        r1 == Seq::<Rec>::empty(),
        r2 == Seq::<Rec>::empty(),
        mid == pre,
        post == pre,
{
    let e: Seq<(Seq<char>, Seq<u8>)> = Seq::empty();
    assert(hashed_views(e) =~= Seq::<Rec>::empty());
    assert(r1 == Seq::<Rec>::empty());
    assert(r2 == Seq::<Rec>::empty());
    assert(index_map(hashed_views(e)) =~= Map::<Seq<char>, Seq<char>>::empty());
    assert(index_map(mid) =~= index_map(pre)) by {
        assert(forall|k: Seq<char>| seq![p].to_set().contains(k) ==> k == p);
    }
    lemma_sorted_uniq_determined(mid, pre);
    assert(index_map(post) =~= index_map(pre)) by {
        assert(forall|k: Seq<char>| seq![p].to_set().contains(k) ==> k == p);
    }
    lemma_sorted_uniq_determined(post, pre);
}

} // verus!

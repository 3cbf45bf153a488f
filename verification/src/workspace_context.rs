//! The workspace context: the public face of the index.
//!
//! A host process creates one context per workspace, lets a background
//! thread feed the one-time population through `populate`, and then
//! reads snapshots, runs glob queries, folds matched hashes into an
//! aggregate digest, reports incremental changes, and recomputes the
//! per-project partition.  The context itself is synchronous; the
//! surrounding process supplies the lock, the waiting and all I/O.

use vstd::prelude::*;
use crate::files_worker::{FilesWorker, update_step};
use crate::records::{FileData, Rec, file_views, index_map, path_seq, sorted_by_path, uniq_paths};
use crate::hasher::{entry_views, uniq_entry_paths, hashed_views, concat_hash_bytes, hash_records,
    digest_of};
use crate::glob::{glob_files, GlobError, query_ok, selected, opt_patterns_view};
use crate::project_files::{ProjectFiles, FileMap, update_file_map, partition_after};
use crate::project_graph::ProjectRootMappings;

verus! {

/// The recomputed partition bundled with a fresh copy of the full
/// snapshot, for callers that need both in one round trip.
pub struct UpdatedWorkspaceFiles {
    pub file_map: FileMap,
    pub all_workspace_files: Vec<FileData>,
}

/// One workspace's context: the root it was created for and the file
/// index that serves all queries.
pub struct WorkspaceContext {
    pub workspace_root: String,
    files_worker: FilesWorker,
}

impl WorkspaceContext {
    /// Whether the workspace root existed at construction.
    pub closed spec fn has_root(self) -> bool {
        self.files_worker.has_root()
    }

    /// Whether the one-time population has been applied.
    pub closed spec fn is_populated(self) -> bool {
        self.files_worker.is_populated()
    }

    /// The model of the current snapshot.
    pub closed spec fn records(self) -> Seq<Rec> {
        self.files_worker.records()
    }

    /// The path-to-hash map of the current snapshot.
    pub open spec fn index(self) -> Map<Seq<char>, Seq<char>> {
        index_map(self.records())
    }

    pub closed spec fn wf(self) -> bool {
        self.files_worker.wf()
    }

    /// The workspace root this context was created for.
    pub closed spec fn root_name(self) -> Seq<char> {
        self.workspace_root@
    }

    /// Readers may proceed: the root was missing, or the population has
    /// been applied.
    pub open spec fn is_ready(self) -> bool {
        !self.has_root() || self.is_populated()
    }

    /// Creates the context.  `root_found` reports whether the workspace
    /// root exists; when it does not, the index is permanently empty and
    /// no population is awaited.
    pub fn new(workspace_root: String, root_found: bool) -> (r: Self)
        ensures
            r.wf(),
            r.has_root() == root_found,
            !r.is_populated(),
            r.records() == Seq::<Rec>::empty(),
            r.root_name() == workspace_root@,
    {
        WorkspaceContext { workspace_root, files_worker: FilesWorker::new(root_found) }
    }

    /// Whether a reader has to block: only before the first population
    /// of an index whose root exists.
    pub fn must_wait(&self) -> (r: bool)
        ensures
            r == !self.is_ready(),
    {
        self.files_worker.must_wait()
    }

    /// Applies the one-time initial population.
    pub fn populate(&mut self, entries: &Vec<(String, Vec<u8>)>)
        requires
            old(self).wf(),
            old(self).has_root(),
            !old(self).is_populated(),
            uniq_entry_paths(entry_views(entries@)),
        ensures
            final(self).wf(),
            final(self).has_root(),
            final(self).is_populated(),
            final(self).index() == index_map(hashed_views(entry_views(entries@))),
            final(self).root_name() == old(self).root_name(),
    {
        self.files_worker.populate(entries);
    }

    /// A copy of the current snapshot: one record per path, sorted by
    /// path for deterministic iteration.
    pub fn all_file_data(&self) -> (r: Vec<FileData>)
        requires
            self.wf(),
            self.is_ready(),
        ensures
            file_views(r@) == self.records(),
            sorted_by_path(file_views(r@)),
            uniq_paths(file_views(r@)),
    {
        self.files_worker.get_files()
    }

    /// The paths of the snapshot records that the glob query selects,
    /// in snapshot order.  Fails exactly when a pattern list is
    /// malformed.
    pub fn glob(&self, globs: Vec<String>, exclude: Option<Vec<String>>) -> (r: Result<
        Vec<String>,
        GlobError,
    >)
        requires
            self.wf(),
            self.is_ready(),
        ensures
            (r is Ok) <==> query_ok(path_seq(globs@), opt_patterns_view(exclude)),
            r matches Ok(v) ==> path_seq(v@) == selected(
                self.records(),
                path_seq(globs@),
                opt_patterns_view(exclude),
            ).map_values(|rec: Rec| rec.0),
    {
        let files = self.files_worker.get_files();
        let matched = match glob_files(&files, &globs, &exclude) {
            Ok(m) => m,
            Err(e) => {
                return Err(e);
            },
        };
        let ghost sel = selected(self.records(), path_seq(globs@), opt_patterns_view(exclude));
        let mut out: Vec<String> = Vec::new();
        let mut i: usize = 0;
        proof {
            assert(path_seq(out@) =~= sel.map_values(|rec: Rec| rec.0).take(0));
        }
        while i < matched.len()
            invariant
                i <= matched.len(),
                sel == file_views(matched@),
                path_seq(out@) == sel.map_values(|rec: Rec| rec.0).take(i as int),
            decreases matched.len() - i,
        {
            let p = matched[i].file.clone();
            out.push(p);
            proof {
                let mapped = sel.map_values(|rec: Rec| rec.0);
                assert(mapped.take(i + 1 as int).drop_last() =~= mapped.take(i as int));
                assert(mapped.take(i + 1 as int).last() == mapped[i as int]);
                assert(mapped[i as int] == file_views(matched@)[i as int].0);
                assert(path_seq(out@) =~= mapped.take(i as int).push(mapped[i as int]));
            }
            i += 1;
        }
        proof {
            assert(sel.map_values(|rec: Rec| rec.0).take(matched@.len() as int) =~= sel.map_values(
                |rec: Rec| rec.0,
            ));
        }
        Ok(out)
    }

    /// Folds the hashes of the records the glob query selects,
    /// concatenated in snapshot order, into one aggregate digest.
    /// Fails exactly when a pattern list is malformed.
    pub fn hash_files_matching_glob(&self, globs: Vec<String>, exclude: Option<Vec<String>>) -> (r:
        Result<String, GlobError>)
        requires
            self.wf(),
            self.is_ready(),
        ensures
            (r is Ok) <==> query_ok(path_seq(globs@), opt_patterns_view(exclude)),
            r matches Ok(d) ==> d@ == digest_of(
                concat_hash_bytes(
                    selected(self.records(), path_seq(globs@), opt_patterns_view(exclude)),
                ),
            ),
    {
        let files = self.files_worker.get_files();
        let matched = match glob_files(&files, &globs, &exclude) {
            Ok(m) => m,
            Err(e) => {
                return Err(e);
            },
        };
        Ok(hash_records(&matched))
    }

    /// Applies one caller-reported delta to the index, as
    /// `update_step` describes, and returns the records of the
    /// successfully read updated entries.  With a missing root nothing
    /// changes and the result is empty.
    pub fn incremental_update(&mut self, updated: &Vec<(String, Vec<u8>)>, deleted: &Vec<String>)
        -> (r: Vec<FileData>)
        requires
            old(self).wf(),
            old(self).is_ready(),
            uniq_entry_paths(entry_views(updated@)),
        ensures
            final(self).wf(),
            final(self).is_ready(),
            final(self).has_root() == old(self).has_root(),
            final(self).root_name() == old(self).root_name(),
            old(self).has_root() ==> update_step(
                old(self).records(),
                final(self).records(),
                entry_views(updated@),
                path_seq(deleted@),
                file_views(r@),
            ),
            !old(self).has_root() ==> final(self).records() == old(self).records() && file_views(
                r@,
            ) == Seq::<Rec>::empty(),
    {
        self.files_worker.update_files(updated, deleted)
    }

    /// Recomputes the per-project partition from a prior partition and
    /// a delta, as `partition_after` describes, and bundles it with a
    /// fresh copy of the full snapshot.
    pub fn update_project_files(
        &self,
        project_root_mappings: &ProjectRootMappings,
        project_files: &ProjectFiles,
        global_files: &Vec<FileData>,
        updated_files: &Vec<FileData>,
        deleted_files: &Vec<String>,
    ) -> (r: UpdatedWorkspaceFiles)
        requires
            self.wf(),
            self.is_ready(),
            project_root_mappings.wf(),
            project_files.wf(),
        ensures
            r.file_map.project_file_map.wf(),
            r.file_map.project_file_map@ == partition_after(
                project_root_mappings@,
                project_files@,
                file_views(global_files@),
                file_views(updated_files@),
                path_seq(deleted_files@),
            ).0,
            file_views(r.file_map.non_project_files@) == partition_after(
                project_root_mappings@,
                project_files@,
                file_views(global_files@),
                file_views(updated_files@),
                path_seq(deleted_files@),
            ).1,
            file_views(r.all_workspace_files@) == self.records(),
            sorted_by_path(file_views(r.all_workspace_files@)),
            uniq_paths(file_views(r.all_workspace_files@)),
    {
        let file_map = update_file_map(
            project_root_mappings,
            project_files,
            global_files,
            updated_files,
            deleted_files,
        );
        let all_workspace_files = self.files_worker.get_files();
        UpdatedWorkspaceFiles { file_map, all_workspace_files }
    }
}

/// With one snapshot and one pattern set, the aggregate digest is
/// determined: any two results that meet the aggregate-hash contract
/// over the same snapshot and patterns are equal.
pub proof fn lemma_glob_aggregate_deterministic(
    files: Seq<Rec>,
    inc: Seq<Seq<char>>,
    exc: Option<Seq<Seq<char>>>,
    d1: Seq<char>,
    d2: Seq<char>,
)
    requires
        d1 == digest_of(concat_hash_bytes(selected(files, inc, exc))),
        d2 == digest_of(concat_hash_bytes(selected(files, inc, exc))),
    ensures
        d1 == d2,
{
}

} // verus!

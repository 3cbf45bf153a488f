//! The sorting collaborator.
//!
//! Snapshots are re-sorted by path after population and after every
//! incremental merge.  The sort itself is done by rayon's parallel
//! sort over the derived ordering of `FileData`; the library only
//! relies on the result being a path-sorted permutation of the input.

use vstd::prelude::*;
use crate::records::{FileData, file_views, sorted_by_path};
use rayon::slice::ParallelSliceMut;

verus! {

/// Relies on rayon's `par_sort`: it reorders the records into the
/// derived `Ord` order of `FileData` — path first, compared byte-wise,
/// which for UTF-8 text equals the `lex_le` scalar-value order — and a
/// sort permutes its input.
#[verifier::external_body]
pub(crate) fn par_sort_files(files: &mut Vec<FileData>)
    ensures
        file_views(final(files)@).to_multiset() == file_views(old(files)@).to_multiset(),
        sorted_by_path(file_views(final(files)@)),
{
    files.par_sort();
}

} // verus!

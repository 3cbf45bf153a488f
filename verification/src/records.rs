//! File records and the mathematical model of a snapshot.
//!
//! A snapshot is a sequence of `FileData` records.  Its model is the
//! sequence of `(path, hash)` character-sequence pairs, and, through
//! `index_map`, the finite map from path to hash that the sequence
//! represents.  A well-formed snapshot is sorted by path and holds at
//! most one record per path, so it is determined by its map.

use vstd::prelude::*;
use crate::order::{lex_le, lemma_lex_le_antisym};

verus! {

/// One file of the workspace: a workspace-relative path in normalized
/// (forward-slash) form, and the digest of the file's content.
/// The derived order compares the path first, byte-wise as `String`s
/// are compared, which for UTF-8 text is the scalar-value order of
/// `lex_le`; verified code never calls the derived comparisons, they
/// only serve the sorting collaborator.
#[derive(Debug, PartialEq, Eq, PartialOrd, Ord)]
pub struct FileData {
    pub file: String,
    pub hash: String,
}

/// A record is modelled as the pair of its path and its hash.
pub type Rec = (Seq<char>, Seq<char>);

impl View for FileData {
    type V = Rec;

    open spec fn view(&self) -> Rec {
        (self.file@, self.hash@)
    }
}

impl Clone for FileData {
    fn clone(&self) -> (r: Self)
        ensures
            r == *self,
    {
        FileData { file: self.file.clone(), hash: self.hash.clone() }
    }
}

/// The model of a snapshot: its records as `(path, hash)` pairs.
pub open spec fn file_views(s: Seq<FileData>) -> Seq<Rec> {
    s.map_values(|fd: FileData| fd@)
}

/// Records are ordered by path.
pub open spec fn sorted_by_path(s: Seq<Rec>) -> bool {
    forall|i: int, j: int| 0 <= i < j < s.len() ==> lex_le((#[trigger] s[i]).0, (#[trigger] s[j]).0)
}

/// At most one record per path.
pub open spec fn uniq_paths(s: Seq<Rec>) -> bool {
    forall|i: int, j: int|
        0 <= i < s.len() && 0 <= j < s.len() && i != j ==> (#[trigger] s[i]).0 != (#[trigger] s[j]).0
}

/// The path-to-hash map that a sequence of records represents; a later
/// record for the same path overrides an earlier one.
pub open spec fn index_map(s: Seq<Rec>) -> Map<Seq<char>, Seq<char>>
    decreases s.len(),
{
    if s.len() == 0 {
        Map::empty()
    } else {
        index_map(s.drop_last()).insert(s.last().0, s.last().1)
    }
}

/// The paths of a sequence of path strings, as character sequences.
pub open spec fn path_seq(ps: Seq<String>) -> Seq<Seq<char>> {
    ps.map_values(|p: String| p@)
}

/// Copies a record list; the copy carries the same records.
pub fn clone_records(v: &Vec<FileData>) -> (r: Vec<FileData>)
    ensures
        r@ == v@,
{
    let mut r: Vec<FileData> = Vec::new();
    let mut i: usize = 0;
    while i < v.len()
        invariant
            i <= v.len(),
            r@.len() == i as int,
            forall|k: int| 0 <= k < i as int ==> r@[k] == v@[k],
        decreases v.len() - i,
    {
        let fd = v[i].clone();
        r.push(fd);
        i += 1;
    }
    proof {
        assert(r@ =~= v@);
    }
    r
}

/// The predicate that keeps exactly the records whose path lies outside
/// `excl`.
pub open spec fn keep_outside(excl: Set<Seq<char>>) -> spec_fn(Rec) -> bool {
    |r: Rec| !excl.contains(r.0)
}

/// A path is a key of `index_map(s)` exactly when some record of `s`
/// carries it.
pub proof fn lemma_index_map_membership(s: Seq<Rec>)
    ensures
        forall|p: Seq<char>|
            #[trigger] index_map(s).contains_key(p) <==> exists|i: int|
                0 <= i < s.len() && (#[trigger] s[i]).0 == p,
    decreases s.len(),
{
    if s.len() > 0 {
        let dl = s.drop_last();
        lemma_index_map_membership(dl);
        assert forall|p: Seq<char>| #[trigger] index_map(s).contains_key(p) implies exists|i: int|
            0 <= i < s.len() && (#[trigger] s[i]).0 == p by {
            if p == s.last().0 {
                assert((s[s.len() - 1]).0 == p);
            } else {
                assert(index_map(dl).contains_key(p));
                let i = choose|i: int| 0 <= i < dl.len() && (#[trigger] dl[i]).0 == p;
                assert((s[i]).0 == p);
            }
        }
        assert forall|p: Seq<char>|
            (exists|i: int| 0 <= i < s.len() && (#[trigger] s[i]).0 == p) implies #[trigger]
            index_map(s).contains_key(p) by {
            let i = choose|i: int| 0 <= i < s.len() && (#[trigger] s[i]).0 == p;
            if i == s.len() - 1 {
                assert(index_map(s).contains_key(s.last().0));
            } else {
                assert((dl[i]).0 == p);
                assert(index_map(dl).contains_key(p));
            }
        }
    }
}

/// With unique paths, the map assigns each record's hash to its path.
pub proof fn lemma_index_map_values(s: Seq<Rec>)
    requires
        uniq_paths(s),
    ensures
        forall|i: int|
            0 <= i < s.len() ==> index_map(s).contains_key((#[trigger] s[i]).0) && index_map(
                s,
            )[s[i].0] == s[i].1,
    decreases s.len(),
{
    if s.len() > 0 {
        let dl = s.drop_last();
        assert forall|i: int, j: int|
            0 <= i < dl.len() && 0 <= j < dl.len() && i != j implies (#[trigger] dl[i]).0
            != (#[trigger] dl[j]).0 by {
            assert(dl[i] == s[i]);
            assert(dl[j] == s[j]);
        }
        lemma_index_map_values(dl);
        assert forall|i: int|
            0 <= i < s.len() implies index_map(s).contains_key((#[trigger] s[i]).0) && index_map(
            s,
        )[s[i].0] == s[i].1 by {
            if i == s.len() - 1 {
            } else {
                assert(dl[i] == s[i]);
                assert(s[i].0 != s[s.len() - 1].0);
            }
        }
    }
}

/// Concatenation of record sequences corresponds to right-preferring
/// union of their maps.
pub proof fn lemma_index_map_concat(s1: Seq<Rec>, s2: Seq<Rec>)
    ensures
        index_map(s1 + s2) == index_map(s1).union_prefer_right(index_map(s2)),
    decreases s2.len(),
{
    if s2.len() == 0 {
        assert(s1 + s2 =~= s1);
        assert(index_map(s1).union_prefer_right(index_map(s2)) =~= index_map(s1));
    } else {
        let dl = s2.drop_last();
        lemma_index_map_concat(s1, dl);
        assert((s1 + s2).drop_last() =~= s1 + dl);
        assert((s1 + s2).last() == s2.last());
        assert(index_map(s1 + s2) == index_map(s1 + dl).insert(s2.last().0, s2.last().1));
        assert(index_map(s1).union_prefer_right(index_map(dl)).insert(s2.last().0, s2.last().1)
            =~= index_map(s1).union_prefer_right(index_map(dl).insert(s2.last().0, s2.last().1)));
    }
}

/// Filtering away the paths in `excl` removes exactly those keys from
/// the map, keeps paths unique, and keeps only records of `s`.
pub proof fn lemma_index_map_filter(s: Seq<Rec>, excl: Set<Seq<char>>)
    requires
        uniq_paths(s),
    ensures
        index_map(s.filter(keep_outside(excl))) == index_map(s).remove_keys(excl),
        uniq_paths(s.filter(keep_outside(excl))),
        forall|i: int|
            0 <= i < s.filter(keep_outside(excl)).len() ==> s.contains(
                #[trigger] s.filter(keep_outside(excl))[i],
            ),
    decreases s.len(),
{
    reveal(Seq::filter);
    let f = s.filter(keep_outside(excl));
    if s.len() == 0 {
        assert(index_map(f) =~= index_map(s).remove_keys(excl));
    } else {
        let dl = s.drop_last();
        assert forall|i: int, j: int|
            0 <= i < dl.len() && 0 <= j < dl.len() && i != j implies (#[trigger] dl[i]).0
            != (#[trigger] dl[j]).0 by {
            assert(dl[i] == s[i]);
            assert(dl[j] == s[j]);
        }
        lemma_index_map_filter(dl, excl);
        let fdl = dl.filter(keep_outside(excl));
        assert forall|i: int| 0 <= i < fdl.len() implies s.contains(#[trigger] fdl[i]) by {
            let j = choose|j: int| 0 <= j < dl.len() && dl[j] == fdl[i];
            assert(s[j] == fdl[i]);
        }
        if keep_outside(excl)(s.last()) {
            assert(f == fdl.push(s.last()));
            let p = s.last().0;
            // the appended record's path is new among the kept records
            assert forall|i: int| 0 <= i < fdl.len() implies (#[trigger] fdl[i]).0 != p by {
                let j = choose|j: int| 0 <= j < dl.len() && dl[j] == fdl[i];
                assert(s[j] == fdl[i]);
                assert(s[j].0 != s[s.len() - 1].0);
            }
            assert(uniq_paths(f)) by {
                assert forall|i: int, j: int|
                    0 <= i < f.len() && 0 <= j < f.len() && i != j implies (#[trigger] f[i]).0
                    != (#[trigger] f[j]).0 by {
                    if i < f.len() - 1 && j < f.len() - 1 {
                        assert(f[i] == fdl[i]);
                        assert(f[j] == fdl[j]);
                    } else if i == f.len() - 1 {
                        assert(f[j] == fdl[j]);
                    } else {
                        assert(f[i] == fdl[i]);
                    }
                }
            }
            assert(f.drop_last() =~= fdl);
            assert(index_map(f) == index_map(fdl).insert(s.last().0, s.last().1));
            lemma_index_map_membership(dl);
            assert(!excl.contains(p));
            assert(index_map(f) =~= index_map(s).remove_keys(excl)) by {
                assert(index_map(s) == index_map(dl).insert(s.last().0, s.last().1));
            }
        } else {
            assert(f == fdl);
            assert(excl.contains(s.last().0));
            assert(index_map(f) =~= index_map(s).remove_keys(excl)) by {
                assert(index_map(s) == index_map(dl).insert(s.last().0, s.last().1));
            }
        }
        assert forall|i: int| 0 <= i < f.len() implies s.contains(#[trigger] f[i]) by {
            if keep_outside(excl)(s.last()) && i == f.len() - 1 {
                assert(s[s.len() - 1] == f[i]);
            } else {
                assert(s.contains(fdl[i]));
            }
        }
    }
}

/// A permutation of a path-unique record sequence has unique paths and
/// the same map.
pub proof fn lemma_perm_index_map(s1: Seq<Rec>, s2: Seq<Rec>)
    requires
        uniq_paths(s1),
        s1.to_multiset() == s2.to_multiset(),
    ensures
        uniq_paths(s2),
        index_map(s2) == index_map(s1),
{
    broadcast use vstd::seq_lib::group_to_multiset_ensures;

    assert(s1.no_duplicates()) by {
        assert forall|i: int, j: int| 0 <= i < j < s1.len() implies s1[i] != s1[j] by {
            assert(s1[i].0 != s1[j].0);
        }
    }
    s1.lemma_multiset_has_no_duplicates();
    s2.lemma_multiset_has_no_duplicates_conv();
    assert forall|i: int, j: int|
        0 <= i < s2.len() && 0 <= j < s2.len() && i != j implies (#[trigger] s2[i]).0
        != (#[trigger] s2[j]).0 by {
        if s2[i].0 == s2[j].0 {
            // both records occur in s1 as well, at two distinct positions
            assert(s2[i] != s2[j]);
            assert(s2.contains(s2[i]));
            assert(s2.contains(s2[j]));
            assert(s2.to_multiset().count(s2[i]) > 0);
            assert(s2.to_multiset().count(s2[j]) > 0);
            assert(s1.to_multiset().count(s2[i]) > 0);
            assert(s1.to_multiset().count(s2[j]) > 0);
            assert(s1.contains(s2[i]));
            assert(s1.contains(s2[j]));
            let k = choose|k: int| 0 <= k < s1.len() && s1[k] == s2[i];
            let l = choose|l: int| 0 <= l < s1.len() && s1[l] == s2[j];
            assert(s1[k].0 != s1[l].0);
        }
    }
    lemma_index_map_membership(s1);
    lemma_index_map_membership(s2);
    lemma_index_map_values(s1);
    lemma_index_map_values(s2);
    assert(index_map(s2) =~= index_map(s1)) by {
        assert forall|p: Seq<char>|
            #[trigger] index_map(s1).contains_key(p) implies index_map(s2).contains_key(p) by {
            let i = choose|i: int| 0 <= i < s1.len() && (#[trigger] s1[i]).0 == p;
            assert(s1.contains(s1[i]));
            assert(s1.to_multiset().count(s1[i]) > 0);
            assert(s2.to_multiset().count(s1[i]) > 0);
            assert(s2.contains(s1[i]));
            let j = choose|j: int| 0 <= j < s2.len() && s2[j] == s1[i];
            assert((s2[j]).0 == p);
        }
        assert forall|p: Seq<char>|
            #[trigger] index_map(s2).contains_key(p) implies index_map(s1).contains_key(p)
            && index_map(s1)[p] == index_map(s2)[p] by {
            let j = choose|j: int| 0 <= j < s2.len() && (#[trigger] s2[j]).0 == p;
            assert(s2.contains(s2[j]));
            assert(s2.to_multiset().count(s2[j]) > 0);
            assert(s1.to_multiset().count(s2[j]) > 0);
            assert(s1.contains(s2[j]));
            let i = choose|i: int| 0 <= i < s1.len() && s1[i] == s2[j];
            assert((s1[i]).0 == p);
        }
    }
}

/// A sorted, path-unique record sequence is determined by its map.
pub proof fn lemma_sorted_uniq_determined(s1: Seq<Rec>, s2: Seq<Rec>)
    requires
        sorted_by_path(s1),
        sorted_by_path(s2),
        uniq_paths(s1),
        uniq_paths(s2),
        index_map(s1) == index_map(s2),
    ensures
        s1 == s2,
    decreases s1.len(),
{
    lemma_index_map_membership(s1);
    lemma_index_map_membership(s2);
    if s1.len() == 0 {
        if s2.len() > 0 {
            assert(index_map(s2).contains_key((s2[s2.len() - 1]).0));
            assert(false);
        }
        assert(s1 =~= s2);
    } else if s2.len() == 0 {
        assert(index_map(s1).contains_key((s1[s1.len() - 1]).0));
        assert(false);
    } else {
        let p1 = s1.last().0;
        let p2 = s2.last().0;
        // each last path occurs in the other sequence, whose last path bounds it
        assert(index_map(s2).contains_key((s1[s1.len() - 1]).0));
        let j = choose|j: int| 0 <= j < s2.len() && (#[trigger] s2[j]).0 == p1;
        assert(lex_le(p1, p2)) by {
            if j < s2.len() - 1 {
                assert(lex_le((s2[j]).0, (s2[s2.len() - 1]).0));
            }
        }
        assert(index_map(s1).contains_key((s2[s2.len() - 1]).0));
        let i = choose|i: int| 0 <= i < s1.len() && (#[trigger] s1[i]).0 == p2;
        assert(lex_le(p2, p1)) by {
            if i < s1.len() - 1 {
                assert(lex_le((s1[i]).0, (s1[s1.len() - 1]).0));
            }
        }
        lemma_lex_le_antisym(p1, p2);
        lemma_index_map_values(s1);
        lemma_index_map_values(s2);
        assert(s1.last().1 == index_map(s1)[p1]);
        assert(s2.last().1 == index_map(s2)[p1]);
        assert(s1.last() == s2.last());
        let dl1 = s1.drop_last();
        let dl2 = s2.drop_last();
        assert forall|i: int, j: int|
            0 <= i < dl1.len() && 0 <= j < dl1.len() && i != j implies (#[trigger] dl1[i]).0
            != (#[trigger] dl1[j]).0 by {
            assert(dl1[i] == s1[i]);
            assert(dl1[j] == s1[j]);
        }
        assert forall|i: int, j: int|
            0 <= i < dl2.len() && 0 <= j < dl2.len() && i != j implies (#[trigger] dl2[i]).0
            != (#[trigger] dl2[j]).0 by {
            assert(dl2[i] == s2[i]);
            assert(dl2[j] == s2[j]);
        }
        assert forall|i: int, j: int| 0 <= i < j < dl1.len() implies lex_le(
            (#[trigger] dl1[i]).0,
            (#[trigger] dl1[j]).0,
        ) by {
            assert(dl1[i] == s1[i]);
            assert(dl1[j] == s1[j]);
        }
        assert forall|i: int, j: int| 0 <= i < j < dl2.len() implies lex_le(
            (#[trigger] dl2[i]).0,
            (#[trigger] dl2[j]).0,
        ) by {
            assert(dl2[i] == s2[i]);
            assert(dl2[j] == s2[j]);
        }
        lemma_index_map_membership(dl1);
        lemma_index_map_membership(dl2);
        assert(index_map(dl1) =~= index_map(dl2)) by {
            // the shared last record's path is absent from both remainders,
            // so the insert that forms each full map changes nothing below it
            assert(!index_map(dl1).contains_key(p1)) by {
                if exists|i: int| 0 <= i < dl1.len() && (#[trigger] dl1[i]).0 == p1 {
                    let i = choose|i: int| 0 <= i < dl1.len() && (#[trigger] dl1[i]).0 == p1;
                    assert(s1[i].0 == s1[s1.len() - 1].0);
                    assert(false);
                }
            }
            assert(!index_map(dl2).contains_key(p1)) by {
                if exists|i: int| 0 <= i < dl2.len() && (#[trigger] dl2[i]).0 == p1 {
                    let i = choose|i: int| 0 <= i < dl2.len() && (#[trigger] dl2[i]).0 == p1;
                    assert(s2[i].0 == s2[s2.len() - 1].0);
                    assert(false);
                }
            }
            assert(index_map(s1) == index_map(dl1).insert(s1.last().0, s1.last().1));
            assert(index_map(s2) == index_map(dl2).insert(s2.last().0, s2.last().1));
            assert forall|q: Seq<char>| #[trigger]
                index_map(dl1).contains_key(q) implies index_map(dl2).contains_key(q) && index_map(
                dl2,
            )[q] == index_map(dl1)[q] by {
                assert(q != p1);
                assert(index_map(s1).contains_key(q));
            }
            assert forall|q: Seq<char>| #[trigger]
                index_map(dl2).contains_key(q) implies index_map(dl1).contains_key(q) by {
                assert(q != p1);
                assert(index_map(s2).contains_key(q));
            }
        }
        lemma_sorted_uniq_determined(dl1, dl2);
        assert(s1 =~= s2) by {
            assert forall|i: int| 0 <= i < s1.len() implies s1[i] == s2[i] by {
                if i < s1.len() - 1 {
                    assert(dl1[i] == dl2[i]);
                }
            }
        }
    }
}

} // verus!

//! The glob-matching collaborator.
//!
//! Glob matching itself is consumed as a black box: the library only
//! relies on it being a pure function of the pattern texts and the path.
//! Two names capture that: `glob_set_ok` says whether a pattern list
//! compiles, `glob_match` says whether the compiled set matches a path.
//! The filtering of a snapshot by include and exclude patterns is the
//! library's own verified logic.

use vstd::prelude::*;
use crate::records::{FileData, Rec, file_views, path_seq};

verus! {

#[verifier::external_type_specification]
#[verifier::external_body]
pub struct ExGlobSet(globset::GlobSet);

/// Whether the matcher for this pattern list can be built: every
/// pattern parses as a glob and the set compiles.  A pure function of
/// the pattern texts.
pub uninterp spec fn glob_set_ok(patterns: Seq<Seq<char>>) -> bool;

/// Whether the matcher built from `patterns` matches `path`.  A pure
/// function of the pattern texts and the path.
pub uninterp spec fn glob_match(patterns: Seq<Seq<char>>, path: Seq<char>) -> bool;

/// A malformed glob pattern.  The query that carried it is aborted; the
/// index is unaffected.
#[derive(Debug, PartialEq, Eq, Clone, Copy)]
pub struct GlobError;

/// A compiled matcher, kept together with the pattern texts it was
/// built from so that contracts can speak of them.
pub struct GlobSetHandle {
    set: globset::GlobSet,
    patterns: Vec<String>,
}

impl GlobSetHandle {
    /// The pattern texts this matcher was built from.
    pub closed spec fn patterns_view(self) -> Seq<Seq<char>> {
        path_seq(self.patterns@)
    }
}

/// Relies on `globset::Glob::new` and `globset::GlobSetBuilder::build`:
/// whether every pattern parses and the set compiles is a function of
/// the pattern texts alone, and the built matcher embodies exactly the
/// given patterns.
#[verifier::external_body]
fn build_glob_set(patterns: &Vec<String>) -> (r: Option<GlobSetHandle>)
    ensures
        (r is Some) <==> glob_set_ok(path_seq(patterns@)),
        r matches Some(h) ==> h.patterns_view() == path_seq(patterns@),
{
    let mut builder = globset::GlobSetBuilder::new();
    for p in patterns.iter() {
        match globset::Glob::new(p.as_str()) {
            Ok(g) => {
                builder.add(g);
            },
            Err(_) => {
                return None;
            },
        }
    }
    match builder.build() {
        Ok(set) => Some(GlobSetHandle { set, patterns: patterns.clone() }),
        Err(_) => None,
    }
}

/// Relies on `globset::GlobSet::is_match`: whether the compiled set
/// matches a path is a function of the pattern texts and the path alone.
#[verifier::external_body]
fn glob_set_matches(h: &GlobSetHandle, path: &String) -> (r: bool)
    ensures
        r == glob_match(h.patterns_view(), path@),
{
    h.set.is_match(path.as_str())
}

/// The exclude side of a query: absent means nothing is excluded.
pub open spec fn opt_patterns_view(exclude: Option<Vec<String>>) -> Option<Seq<Seq<char>>> {
    match exclude {
        Some(e) => Some(path_seq(e@)),
        None => None,
    }
}

/// Whether a path is excluded by the (possibly absent) exclude patterns.
pub open spec fn excluded(exc: Option<Seq<Seq<char>>>, path: Seq<char>) -> bool {
    match exc {
        Some(e) => glob_match(e, path),
        None => false,
    }
}

/// The record predicate of a glob query: included and not excluded.
pub open spec fn match_pred(inc: Seq<Seq<char>>, exc: Option<Seq<Seq<char>>>) -> spec_fn(Rec) -> bool {
    |r: Rec| glob_match(inc, r.0) && !excluded(exc, r.0)
}

/// The records of a snapshot that a glob query selects, in snapshot
/// order.
pub open spec fn selected(files: Seq<Rec>, inc: Seq<Seq<char>>, exc: Option<Seq<Seq<char>>>) -> Seq<
    Rec,
> {
    files.filter(match_pred(inc, exc))
}

/// Whether both pattern lists of a query are well formed.
pub open spec fn query_ok(inc: Seq<Seq<char>>, exc: Option<Seq<Seq<char>>>) -> bool {
    glob_set_ok(inc) && match exc {
        Some(e) => glob_set_ok(e),
        None => true,
    }
}

/// Applies include-glob matching and then exclude-glob filtering to a
/// snapshot.  Fails exactly when a pattern list is malformed; on
/// success the matched records come back in snapshot order.
pub fn glob_files(files: &Vec<FileData>, globs: &Vec<String>, exclude: &Option<Vec<String>>) -> (r:
    Result<Vec<FileData>, GlobError>)
    ensures
        (r is Ok) <==> query_ok(path_seq(globs@), opt_patterns_view(*exclude)),
        r matches Ok(v) ==> file_views(v@) == selected(
            file_views(files@),
            path_seq(globs@),
            opt_patterns_view(*exclude),
        ),
{
    let inc = match build_glob_set(globs) {
        Some(h) => h,
        None => {
            return Err(GlobError);
        },
    };
    let exc = match exclude {
        Some(e) => match build_glob_set(e) {
            Some(h) => Some(h),
            None => {
                return Err(GlobError);
            },
        },
        None => None,
    };
    let ghost ip = path_seq(globs@);
    let ghost ep = opt_patterns_view(*exclude);
    let mut out: Vec<FileData> = Vec::new();
    let mut i: usize = 0;
    proof {
        assert(file_views(out@) =~= Seq::<Rec>::empty());
        assert(file_views(files@).take(0).filter(match_pred(ip, ep)) =~= Seq::<Rec>::empty()) by {
            reveal(Seq::filter);
            assert(file_views(files@).take(0) =~= Seq::<Rec>::empty());
        }
    }
    while i < files.len()
        invariant
            i <= files.len(),
            ip == path_seq(globs@),
            ep == opt_patterns_view(*exclude),
            inc.patterns_view() == ip,
            match exc {
                Some(h) => ep matches Some(e) && h.patterns_view() == e,
                None => ep is None,
            },
            file_views(out@) == file_views(files@).take(i as int).filter(match_pred(ip, ep)),
        decreases files.len() - i,
    {
        let is_inc = glob_set_matches(&inc, &files[i].file);
        let is_exc = match &exc {
            Some(h) => glob_set_matches(h, &files[i].file),
            None => false,
        };
        proof {
            reveal(Seq::filter);
            let fv = file_views(files@);
            assert(fv.take(i + 1 as int).drop_last() =~= fv.take(i as int));
            assert(fv.take(i + 1 as int).last() == fv[i as int]);
            assert(fv[i as int].0 == files@[i as int].file@);
            assert(is_inc == glob_match(ip, fv[i as int].0));
            assert(is_exc == excluded(ep, fv[i as int].0));
        }
        if is_inc && !is_exc {
            let fd = files[i].clone();
            out.push(fd);
            proof {
                assert(file_views(out@) =~= file_views(files@).take(i as int).filter(
                    match_pred(ip, ep),
                ).push(file_views(files@)[i as int]));
            }
        }
        i += 1;
    }
    proof {
        assert(file_views(files@).take(files@.len() as int) =~= file_views(files@));
    }
    Ok(out)
}

} // verus!

//! Project roots and the owning-project resolver.
//!
//! A project-root mapping assigns a project identifier to each root
//! path prefix.  A file path is classified by longest-prefix match: the
//! path itself is looked up, then each ancestor obtained by stripping
//! the last `/`-separated segment, and the first hit wins.

use vstd::prelude::*;
use crate::assoc::{
    assoc_map, uniq_keys, lemma_assoc_membership, lemma_assoc_values, lemma_assoc_update,
    lemma_assoc_push,
};
use vstd::string::StrSliceExecFns;

verus! {

/// The position of the last `/` in a path, if any.
pub open spec fn last_slash(s: Seq<char>) -> Option<int>
    decreases s.len(),
{
    if s.len() == 0 {
        None
    } else if s[s.len() - 1] == '/' {
        Some(s.len() - 1)
    } else {
        last_slash(s.drop_last())
    }
}

/// The path shortened by its last segment: everything before the last
/// `/`, or nothing when the path has a single segment.
pub open spec fn spec_parent(s: Seq<char>) -> Option<Seq<char>> {
    match last_slash(s) {
        Some(i) => Some(s.take(i)),
        None => None,
    }
}

pub proof fn lemma_last_slash_bounds(s: Seq<char>)
    ensures
        last_slash(s) matches Some(i) ==> 0 <= i < s.len() && s[i] == '/',
    decreases s.len(),
{
    if s.len() > 0 && s[s.len() - 1] != '/' {
        lemma_last_slash_bounds(s.drop_last());
        match last_slash(s.drop_last()) {
            Some(i) => {
                assert(s.drop_last()[i] == s[i]);
            },
            None => {},
        }
    }
}

pub proof fn lemma_last_slash_at(s: Seq<char>, k: int)
    requires
        0 <= k < s.len(),
        s[k] == '/',
        forall|j: int| k < j < s.len() ==> s[j] != '/',
    ensures
        last_slash(s) == Some(k),
    decreases s.len(),
{
    if k == s.len() - 1 {
    } else {
        let dl = s.drop_last();
        assert(s[s.len() - 1] != '/');
        assert(dl[k] == s[k]);
        assert forall|j: int| k < j < dl.len() implies dl[j] != '/' by {
            assert(dl[j] == s[j]);
        }
        lemma_last_slash_at(dl, k);
    }
}

pub proof fn lemma_last_slash_none(s: Seq<char>)
    requires
        forall|j: int| 0 <= j < s.len() ==> s[j] != '/',
    ensures
        last_slash(s) is None,
    decreases s.len(),
{
    if s.len() > 0 {
        let dl = s.drop_last();
        assert forall|j: int| 0 <= j < dl.len() implies dl[j] != '/' by {
            assert(dl[j] == s[j]);
        }
        lemma_last_slash_none(dl);
    }
}

/// The owning project of a path under a root mapping: the mapping entry
/// of the longest root prefix, found by looking the path itself up and
/// then each ancestor in turn.
pub open spec fn spec_find_project(m: Map<Seq<char>, Seq<char>>, path: Seq<char>) -> Option<
    Seq<char>,
>
    decreases path.len(),
{
    if m.contains_key(path) {
        Some(m[path])
    } else {
        match spec_parent(path) {
            Some(pp) => if pp.len() < path.len() {
                spec_find_project(m, pp)
            } else {
                None
            },
            None => None,
        }
    }
}

/// The mapping from project-root path prefix to project identifier.
pub struct ProjectRootMappings {
    entries: Vec<(String, String)>,
}

/// The models of the mapping's entries.
pub open spec fn root_entry_views(s: Seq<(String, String)>) -> Seq<(Seq<char>, Seq<char>)> {
    s.map_values(|e: (String, String)| (e.0@, e.1@))
}

impl View for ProjectRootMappings {
    type V = Map<Seq<char>, Seq<char>>;

    closed spec fn view(&self) -> Map<Seq<char>, Seq<char>> {
        assoc_map(root_entry_views(self.entries@))
    }
}

impl ProjectRootMappings {
    /// One entry per root.
    pub closed spec fn wf(self) -> bool {
        uniq_keys(root_entry_views(self.entries@))
    }

    /// An empty mapping: every path is global.
    pub fn new() -> (r: Self)
        ensures
            r.wf(),
            r@ == Map::<Seq<char>, Seq<char>>::empty(),
    {
        let r = ProjectRootMappings { entries: Vec::new() };
        proof {
            assert(root_entry_views(r.entries@) =~= Seq::<(Seq<char>, Seq<char>)>::empty());
        }
        r
    }

    /// Sets the project for a root, overwriting any previous entry.
    pub fn insert(&mut self, root: String, project: String)
        requires
            old(self).wf(),
        ensures
            final(self).wf(),
            final(self)@ == old(self)@.insert(root@, project@),
    {
        let ghost pre = root_entry_views(self.entries@);
        let mut i: usize = 0;
        while i < self.entries.len()
            invariant
                i <= self.entries.len(),
                pre == root_entry_views(self.entries@),
                old(self)@ == assoc_map(pre),
                uniq_keys(pre),
                forall|k: int| 0 <= k < i as int ==> (#[trigger] pre[k]).0 != root@,
            decreases self.entries.len() - i,
        {
            if self.entries[i].0 == root {
                proof {
                    assert(pre[i as int].0 == root@);
                    lemma_assoc_update(pre, i as int, project@);
                }
                self.entries.set(i, (root, project));
                proof {
                    assert(root_entry_views(self.entries@) =~= pre.update(
                        i as int,
                        (pre[i as int].0, project@),
                    ));
                    assert(assoc_map(root_entry_views(self.entries@)) == assoc_map(pre).insert(
                        root@,
                        project@,
                    ));
                }
                return;
            }
            i += 1;
        }
        proof {
            lemma_assoc_push(pre, root@, project@);
        }
        self.entries.push((root, project));
        proof {
            assert(root_entry_views(self.entries@) =~= pre.push((root@, project@)));
            assert(assoc_map(root_entry_views(self.entries@)) == assoc_map(pre).insert(
                root@,
                project@,
            ));
        }
    }
}

/// Looks a single root up in the mapping.
fn lookup_root(mappings: &ProjectRootMappings, key: &String) -> (r: Option<String>)
    requires
        mappings.wf(),
    ensures
        r matches Some(v) ==> mappings@.contains_key(key@) && mappings@[key@] == v@,
        r is None ==> !mappings@.contains_key(key@),
{
    let ghost views = root_entry_views(mappings.entries@);
    let mut i: usize = 0;
    while i < mappings.entries.len()
        invariant
            i <= mappings.entries.len(),
            views == root_entry_views(mappings.entries@),
            mappings.wf(),
            forall|k: int| 0 <= k < i as int ==> (#[trigger] views[k]).0 != key@,
        decreases mappings.entries.len() - i,
    {
        if mappings.entries[i].0 == *key {
            let v = mappings.entries[i].1.clone();
            proof {
                assert(views[i as int].0 == key@);
                assert(views[i as int].1 == v@);
                lemma_assoc_values(views);
            }
            return Some(v);
        }
        i += 1;
    }
    proof {
        lemma_assoc_membership(views);
        if mappings@.contains_key(key@) {
            let k = choose|k: int| 0 <= k < views.len() && (#[trigger] views[k]).0 == key@;
            assert(false);
        }
    }
    None
}

/// The path shortened by its last segment, as `spec_parent` describes.
pub fn parent_path(s: &String) -> (r: Option<String>)
    ensures
        r matches Some(p) ==> spec_parent(s@) == Some(p@),
        r is None ==> spec_parent(s@) is None,
{
    let n = s.as_str().unicode_len();
    let mut i: usize = n;
    while i > 0
        invariant
            i <= n,
            n == s@.len(),
            forall|j: int| i as int <= j < n as int ==> s@[j] != '/',
        decreases i,
    {
        let c = s.as_str().get_char(i - 1);
        if c == '/' {
            proof {
                lemma_last_slash_at(s@, i as int - 1);
            }
            let p = s.as_str().substring_char(0, i - 1).to_owned();
            proof {
                assert(p@ =~= s@.take(i as int - 1));
            }
            return Some(p);
        }
        i -= 1;
    }
    proof {
        lemma_last_slash_none(s@);
    }
    None
}

/// Finds the owning project of a path: the mapping entry of the longest
/// root prefix of the path, if any.
pub fn find_project_for_path(path: &String, mappings: &ProjectRootMappings) -> (r: Option<String>)
    requires
        mappings.wf(),
    ensures
        r matches Some(p) ==> spec_find_project(mappings@, path@) == Some(p@),
        r is None ==> spec_find_project(mappings@, path@) is None,
{
    let mut cur: String = path.clone();
    loop
        invariant
            mappings.wf(),
            spec_find_project(mappings@, path@) == spec_find_project(mappings@, cur@),
        decreases cur@.len(),
    {
        match lookup_root(mappings, &cur) {
            Some(p) => {
                return Some(p);
            },
            None => {},
        }
        match parent_path(&cur) {
            Some(pp) => {
                proof {
                    lemma_last_slash_bounds(cur@);
                    assert(pp@.len() < cur@.len());
                }
                cur = pp;
            },
            None => {
                return None;
            },
        }
    }
}

} // verus!

use workspace_index::records::FileData;
use workspace_index::project_graph::{ProjectRootMappings, find_project_for_path};
use workspace_index::project_files::ProjectFiles;
use workspace_index::workspace_context::WorkspaceContext;

fn fd(path: &str, hash: &str) -> FileData {
    FileData { file: String::from(path), hash: String::from(hash) }
}

fn ready_context() -> WorkspaceContext {
    // a context whose root is missing is ready at once and empty
    WorkspaceContext::new(String::from("nowhere"), false)
}

#[test]
fn find_project_prefers_longest_prefix() {
    let mut m = ProjectRootMappings::new();
    m.insert(String::from("libs"), String::from("libs-root"));
    m.insert(String::from("libs/foo"), String::from("foo"));
    assert_eq!(
        find_project_for_path(&String::from("libs/foo/x.ts"), &m),
        Some(String::from("foo"))
    );
    assert_eq!(
        find_project_for_path(&String::from("libs/other/y.ts"), &m),
        Some(String::from("libs-root"))
    );
    assert_eq!(find_project_for_path(&String::from("apps/bar/y.ts"), &m), None);
}

#[test]
fn find_project_matches_root_itself() {
    let mut m = ProjectRootMappings::new();
    m.insert(String::from("libs/foo"), String::from("foo"));
    assert_eq!(
        find_project_for_path(&String::from("libs/foo"), &m),
        Some(String::from("foo"))
    );
    assert_eq!(find_project_for_path(&String::from("libs"), &m), None);
}

#[test]
fn mapping_insert_overwrites() {
    let mut m = ProjectRootMappings::new();
    m.insert(String::from("libs/foo"), String::from("old"));
    m.insert(String::from("libs/foo"), String::from("new"));
    assert_eq!(
        find_project_for_path(&String::from("libs/foo/a.ts"), &m),
        Some(String::from("new"))
    );
}

#[test]
fn update_partitions_new_files() {
    // projectRootMapping = {"libs/foo": "foo"}; two updated files, no
    // prior partition: one lands in the project, one in the globals
    let mut m = ProjectRootMappings::new();
    m.insert(String::from("libs/foo"), String::from("foo"));
    let ctx = ready_context();
    let r = ctx.update_project_files(
        &m,
        &ProjectFiles::new(),
        &Vec::new(),
        &vec![fd("libs/foo/x.ts", "h1"), fd("apps/bar/y.ts", "h2")],
        &Vec::new(),
    );
    let foo = r.file_map.project_file_map.get_project_records(&String::from("foo")).unwrap();
    assert_eq!(foo.len(), 1);
    assert_eq!(foo[0].file, "libs/foo/x.ts");
    assert_eq!(foo[0].hash, "h1");
    assert_eq!(r.file_map.non_project_files.len(), 1);
    assert_eq!(r.file_map.non_project_files[0].file, "apps/bar/y.ts");
    assert_eq!(r.file_map.non_project_files[0].hash, "h2");
    assert!(r.all_workspace_files.is_empty());
}

#[test]
fn update_overwrites_hash_in_place() {
    let mut m = ProjectRootMappings::new();
    m.insert(String::from("libs/foo"), String::from("foo"));
    let mut prior = ProjectFiles::new();
    prior.insert(
        String::from("foo"),
        vec![fd("libs/foo/a.ts", "old-a"), fd("libs/foo/b.ts", "old-b")],
    );
    let ctx = ready_context();
    let r = ctx.update_project_files(
        &m,
        &prior,
        &Vec::new(),
        &vec![fd("libs/foo/a.ts", "new-a")],
        &Vec::new(),
    );
    let foo = r.file_map.project_file_map.get_project_records(&String::from("foo")).unwrap();
    assert_eq!(foo.len(), 2);
    assert_eq!(foo[0].file, "libs/foo/a.ts");
    assert_eq!(foo[0].hash, "new-a");
    assert_eq!(foo[1].file, "libs/foo/b.ts");
    assert_eq!(foo[1].hash, "old-b");
}

#[test]
fn update_overwrites_global_hash() {
    let m = ProjectRootMappings::new();
    let ctx = ready_context();
    let r = ctx.update_project_files(
        &m,
        &ProjectFiles::new(),
        &vec![fd("readme.md", "old")],
        &vec![fd("readme.md", "new")],
        &Vec::new(),
    );
    assert_eq!(r.file_map.non_project_files.len(), 1);
    assert_eq!(r.file_map.non_project_files[0].hash, "new");
}

#[test]
fn delete_removes_from_project_and_globals() {
    let mut m = ProjectRootMappings::new();
    m.insert(String::from("libs/foo"), String::from("foo"));
    let mut prior = ProjectFiles::new();
    prior.insert(
        String::from("foo"),
        vec![fd("libs/foo/a.ts", "ha"), fd("libs/foo/b.ts", "hb")],
    );
    let ctx = ready_context();
    let r = ctx.update_project_files(
        &m,
        &prior,
        &vec![fd("global.md", "hg")],
        &Vec::new(),
        &vec![String::from("libs/foo/a.ts"), String::from("global.md")],
    );
    let foo = r.file_map.project_file_map.get_project_records(&String::from("foo")).unwrap();
    assert_eq!(foo.len(), 1);
    assert_eq!(foo[0].file, "libs/foo/b.ts");
    assert!(r.file_map.non_project_files.is_empty());
}

#[test]
fn delete_of_unknown_path_is_a_noop() {
    let mut m = ProjectRootMappings::new();
    m.insert(String::from("libs/foo"), String::from("foo"));
    let mut prior = ProjectFiles::new();
    prior.insert(String::from("foo"), vec![fd("libs/foo/a.ts", "ha")]);
    let ctx = ready_context();
    let r = ctx.update_project_files(
        &m,
        &prior,
        &vec![fd("global.md", "hg")],
        &Vec::new(),
        &vec![String::from("libs/foo/zzz.ts"), String::from("elsewhere.md")],
    );
    let foo = r.file_map.project_file_map.get_project_records(&String::from("foo")).unwrap();
    assert_eq!(foo.len(), 1);
    assert_eq!(r.file_map.non_project_files.len(), 1);
}

#[test]
fn partition_covers_every_path_once() {
    // union of project paths and global paths equals the updated set
    let mut m = ProjectRootMappings::new();
    m.insert(String::from("libs/foo"), String::from("foo"));
    m.insert(String::from("libs/bar"), String::from("bar"));
    let ctx = ready_context();
    let updated = vec![
        fd("libs/foo/a.ts", "1"),
        fd("libs/bar/b.ts", "2"),
        fd("tools/c.ts", "3"),
        fd("libs/foo/d.ts", "4"),
    ];
    let r = ctx.update_project_files(&m, &ProjectFiles::new(), &Vec::new(), &updated, &Vec::new());
    let mut seen: Vec<String> = Vec::new();
    for name in ["foo", "bar"] {
        if let Some(list) = r.file_map.project_file_map.get_project_records(&String::from(name)) {
            for f in list {
                assert!(!seen.contains(&f.file));
                seen.push(f.file.clone());
            }
        }
    }
    for f in &r.file_map.non_project_files {
        assert!(!seen.contains(&f.file));
        seen.push(f.file.clone());
    }
    assert_eq!(seen.len(), 4);
    for f in &updated {
        assert!(seen.contains(&f.file));
    }
}

#[test]
fn project_files_insert_and_lookup() {
    let mut pf = ProjectFiles::new();
    assert!(pf.get_project_records(&String::from("foo")).is_none());
    pf.insert(String::from("foo"), vec![fd("libs/foo/a.ts", "h")]);
    pf.insert(String::from("foo"), vec![fd("libs/foo/b.ts", "h2")]);
    let list = pf.get_project_records(&String::from("foo")).unwrap();
    assert_eq!(list.len(), 1);
    assert_eq!(list[0].file, "libs/foo/b.ts");
}

#[test]
fn delete_wins_over_update_in_partition() {
    // the partitioner applies all updates first and all deletions after,
    // so a path reported in both ends up absent
    let mut m = ProjectRootMappings::new();
    m.insert(String::from("libs/foo"), String::from("foo"));
    let ctx = ready_context();
    let r = ctx.update_project_files(
        &m,
        &ProjectFiles::new(),
        &Vec::new(),
        &vec![fd("libs/foo/a.ts", "h"), fd("top.md", "t")],
        &vec![String::from("libs/foo/a.ts"), String::from("top.md")],
    );
    let foo = r.file_map.project_file_map.get_project_records(&String::from("foo")).unwrap();
    assert!(foo.is_empty());
    assert!(r.file_map.non_project_files.is_empty());
}

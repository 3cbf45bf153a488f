use workspace_index::hasher::hash;
use workspace_index::workspace_context::WorkspaceContext;

fn entry(path: &str, content: &str) -> (String, Vec<u8>) {
    (String::from(path), content.as_bytes().to_vec())
}

fn sample_context() -> WorkspaceContext {
    let mut ctx = WorkspaceContext::new(String::from("root"), true);
    ctx.populate(&vec![
        entry("a.ts", "ts-a"),
        entry("a.js", "js-a"),
        entry("conf/base.json", "{}"),
        entry("conf/extra.json", "{\"x\":1}"),
        entry("src/deep/mod.ts", "mod"),
    ]);
    ctx
}

#[test]
fn glob_matches_by_extension() {
    let ctx = sample_context();
    let r = ctx.glob(vec![String::from("*.ts")], None).unwrap();
    assert_eq!(r, vec![String::from("a.ts"), String::from("src/deep/mod.ts")]);
    let r = ctx.glob(vec![String::from("a.*")], None).unwrap();
    assert_eq!(r, vec![String::from("a.js"), String::from("a.ts")]);
}

#[test]
fn glob_recursive_pattern_keeps_snapshot_order() {
    let ctx = sample_context();
    let r = ctx.glob(vec![String::from("**/*.ts")], None).unwrap();
    assert_eq!(r, vec![String::from("a.ts"), String::from("src/deep/mod.ts")]);
}

#[test]
fn glob_exclude_filters_matches() {
    let ctx = sample_context();
    let r = ctx
        .glob(
            vec![String::from("**/*.json")],
            Some(vec![String::from("conf/extra.json")]),
        )
        .unwrap();
    assert_eq!(r, vec![String::from("conf/base.json")]);
}

#[test]
fn glob_rejects_malformed_pattern() {
    let ctx = sample_context();
    let r = ctx.glob(vec![String::from("a{")], None);
    assert!(r.is_err());
    let r = ctx.glob(
        vec![String::from("**/*.json")],
        Some(vec![String::from("a{")]),
    );
    assert!(r.is_err());
    // a failed query leaves the index untouched
    assert_eq!(ctx.all_file_data().len(), 5);
}

#[test]
fn glob_aggregate_is_deterministic() {
    let ctx = sample_context();
    let d1 = ctx
        .hash_files_matching_glob(vec![String::from("**/*.json")], None)
        .unwrap();
    let d2 = ctx
        .hash_files_matching_glob(vec![String::from("**/*.json")], None)
        .unwrap();
    assert_eq!(d1, d2);
}

#[test]
fn glob_aggregate_changes_with_matched_content() {
    let mut ctx = sample_context();
    let before = ctx
        .hash_files_matching_glob(vec![String::from("**/*.json")], None)
        .unwrap();
    ctx.incremental_update(&vec![entry("conf/base.json", "{\"changed\":true}")], &Vec::new());
    let after = ctx
        .hash_files_matching_glob(vec![String::from("**/*.json")], None)
        .unwrap();
    assert_ne!(before, after);
}

#[test]
fn glob_aggregate_ignores_unmatched_content() {
    let mut ctx = sample_context();
    let before = ctx
        .hash_files_matching_glob(vec![String::from("**/*.json")], None)
        .unwrap();
    ctx.incremental_update(&vec![entry("a.ts", "other ts")], &Vec::new());
    let after = ctx
        .hash_files_matching_glob(vec![String::from("**/*.json")], None)
        .unwrap();
    assert_eq!(before, after);
}

#[test]
fn glob_aggregate_of_empty_match_is_hash_of_nothing() {
    let ctx = sample_context();
    let d = ctx
        .hash_files_matching_glob(vec![String::from("*.nothing")], None)
        .unwrap();
    assert_eq!(d, hash(b""));
}

#[test]
fn glob_aggregate_depends_on_matched_hashes() {
    // the aggregate digest is the digest of the matched hashes in order,
    // so it differs from the digest of any single file's content
    let ctx = sample_context();
    let d = ctx
        .hash_files_matching_glob(vec![String::from("a.ts")], None)
        .unwrap();
    let single = hash(b"ts-a");
    assert_eq!(d, hash(single.as_bytes()));
}

#[test]
fn empty_include_list_matches_nothing() {
    let ctx = sample_context();
    let r = ctx.glob(Vec::new(), None).unwrap();
    assert!(r.is_empty());
    let d = ctx.hash_files_matching_glob(Vec::new(), None).unwrap();
    assert_eq!(d, hash(b""));
}

#[test]
fn empty_exclude_list_excludes_nothing() {
    let ctx = sample_context();
    let with_empty = ctx
        .glob(vec![String::from("**/*.json")], Some(Vec::new()))
        .unwrap();
    let with_none = ctx.glob(vec![String::from("**/*.json")], None).unwrap();
    assert_eq!(with_empty, with_none);
}

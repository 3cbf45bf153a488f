use parking_lot::{Condvar, Mutex};
use std::sync::Arc;
use workspace_index::hasher::hash;
use workspace_index::records::FileData;
use workspace_index::files_worker::FilesWorker;
use workspace_index::workspace_context::WorkspaceContext;

fn entry(path: &str, content: &str) -> (String, Vec<u8>) {
    (String::from(path), content.as_bytes().to_vec())
}

#[test]
fn hash_is_stable_across_calls() {
    let a = hash(b"some content");
    let b = hash(b"some content");
    assert_eq!(a, b);
}

#[test]
fn hash_distinguishes_contents() {
    let a = hash(b"x");
    let b = hash(b"y");
    assert_ne!(a, b);
    assert_ne!(hash(b""), hash(b"x"));
}

#[test]
fn population_sorts_records_by_path() {
    let mut ctx = WorkspaceContext::new(String::from("root"), true);
    assert!(ctx.must_wait());
    let entries = vec![entry("b.ts", "y"), entry("a.ts", "x"), entry("c/d.ts", "z")];
    ctx.populate(&entries);
    assert!(!ctx.must_wait());
    let files = ctx.all_file_data();
    assert_eq!(files.len(), 3);
    assert_eq!(files[0].file, "a.ts");
    assert_eq!(files[1].file, "b.ts");
    assert_eq!(files[2].file, "c/d.ts");
    assert_eq!(files[0].hash, hash(b"x"));
    assert_eq!(files[1].hash, hash(b"y"));
    assert_eq!(files[2].hash, hash(b"z"));
}

#[test]
fn populate_then_update_and_delete() {
    // workspace holds a.ts ("x") and b.ts ("y"); then a.ts changes to "z"
    // and b.ts is deleted
    let mut ctx = WorkspaceContext::new(String::from("root"), true);
    ctx.populate(&vec![entry("a.ts", "x"), entry("b.ts", "y")]);
    let files = ctx.all_file_data();
    assert_eq!(files.len(), 2);
    assert_eq!(files[0].file, "a.ts");
    assert_eq!(files[1].file, "b.ts");
    assert_eq!(files[0].hash, hash(b"x"));
    assert_eq!(files[1].hash, hash(b"y"));

    let result = ctx.incremental_update(&vec![entry("a.ts", "z")], &vec![String::from("b.ts")]);
    assert_eq!(result.len(), 1);
    assert_eq!(result[0].file, "a.ts");
    assert_eq!(result[0].hash, hash(b"z"));

    let files = ctx.all_file_data();
    assert_eq!(files.len(), 1);
    assert_eq!(files[0].file, "a.ts");
    assert_eq!(files[0].hash, hash(b"z"));
}

#[test]
fn deleting_absent_path_twice_is_a_noop() {
    let mut ctx = WorkspaceContext::new(String::from("root"), true);
    ctx.populate(&vec![entry("keep.ts", "k")]);
    let before = ctx.all_file_data();

    let deleted = vec![String::from("not-there.ts")];
    let r1 = ctx.incremental_update(&Vec::new(), &deleted);
    assert!(r1.is_empty());
    let r2 = ctx.incremental_update(&Vec::new(), &deleted);
    assert!(r2.is_empty());

    let after = ctx.all_file_data();
    assert_eq!(before.len(), after.len());
    assert_eq!(before[0].file, after[0].file);
    assert_eq!(before[0].hash, after[0].hash);
}

#[test]
fn missing_root_is_permanently_empty() {
    let mut ctx = WorkspaceContext::new(String::from("nowhere"), false);
    assert!(!ctx.must_wait());
    assert!(ctx.all_file_data().is_empty());
    let r = ctx.incremental_update(&vec![entry("a.ts", "x")], &Vec::new());
    assert!(r.is_empty());
    assert!(ctx.all_file_data().is_empty());
}

#[test]
fn empty_population_unblocks_readers() {
    let mut ctx = WorkspaceContext::new(String::from("root"), true);
    assert!(ctx.must_wait());
    ctx.populate(&Vec::new());
    assert!(!ctx.must_wait());
    assert!(ctx.all_file_data().is_empty());
}

#[test]
fn update_inserts_new_paths() {
    let mut ctx = WorkspaceContext::new(String::from("root"), true);
    ctx.populate(&vec![entry("b.ts", "y")]);
    let r = ctx.incremental_update(&vec![entry("a.ts", "x"), entry("c.ts", "z")], &Vec::new());
    assert_eq!(r.len(), 2);
    let files = ctx.all_file_data();
    assert_eq!(files.len(), 3);
    assert_eq!(files[0].file, "a.ts");
    assert_eq!(files[1].file, "b.ts");
    assert_eq!(files[2].file, "c.ts");
}

#[test]
fn files_worker_direct_use() {
    let mut worker = FilesWorker::new(true);
    assert!(worker.must_wait());
    worker.populate(&vec![entry("z.txt", "zz"), entry("a.txt", "aa")]);
    assert!(!worker.must_wait());
    let files = worker.get_files();
    assert_eq!(files.len(), 2);
    assert_eq!(files[0].file, "a.txt");
    assert_eq!(files[1].file, "z.txt");

    let r = worker.update_files(&vec![entry("m.txt", "mm")], &vec![String::from("a.txt")]);
    assert_eq!(r.len(), 1);
    assert_eq!(r[0].file, "m.txt");
    assert_eq!(r[0].hash, hash(b"mm"));
    let files = worker.get_files();
    assert_eq!(files.len(), 2);
    assert_eq!(files[0].file, "m.txt");
    assert_eq!(files[1].file, "z.txt");
}

#[test]
fn file_data_clone_copies_fields() {
    let fd = FileData { file: String::from("p"), hash: String::from("h") };
    let c = fd.clone();
    assert_eq!(c.file, "p");
    assert_eq!(c.hash, "h");
}

#[test]
fn update_wins_over_delete_in_same_report() {
    // deletions are applied to the store first, then updates inserted,
    // so a path reported in both stays with its new hash
    let mut ctx = WorkspaceContext::new(String::from("root"), true);
    ctx.populate(&vec![entry("a.ts", "old")]);
    let r = ctx.incremental_update(&vec![entry("a.ts", "new")], &vec![String::from("a.ts")]);
    assert_eq!(r.len(), 1);
    let files = ctx.all_file_data();
    assert_eq!(files.len(), 1);
    assert_eq!(files[0].hash, hash(b"new"));
}

#[test]
fn sort_order_is_byte_wise_on_paths() {
    let mut ctx = WorkspaceContext::new(String::from("root"), true);
    ctx.populate(&vec![entry("ab.ts", "1"), entry("a.ts", "2"), entry("a/b.ts", "3")]);
    let files = ctx.all_file_data();
    // '.' (0x2E) < '/' (0x2F) < 'b' (0x62)
    assert_eq!(files[0].file, "a.ts");
    assert_eq!(files[1].file, "a/b.ts");
    assert_eq!(files[2].file, "ab.ts");
}

#[test]
fn blocked_readers_release_after_single_population() {
    // several readers block before the population; the one population
    // pass, even with zero files, unblocks them all, and later readers
    // never block again
    let shared = Arc::new((
        Mutex::new(WorkspaceContext::new(String::from("root"), true)),
        Condvar::new(),
    ));
    rayon::scope(|s| {
        for _ in 0..2 {
            let shared = Arc::clone(&shared);
            s.spawn(move |_| {
                let (lock, cvar) = &*shared;
                let mut ctx = lock.lock();
                while ctx.must_wait() {
                    cvar.wait(&mut ctx);
                }
                assert!(ctx.all_file_data().is_empty());
            });
        }
        let (lock, cvar) = &*shared;
        let mut ctx = lock.lock();
        if ctx.must_wait() {
            ctx.populate(&Vec::new());
        }
        cvar.notify_all();
        drop(ctx);
    });
    let (lock, _) = &*shared;
    let ctx = lock.lock();
    assert!(!ctx.must_wait());
}

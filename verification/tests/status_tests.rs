use rug::branch::{render_diagnostics, Branch};
use rug::commit::Commit;
use rug::entry::FileStat;
use rug::envelope::ObjectKind;
use rug::index::{Index, IndexError};
use rug::index_format::CorruptIndex;
use rug::lock::{CreateOutcome, LockArtifact, LockError, Lockfile};
use rug::object_id::ObjectId;
use rug::refs::{RefValue, Refs};
use rug::resolve::{Diagnostic, RevisionError};
use rug::status::{is_trackable_path, render_status, scan_workspace, sort_paths, status_command, WorkspaceNode};
use rug::store::ContentStore;

fn file(path: &str) -> WorkspaceNode {
    WorkspaceNode { path: path.to_string(), is_file: true, children: vec![] }
}

fn dir(path: &str, children: Vec<WorkspaceNode>) -> WorkspaceNode {
    WorkspaceNode { path: path.to_string(), is_file: false, children }
}

fn track(index: &mut Index, path: &str) {
    let stat = FileStat {
        ctime: 0,
        ctime_nsec: 0,
        mtime: 0,
        mtime_nsec: 0,
        dev: 0,
        ino: 0,
        mode: 0o100644,
        uid: 0,
        gid: 0,
        size: 0,
    };
    index.add(path, ObjectId::from_bytes(&[1u8; 20]).unwrap(), &stat);
}

#[test]
fn list_untracked_files_in_name_order() {
    let index = Index::new();
    let workspace = vec![file("file.txt"), file("another.txt")];
    assert_eq!(
        status_command(&index, &workspace),
        "?? another.txt
?? file.txt\n"
    );
}

#[test]
fn list_files_as_untracked_if_not_in_index() {
    let mut index = Index::new();
    track(&mut index, "committed.txt");
    let workspace = vec![file("committed.txt"), file("file.txt")];
    assert_eq!(status_command(&index, &workspace), "?? file.txt\n");
}

#[test]
fn list_untracked_dir_not_contents() {
    let index = Index::new();
    let workspace = vec![file("file.txt"), dir("dir", vec![file("dir/another.txt")])];
    assert_eq!(
        status_command(&index, &workspace),
        "?? dir/
?? file.txt\n"
    );
}

#[test]
fn list_untracked_files_inside_tracked_dir() {
    let mut index = Index::new();
    track(&mut index, "a/b/inner.txt");
    let workspace = vec![dir(
        "a",
        vec![
            dir("a/b", vec![dir("a/b/c", vec![file("a/b/c/file.txt")]), file("a/b/inner.txt")]),
            file("a/outer.txt"),
        ],
    )];
    assert_eq!(
        status_command(&index, &workspace),
        "?? a/b/c/
?? a/outer.txt\n"
    );
}

#[test]
fn does_not_list_empty_untracked_dirs() {
    let index = Index::new();
    let workspace = vec![dir("outer", vec![])];
    assert_eq!(status_command(&index, &workspace), "");
}

#[test]
fn list_untracked_dirs_that_indirectly_contain_files() {
    let index = Index::new();
    let workspace = vec![dir("outer", vec![dir("outer/inner", vec![file("outer/inner/file.txt")])])];
    assert_eq!(status_command(&index, &workspace), "?? outer/\n");
}

#[test]
fn tracked_paths_include_parent_directories() {
    let mut index = Index::new();
    track(&mut index, "a/b/inner.txt");
    assert!(index.is_tracked_path("a/b/inner.txt"));
    assert!(index.is_tracked_path("a/b"));
    assert!(index.is_tracked_path("a"));
    assert!(!index.is_tracked_path("a/b/inner"));
    assert!(!index.is_tracked_path("a/c"));
    assert!(!index.is_tracked_path("b"));
    assert!(!index.is_tracked_path("a/b/inner.txt/x"));
}

#[test]
fn scan_keeps_workspace_order_and_sort_orders_by_bytes() {
    let index = Index::new();
    let workspace = vec![file("b"), file("a"), dir("Z", vec![file("Z/f")]), dir("empty", vec![])];
    assert!(is_trackable_path(&index, &workspace[2]));
    assert!(!is_trackable_path(&index, &workspace[3]));
    let found = scan_workspace(&index, &workspace);
    assert_eq!(found, vec!["b".to_string(), "a".to_string(), "Z/".to_string()]);
    let sorted = sort_paths(found);
    assert_eq!(sorted, vec!["Z/".to_string(), "a".to_string(), "b".to_string()]);
    assert_eq!(render_status(&sorted), "?? Z/\n?? a\n?? b\n");
    assert_eq!(sort_paths(vec!["b".to_string(), "a".to_string(), "b".to_string()]), vec!["a", "b", "b"]);
}

#[test]
fn second_writer_is_locked_out_until_release() {
    let mut artifact = LockArtifact::new();
    let mut first = Lockfile::new();
    let mut second = Lockfile::new();
    assert_eq!(first.hold_for_update(artifact.create_exclusive()), Ok(()));
    assert!(first.held());
    assert_eq!(second.hold_for_update(artifact.create_exclusive()), Err(LockError::LockHeld));
    assert!(!second.held());
    // The first writer stages and publishes; that gives the lock up.
    assert_eq!(first.write_bytes(b"new "), Ok(()));
    assert_eq!(first.write_bytes(b"content"), Ok(()));
    assert_eq!(first.commit(), Ok(b"new content".to_vec()));
    artifact.remove();
    assert!(!first.held());
    assert_eq!(second.hold_for_update(artifact.create_exclusive()), Ok(()));
    // Giving up without publishing releases as well.
    second.rollback();
    artifact.remove();
    assert_eq!(first.hold_for_update(artifact.create_exclusive()), Ok(()));
}

#[test]
fn lock_must_be_held_to_stage_or_publish() {
    let mut lock = Lockfile::new();
    assert_eq!(lock.write_bytes(b"x"), Err(LockError::LockIoFailure));
    assert_eq!(lock.commit(), Err(LockError::LockIoFailure));
    assert_eq!(lock.hold_for_update(CreateOutcome::Failed), Err(LockError::LockIoFailure));
    assert_eq!(lock.hold_for_update(CreateOutcome::Created), Ok(()));
    // A writer that holds the lock keeps it, whatever the artifact says.
    assert_eq!(lock.hold_for_update(CreateOutcome::AlreadyExists), Ok(()));
}

#[test]
fn load_for_update_needs_the_lock() {
    let mut source = Index::new();
    track(&mut source, "x");
    let content = source.write_updates(CreateOutcome::Created).unwrap();
    let mut index = Index::new();
    track(&mut index, "kept");
    assert_eq!(
        index.load_for_update(CreateOutcome::AlreadyExists, Some(&content)),
        Err(IndexError::Lock(LockError::LockHeld))
    );
    assert_eq!(index.len(), 1);
    assert!(index.changed());
    assert_eq!(index.load_for_update(CreateOutcome::Created, Some(&content)), Ok(()));
    assert_eq!(index.entry(0).path(), "x");
    assert!(!index.changed());
    assert_eq!(
        index.load_for_update(CreateOutcome::Created, Some(&content[..10])),
        Err(IndexError::Corrupt(CorruptIndex::MalformedHeader))
    );
    assert_eq!(index.len(), 0);
    assert_eq!(index.load_for_update(CreateOutcome::Created, None), Ok(()));
}

#[test]
fn diagnostics_render_as_error_and_hint_lines() {
    let a = ObjectId::from_bytes(&[0xaau8; 20]).unwrap();
    let b = ObjectId::from_bytes(&[0xabu8; 20]).unwrap();
    let errors = vec![
        Diagnostic::new(RevisionError::AmbiguousRevision, vec![a, b], "aaaa"),
        Diagnostic::new(RevisionError::UnresolvedRevision, vec![], "aaaa"),
    ];
    let expected = "error: Short object id is ambiguous in 'aaaa'.\n\
hint: The candidates are:\n\
hint:   aaaaaaaaaaaaaaaaaaaaaaaaaaaaaaaaaaaaaaaa\n\
hint:   abababababababababababababababababababab\n\
error: Not a valid object name: 'aaaa'.\n\n";
    assert_eq!(render_diagnostics(&errors), expected);
    assert_eq!(render_diagnostics(&vec![]), "\n");
}

#[test]
fn branch_command_creates_branches() {
    let mut store = ContentStore::new();
    let mut refs = Refs::new();
    let tree = store.put(ObjectKind::Tree, b"").unwrap();
    let c1 = store
        .put(ObjectKind::Commit, &Commit::new(tree, vec![], b"me", b"one").unwrap().to_bytes())
        .unwrap();
    let c2 = store
        .put(ObjectKind::Commit, &Commit::new(tree, vec![c1], b"me", b"two").unwrap().to_bytes())
        .unwrap();
    let args = |list: &[&str]| list.iter().map(|s| s.to_string()).collect::<Vec<String>>();
    assert_eq!(
        Branch::new(args(&["rug", "branch"])).run(&mut refs, &store),
        Err("no branch name provided".to_string())
    );
    assert_eq!(
        Branch::new(args(&["rug", "branch", "topic"])).run(&mut refs, &store),
        Err("empty HEAD".to_string())
    );
    refs.set(b"HEAD", RefValue::Id(c2));
    assert_eq!(Branch::new(args(&["rug", "branch", "topic"])).run(&mut refs, &store), Ok(()));
    assert_eq!(refs.read_ref(b"topic"), Some(c2));
    assert_eq!(Branch::new(args(&["rug", "branch", "older", "topic^"])).run(&mut refs, &store), Ok(()));
    assert_eq!(refs.read_ref(b"older"), Some(c1));
    assert_eq!(
        Branch::new(args(&["rug", "branch", "topic", "HEAD"])).run(&mut refs, &store),
        Err("A branch named 'topic' already exists.\n".to_string())
    );
    assert_eq!(
        Branch::new(args(&["rug", "branch", "bad..name", "HEAD"])).run(&mut refs, &store),
        Err("'bad..name' is not a valid branch name.\n".to_string())
    );
    assert_eq!(
        Branch::new(args(&["rug", "branch", "x", "HEAD~5"])).run(&mut refs, &store),
        Err("error: No such parent in 'HEAD~5'.\n\n".to_string())
    );
    assert!(refs.read_ref(b"x").is_none());
}

#[test]
fn acquire_and_release_follow_the_artifact() {
    let mut artifact = LockArtifact::new();
    let mut first = Lockfile::new();
    let mut second = Lockfile::new();
    assert!(!artifact.is_present());
    assert_eq!(first.acquire(&mut artifact), Ok(()));
    assert!(artifact.is_present());
    assert_eq!(second.acquire(&mut artifact), Err(LockError::LockHeld));
    // Taking the lock again, by the writer that holds it, changes nothing.
    assert_eq!(first.acquire(&mut artifact), Ok(()));
    // A writer that does not hold the lock cannot release it.
    assert_eq!(second.release(&mut artifact), None);
    assert!(artifact.is_present());
    assert_eq!(first.write_bytes(b"staged"), Ok(()));
    assert_eq!(first.release(&mut artifact), Some(b"staged".to_vec()));
    assert!(!artifact.is_present());
    assert!(!first.held());
    assert_eq!(second.acquire(&mut artifact), Ok(()));
    assert_eq!(second.release(&mut artifact), Some(vec![]));
}

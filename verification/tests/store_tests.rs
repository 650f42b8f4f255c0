use rug::commit::Commit;
use rug::envelope::{build_envelope, compute_id, read_envelope, ObjectKind};
use rug::object_id::ObjectId;
use rug::refs::{read_ref_file, write_ref_file, RefError, RefValue, Refs};
use rug::resolve::{resolve, RevisionError};
use rug::revision::{parse, Base, Operator};
use rug::store::{object_path, ContentStore, StoreError};
use rug::tree::{read_tree, serialize_tree, TreeEntry};
use rug::tree_diff::{compare, ChangeKind};

fn blob(store: &mut ContentStore, data: &[u8]) -> ObjectId {
    store.put(ObjectKind::Blob, data).unwrap()
}

fn tree(store: &mut ContentStore, entries: Vec<(u32, &str, ObjectId)>) -> ObjectId {
    let mut list = Vec::new();
    for (mode, name, oid) in entries {
        list.push(TreeEntry::new(mode, name.as_bytes(), oid).unwrap());
    }
    store.put(ObjectKind::Tree, &serialize_tree(&list)).unwrap()
}

fn commit(store: &mut ContentStore, tree: ObjectId, parents: Vec<ObjectId>, message: &str) -> ObjectId {
    let c = Commit::new(tree, parents, b"A. U. Thor <author@example.com>", message.as_bytes()).unwrap();
    store.put(ObjectKind::Commit, &c.to_bytes()).unwrap()
}

#[test]
fn envelope_has_kind_length_and_payload() {
    assert_eq!(build_envelope(ObjectKind::Blob, b"hello"), b"blob 5\0hello".to_vec());
    assert_eq!(build_envelope(ObjectKind::Tree, b""), b"tree 0\0".to_vec());
    assert_eq!(
        build_envelope(ObjectKind::Commit, b"0123456789ab"),
        b"commit 12\x000123456789ab".to_vec()
    );
    assert_eq!(read_envelope(b"blob 5\0hello"), Some((ObjectKind::Blob, b"hello".to_vec())));
    assert_eq!(read_envelope(b"blob 4\0hello"), None);
    assert_eq!(read_envelope(b"blob 05\0hello"), None);
    assert_eq!(read_envelope(b"tag 5\0hello"), None);
    assert_eq!(read_envelope(b"blob 5hello"), None);
}

#[test]
fn object_id_is_the_digest_of_the_envelope() {
    // The well-known id of the blob "hello world\n".
    let id = compute_id(ObjectKind::Blob, b"hello world\n");
    assert_eq!(id.to_hex(), "3b18e512dba79e4c8300dd08aeb37f8e728b8dad");
    // The well-known id of the empty tree.
    let empty = compute_id(ObjectKind::Tree, b"");
    assert_eq!(empty.to_hex(), "4b825dc642cb6eb9a060e54bf8d69288fbee4904");
}

#[test]
fn object_path_splits_the_hex_id() {
    let id = ObjectId::from_hex("3b18e512dba79e4c8300dd08aeb37f8e728b8dad").unwrap();
    let (dir, file) = object_path(&id);
    assert_eq!(dir, "3b");
    assert_eq!(file, "18e512dba79e4c8300dd08aeb37f8e728b8dad");
}

#[test]
fn put_then_get_gives_the_payload_back() {
    let mut store = ContentStore::new();
    let id = blob(&mut store, b"some content");
    assert!(store.contains(&id));
    assert_eq!(store.get(&id), Ok((ObjectKind::Blob, b"some content".to_vec())));
    assert_eq!(store.len(), 1);
    // The stored file is a compressed copy, not the envelope itself.
    assert_ne!(store.file_at(0), &build_envelope(ObjectKind::Blob, b"some content")[..]);
}

#[test]
fn put_is_idempotent() {
    let mut store = ContentStore::new();
    let a = blob(&mut store, b"same");
    let b = blob(&mut store, b"same");
    assert!(a.same(&b));
    assert_eq!(store.len(), 1);
    let c = store.put(ObjectKind::Tree, b"").unwrap();
    assert!(!a.same(&c));
    assert_eq!(store.len(), 2);
}

#[test]
fn get_reports_missing_and_corrupt_objects() {
    let mut store = ContentStore::new();
    let missing = ObjectId::from_bytes(&[7u8; 20]).unwrap();
    assert!(!store.contains(&missing));
    assert_eq!(store.get(&missing), Err(StoreError::ObjectNotFound));
    let garbage = ObjectId::from_bytes(&[8u8; 20]).unwrap();
    store.insert_file(garbage, b"this is no zlib stream".to_vec());
    assert_eq!(store.get(&garbage), Err(StoreError::ObjectCorrupt));
}

#[test]
fn keep_stores_only_what_decompresses_to_the_envelope() {
    let mut source = ContentStore::new();
    let id = source.put(ObjectKind::Blob, b"payload").unwrap();
    let compressed = source.file_at(0).to_vec();
    let envelope = build_envelope(ObjectKind::Blob, b"payload");
    let mut store = ContentStore::new();
    assert_eq!(store.keep(id, &envelope, None), Err(StoreError::CompressionFailed));
    assert_eq!(store.keep(id, &envelope, Some(vec![1, 2, 3])), Err(StoreError::CompressionFailed));
    assert_eq!(store.keep(id, &envelope, Some(envelope.clone())), Err(StoreError::CompressionFailed));
    assert_eq!(store.keep(id, b"blob 5\0other", Some(compressed.clone())), Err(StoreError::CompressionFailed));
    assert_eq!(store.len(), 0);
    assert_eq!(store.keep(id, &envelope, Some(compressed.clone())), Ok(id));
    assert_eq!(store.file_at(0), &compressed[..]);
    assert_eq!(store.get(&id), Ok((ObjectKind::Blob, b"payload".to_vec())));
}

#[test]
fn tree_payload_round_trips() {
    let a = ObjectId::from_bytes(&[1u8; 20]).unwrap();
    let b = ObjectId::from_bytes(&[2u8; 20]).unwrap();
    let entries = vec![
        TreeEntry::new(0o100644, b"file.txt", a).unwrap(),
        TreeEntry::new(0o40000, b"dir", b).unwrap(),
        TreeEntry::new(0o100755, b"run.sh", a).unwrap(),
    ];
    let bytes = serialize_tree(&entries);
    let mut expected = Vec::new();
    expected.extend_from_slice(b"100644 file.txt\0");
    expected.extend_from_slice(&[1u8; 20]);
    expected.extend_from_slice(b"40000 dir\0");
    expected.extend_from_slice(&[2u8; 20]);
    expected.extend_from_slice(b"100755 run.sh\0");
    expected.extend_from_slice(&[1u8; 20]);
    assert_eq!(bytes, expected);
    let back = read_tree(&bytes).unwrap();
    assert_eq!(back.len(), 3);
    assert_eq!(back[1].name(), b"dir");
    assert!(back[1].is_tree());
    assert_eq!(back[2].mode(), 0o100755);
    assert!(back[0].oid().same(&a));
}

#[test]
fn tree_payload_is_rejected_when_malformed() {
    assert!(read_tree(b"100644 a\0short").is_none());
    assert!(read_tree(b"120000 link\0aaaaaaaaaaaaaaaaaaaa").is_none());
    let mut twice = Vec::new();
    twice.extend_from_slice(b"100644 a\0");
    twice.extend_from_slice(&[1u8; 20]);
    twice.extend_from_slice(b"100644 a\0");
    twice.extend_from_slice(&[2u8; 20]);
    assert!(read_tree(&twice).is_none());
    assert!(TreeEntry::new(0o100644, b"a/b", ObjectId::from_bytes(&[1u8; 20]).unwrap()).is_none());
    assert!(TreeEntry::new(0o100644, b"", ObjectId::from_bytes(&[1u8; 20]).unwrap()).is_none());
    assert!(TreeEntry::new(0o120000, b"a", ObjectId::from_bytes(&[1u8; 20]).unwrap()).is_none());
}

#[test]
fn diff_of_a_tree_with_itself_is_empty() {
    let mut store = ContentStore::new();
    let f = blob(&mut store, b"f");
    let sub = tree(&mut store, vec![(0o100644, "inner.txt", f)]);
    let root = tree(&mut store, vec![(0o40000, "dir", sub), (0o100644, "file.txt", f)]);
    assert_eq!(compare(&store, Some(root), Some(root), b"").unwrap().len(), 0);
    assert_eq!(compare(&store, None, None, b"").unwrap().len(), 0);
}

#[test]
fn diff_finds_the_one_modified_file() {
    let mut store = ContentStore::new();
    let f1 = blob(&mut store, b"one");
    let f2 = blob(&mut store, b"two");
    let other = blob(&mut store, b"other");
    let sub_a = tree(&mut store, vec![(0o100644, "inner.txt", f1), (0o100644, "same.txt", other)]);
    let sub_b = tree(&mut store, vec![(0o100644, "inner.txt", f2), (0o100644, "same.txt", other)]);
    let a = tree(&mut store, vec![(0o40000, "dir", sub_a), (0o100644, "top.txt", other)]);
    let b = tree(&mut store, vec![(0o40000, "dir", sub_b), (0o100644, "top.txt", other)]);
    let changes = compare(&store, Some(a), Some(b), b"").unwrap();
    assert_eq!(changes.len(), 1);
    assert_eq!(changes[0].path(), b"dir/inner.txt");
    assert_eq!(changes[0].kind(), Some(ChangeKind::Modified));
    let (old_mode, old_id) = changes[0].old_side().unwrap();
    let (new_mode, new_id) = changes[0].new_side().unwrap();
    assert_eq!((old_mode, new_mode), (0o100644, 0o100644));
    assert!(old_id.same(&f1) && new_id.same(&f2));
}

#[test]
fn diff_against_nothing_adds_or_removes_every_entry() {
    let mut store = ContentStore::new();
    let f = blob(&mut store, b"f");
    let g = blob(&mut store, b"g");
    let t = tree(&mut store, vec![(0o100644, "a.txt", f), (0o100755, "b.sh", g)]);
    let added = compare(&store, None, Some(t), b"pre").unwrap();
    assert_eq!(added.len(), 2);
    assert_eq!(added[0].path(), b"pre/a.txt");
    assert_eq!(added[1].path(), b"pre/b.sh");
    assert!(added.iter().all(|c| c.kind() == Some(ChangeKind::Added)));
    assert!(added[1].new_side().unwrap().1.same(&g));
    let removed = compare(&store, Some(t), None, b"").unwrap();
    assert_eq!(removed.len(), 2);
    assert_eq!(removed[0].path(), b"a.txt");
    assert!(removed.iter().all(|c| c.kind() == Some(ChangeKind::Removed)));
}

#[test]
fn diff_treats_file_against_directory_as_replacement() {
    let mut store = ContentStore::new();
    let f = blob(&mut store, b"f");
    let sub = tree(&mut store, vec![(0o100644, "inner", f)]);
    let a = tree(&mut store, vec![(0o100644, "x", f)]);
    let b = tree(&mut store, vec![(0o40000, "x", sub)]);
    let changes = compare(&store, Some(a), Some(b), b"").unwrap();
    assert_eq!(changes.len(), 2);
    assert_eq!(changes[0].kind(), Some(ChangeKind::Removed));
    assert_eq!(changes[1].kind(), Some(ChangeKind::Added));
    assert_eq!(changes[0].path(), b"x");
    assert_eq!(changes[1].path(), b"x");
}

#[test]
fn diff_fails_on_a_missing_tree() {
    let store = ContentStore::new();
    let missing = ObjectId::from_bytes(&[3u8; 20]).unwrap();
    assert_eq!(compare(&store, Some(missing), None, b"").err(), Some(StoreError::ObjectNotFound));
}

#[test]
fn commit_payload_round_trips() {
    let t = ObjectId::from_bytes(&[0x11u8; 20]).unwrap();
    let p = ObjectId::from_bytes(&[0xabu8; 20]).unwrap();
    let c = Commit::new(t, vec![p], b"me", b"message\nbody").unwrap();
    let bytes = c.to_bytes();
    let mut expected = String::new();
    expected.push_str("tree 1111111111111111111111111111111111111111\n");
    expected.push_str("parent abababababababababababababababababababab\n");
    expected.push_str("author me\n\nmessage\nbody");
    assert_eq!(bytes, expected.as_bytes());
    let back = Commit::parse(&bytes).unwrap();
    assert!(back.tree().same(&t));
    assert_eq!(back.parents().len(), 1);
    assert!(back.parents()[0].same(&p));
    assert_eq!(back.author(), b"me");
    assert_eq!(back.message(), b"message\nbody");
    assert!(Commit::new(t, vec![], b"two\nlines", b"").is_none());
    assert!(Commit::parse(b"tree 11\n").is_none());
}

#[test]
fn revision_expressions_parse() {
    let e = parse(b"HEAD").unwrap();
    assert!(matches!(e.base, Base::Head));
    assert!(e.operators.is_empty());
    let e = parse(b"master^^2~10").unwrap();
    assert!(matches!(e.base, Base::Ref(ref n) if n == b"master"));
    assert_eq!(e.operators, vec![Operator::Parent, Operator::ParentN(2), Operator::AncestorN(10)]);
    let e = parse(b"abcd12").unwrap();
    assert!(matches!(e.base, Base::ObjectId(ref n) if n == b"abcd12"));
    let e = parse(b"abc").unwrap();
    assert!(matches!(e.base, Base::Ref(_)));
    assert!(parse(b"").is_none());
    assert!(parse(b"^").is_none());
    assert!(parse(b"HEAD~").is_none());
    assert!(parse(b"HEAD^x").is_none());
    assert!(parse(b"HEAD~4294967296").is_none());
    assert_eq!(parse(b"HEAD~4294967295").unwrap().operators, vec![Operator::AncestorN(4294967295)]);
    assert_eq!(parse(b"HEAD^007").unwrap().operators, vec![Operator::ParentN(7)]);
}

#[test]
fn head_and_ancestors_resolve() {
    let mut store = ContentStore::new();
    let mut refs = Refs::new();
    let t = tree(&mut store, vec![]);
    let c1 = commit(&mut store, t, vec![], "first");
    let c2 = commit(&mut store, t, vec![c1], "second");
    refs.set(b"HEAD", RefValue::Symbolic(b"refs/heads/master".to_vec()));
    refs.update_ref(b"refs/heads/master", c2);
    assert!(resolve(&store, &refs, "HEAD").unwrap().same(&c2));
    assert!(resolve(&store, &refs, "HEAD~1").unwrap().same(&c1));
    assert!(resolve(&store, &refs, "HEAD^").unwrap().same(&c1));
    assert!(resolve(&store, &refs, "master^1").unwrap().same(&c1));
    assert!(resolve(&store, &refs, "HEAD~0").unwrap().same(&c2));
    assert!(resolve(&store, &refs, &c2.to_hex()).unwrap().same(&c2));
    let errors = resolve(&store, &refs, "HEAD~2").unwrap_err();
    assert_eq!(errors.len(), 1);
    assert_eq!(errors[0].kind(), RevisionError::InvalidParent);
    assert_eq!(errors[0].message(), "No such parent in 'HEAD~2'.");
    let errors = resolve(&store, &refs, "HEAD^2^0").unwrap_err();
    assert_eq!(errors.len(), 2);
    let errors = resolve(&store, &refs, "nothing").unwrap_err();
    assert_eq!(errors[0].kind(), RevisionError::UnresolvedRevision);
    assert_eq!(errors[0].message(), "Not a valid object name: 'nothing'.");
    assert!(errors[0].hint().is_empty());
    let errors = resolve(&store, &refs, "HEAD~").unwrap_err();
    assert_eq!(errors[0].kind(), RevisionError::UnresolvedRevision);
}

#[test]
fn ambiguous_abbreviation_names_both_candidates() {
    let mut store = ContentStore::new();
    let refs = Refs::new();
    // Find two blobs whose ids share their first four hexadecimal digits.
    let mut seen: std::collections::HashMap<String, ObjectId> = std::collections::HashMap::new();
    let mut pair = None;
    for n in 0u32..200_000 {
        let data = format!("blob number {}", n);
        let id = compute_id(ObjectKind::Blob, data.as_bytes());
        let short = id.to_hex()[..4].to_string();
        if let Some(first) = seen.get(&short) {
            pair = Some((*first, id, short));
            store.put(ObjectKind::Blob, data.as_bytes()).unwrap();
            break;
        }
        seen.insert(short, id);
    }
    let (first, second, short) = pair.unwrap();
    // Store the first of the pair as well.
    for n in 0u32..200_000 {
        let data = format!("blob number {}", n);
        if compute_id(ObjectKind::Blob, data.as_bytes()).same(&first) {
            store.put(ObjectKind::Blob, data.as_bytes()).unwrap();
            break;
        }
    }
    assert_eq!(store.len(), 2);
    let errors = resolve(&store, &refs, &short).unwrap_err();
    assert_eq!(errors.len(), 1);
    assert_eq!(errors[0].kind(), RevisionError::AmbiguousRevision);
    let candidates = errors[0].candidates();
    assert_eq!(candidates.len(), 2);
    assert!(candidates.iter().any(|c| c.same(&first)));
    assert!(candidates.iter().any(|c| c.same(&second)));
    assert_eq!(errors[0].hint().len(), 3);
    assert_eq!(errors[0].hint()[0], "The candidates are:");
    // A longer abbreviation that tells them apart resolves.
    let full = first.to_hex();
    assert!(resolve(&store, &refs, &full).unwrap().same(&first));
}

#[test]
fn ref_files_parse() {
    assert!(matches!(read_ref_file(b"ref: refs/heads/master\n"), Some(RefValue::Symbolic(ref n)) if n == b"refs/heads/master"));
    assert!(matches!(read_ref_file(b"3b18e512dba79e4c8300dd08aeb37f8e728b8dad\n"), Some(RefValue::Id(_))));
    assert!(read_ref_file(b"ref: ").is_none());
    assert!(read_ref_file(b"not an id").is_none());
    let id = ObjectId::from_hex("3b18e512dba79e4c8300dd08aeb37f8e728b8dad").unwrap();
    assert_eq!(write_ref_file(&RefValue::Id(id)), b"3b18e512dba79e4c8300dd08aeb37f8e728b8dad\n".to_vec());
    let symbolic = write_ref_file(&RefValue::Symbolic(b"refs/heads/master".to_vec()));
    assert_eq!(symbolic, b"ref: refs/heads/master\n".to_vec());
    assert!(matches!(read_ref_file(&symbolic), Some(RefValue::Symbolic(ref n)) if n == b"refs/heads/master"));
    assert!(matches!(read_ref_file(&write_ref_file(&RefValue::Id(id))), Some(RefValue::Id(back)) if back == id));
}

#[test]
fn branches_are_created_once_with_valid_names() {
    let mut refs = Refs::new();
    let id = ObjectId::from_bytes(&[5u8; 20]).unwrap();
    assert_eq!(refs.create_branch(b"topic", id), Ok(()));
    assert!(refs.read_ref(b"topic").unwrap().same(&id));
    assert!(refs.read_ref(b"refs/heads/topic").unwrap().same(&id));
    assert_eq!(refs.create_branch(b"topic", id), Err(RefError::BranchExists));
    for bad in [&b""[..], b".hidden", b"a..b", b"a b", b"end/", b"x.lock", b"a^b", b"/abs", b"a@{b"] {
        assert_eq!(refs.create_branch(bad, id), Err(RefError::InvalidBranchName));
    }
    assert!(refs.read_head().is_none());
}

#[test]
fn operators_on_missing_or_foreign_objects_are_diagnosed() {
    let mut store = ContentStore::new();
    let mut refs = Refs::new();
    let b = blob(&mut store, b"just a blob");
    refs.set(b"refs/heads/blobby", RefValue::Id(b));
    refs.set(b"refs/heads/gone", RefValue::Id(ObjectId::from_bytes(&[0x42u8; 20]).unwrap()));
    // Without operators the id is given as the ref holds it.
    assert!(resolve(&store, &refs, "blobby").unwrap().same(&b));
    let errors = resolve(&store, &refs, "blobby^").unwrap_err();
    assert_eq!(errors.len(), 1);
    assert_eq!(errors[0].kind(), RevisionError::ObjectCorrupt);
    assert_eq!(errors[0].message(), "Not a readable commit for 'blobby^'.");
    let errors = resolve(&store, &refs, "gone~3").unwrap_err();
    assert_eq!(errors[0].kind(), RevisionError::ObjectNotFound);
    assert_eq!(errors[0].message(), "Object not found for 'gone~3'.");
    let errors = resolve(&store, &refs, "deadbeef").unwrap_err();
    assert_eq!(errors[0].kind(), RevisionError::UnresolvedRevision);
    // A failed base and an operator that nothing can satisfy are both reported.
    let errors = resolve(&store, &refs, "deadbeef^0~1^0").unwrap_err();
    let kinds: Vec<RevisionError> = errors.iter().map(|e| e.kind()).collect();
    assert_eq!(
        kinds,
        vec![RevisionError::UnresolvedRevision, RevisionError::InvalidParent, RevisionError::InvalidParent]
    );
}

#[test]
fn merge_parents_are_counted_from_one() {
    let mut store = ContentStore::new();
    let mut refs = Refs::new();
    let t = tree(&mut store, vec![]);
    let left = commit(&mut store, t, vec![], "left");
    let right = commit(&mut store, t, vec![], "right");
    let merge = commit(&mut store, t, vec![left, right], "merge");
    refs.set(b"HEAD", RefValue::Id(merge));
    assert!(resolve(&store, &refs, "HEAD^1").unwrap().same(&left));
    assert!(resolve(&store, &refs, "HEAD^2").unwrap().same(&right));
    assert!(resolve(&store, &refs, "HEAD~1").unwrap().same(&left));
    assert_eq!(resolve(&store, &refs, "HEAD^3").unwrap_err()[0].kind(), RevisionError::InvalidParent);
    assert_eq!(resolve(&store, &refs, "HEAD^0").unwrap_err()[0].kind(), RevisionError::InvalidParent);
    assert_eq!(resolve(&store, &refs, "HEAD^2^").unwrap_err()[0].kind(), RevisionError::InvalidParent);
    // An abbreviation of one stored object resolves to it.
    let short = merge.to_hex()[..7].to_string();
    assert!(resolve(&store, &refs, &short).unwrap().same(&merge));
    assert!(resolve(&store, &refs, &format!("{}^2", short.to_uppercase())).unwrap().same(&right));
}

#[test]
fn symbolic_refs_are_followed_but_not_in_circles() {
    let mut refs = Refs::new();
    let id = ObjectId::from_bytes(&[6u8; 20]).unwrap();
    refs.set(b"HEAD", RefValue::Symbolic(b"refs/heads/main".to_vec()));
    assert!(refs.read_head().is_none());
    refs.update_ref(b"refs/heads/main", id);
    assert_eq!(refs.read_head(), Some(id));
    assert_eq!(refs.read_ref(b"heads/main"), Some(id));
    assert_eq!(refs.read_ref(b"main"), Some(id));
    refs.set(b"a", RefValue::Symbolic(b"b".to_vec()));
    refs.set(b"b", RefValue::Symbolic(b"a".to_vec()));
    assert!(refs.read_ref(b"a").is_none());
}

#[test]
fn diff_reports_changes_of_mode_and_additions_beside_removals() {
    let mut store = ContentStore::new();
    let f = blob(&mut store, b"f");
    let g = blob(&mut store, b"g");
    let a = tree(&mut store, vec![(0o100644, "keep", f), (0o100644, "mode", f), (0o100644, "gone", g)]);
    let b = tree(&mut store, vec![(0o100644, "keep", f), (0o100755, "mode", f), (0o100644, "new", g)]);
    let changes = compare(&store, Some(a), Some(b), b"").unwrap();
    let seen: Vec<(Vec<u8>, Option<ChangeKind>)> =
        changes.iter().map(|c| (c.path().to_vec(), c.kind())).collect();
    assert_eq!(
        seen,
        vec![
            (b"mode".to_vec(), Some(ChangeKind::Modified)),
            (b"gone".to_vec(), Some(ChangeKind::Removed)),
            (b"new".to_vec(), Some(ChangeKind::Added)),
        ]
    );
    assert!(changes[1].new_side().is_none());
    assert!(changes[2].old_side().is_none());
}

#[test]
fn diff_fails_on_objects_that_are_no_trees() {
    let mut store = ContentStore::new();
    let f = blob(&mut store, b"f");
    assert_eq!(compare(&store, Some(f), None, b"").err(), Some(StoreError::ObjectCorrupt));
    let bad = store.put(ObjectKind::Tree, b"not a tree payload").unwrap();
    assert_eq!(compare(&store, None, Some(bad), b"").err(), Some(StoreError::ObjectCorrupt));
    // A subdirectory that the store lacks fails the comparison.
    let missing = ObjectId::from_bytes(&[0x77u8; 20]).unwrap();
    let a = tree(&mut store, vec![(0o40000, "sub", missing)]);
    let other = tree(&mut store, vec![]);
    let b = tree(&mut store, vec![(0o40000, "sub", other)]);
    assert_eq!(compare(&store, Some(a), Some(b), b"").err(), Some(StoreError::ObjectNotFound));
}

#[test]
fn prefix_search_finds_every_match_in_store_order() {
    let mut store = ContentStore::new();
    let a = ObjectId::from_hex("abcd000000000000000000000000000000000001").unwrap();
    let b = ObjectId::from_hex("abce000000000000000000000000000000000002").unwrap();
    let c = ObjectId::from_hex("abcd100000000000000000000000000000000003").unwrap();
    for id in [a, b, c] {
        store.insert_file(id, vec![]);
    }
    assert_eq!(store.find_by_prefix(b"abcd"), vec![a, c]);
    assert_eq!(store.find_by_prefix(b"abc"), vec![a, b, c]);
    assert_eq!(store.find_by_prefix(b"abcd1"), vec![c]);
    assert_eq!(store.find_by_prefix(b"ABCE"), vec![b]);
    assert!(store.find_by_prefix(b"abcf").is_empty());
    assert!(store.id_at(1).same(&b));
}

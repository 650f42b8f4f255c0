use rug::checksum::Checksum;
use rug::entry::{Entry, FileStat};
use rug::index::{Index, IndexError};
use rug::index_format::CorruptIndex;
use rug::lock::{CreateOutcome, LockError, LockedPath};
use rug::object_id::ObjectId;

fn stat(mode: u32, size: u64) -> FileStat {
    FileStat {
        ctime: 1_600_000_000,
        ctime_nsec: 123,
        mtime: 1_600_000_001,
        mtime_nsec: 456,
        dev: 64769,
        ino: 1_234_567,
        mode,
        uid: 1000,
        gid: 1000,
        size,
    }
}

fn oid(fill: u8) -> ObjectId {
    ObjectId::from_bytes(&[fill; 20]).unwrap()
}

fn listing(index: &Index) -> Vec<(u32, String)> {
    let mut out = Vec::new();
    for i in 0..index.len() {
        out.push((index.entry(i).file_mode(), index.entry(i).path().to_string()));
    }
    out
}

#[test]
fn entry_mode_follows_owner_execute_bit() {
    assert!(Entry::is_executable(0o100755));
    assert!(Entry::is_executable(0o100744));
    assert!(!Entry::is_executable(0o100644));
    assert!(!Entry::is_executable(0o100655));
    assert_eq!(Entry::mode(0o100744), 0o100755);
    assert_eq!(Entry::mode(0o100600), 0o100644);
}

#[test]
fn entry_to_bytes_has_exact_layout() {
    let e = Entry::new("a.txt", oid(0xab), &stat(0o100644, 5));
    let bytes = e.to_bytes();
    assert_eq!(bytes.len(), 72);
    assert_eq!(&bytes[0..4], &1_600_000_000u32.to_be_bytes());
    assert_eq!(&bytes[4..8], &123u32.to_be_bytes());
    assert_eq!(&bytes[8..12], &1_600_000_001u32.to_be_bytes());
    assert_eq!(&bytes[12..16], &456u32.to_be_bytes());
    assert_eq!(&bytes[16..20], &64769u32.to_be_bytes());
    assert_eq!(&bytes[20..24], &1_234_567u32.to_be_bytes());
    assert_eq!(&bytes[24..28], &0o100644u32.to_be_bytes());
    assert_eq!(&bytes[28..32], &1000u32.to_be_bytes());
    assert_eq!(&bytes[32..36], &1000u32.to_be_bytes());
    assert_eq!(&bytes[36..40], &5u32.to_be_bytes());
    assert_eq!(&bytes[40..60], &[0xabu8; 20]);
    assert_eq!(&bytes[60..62], &[0u8, 5u8]);
    assert_eq!(&bytes[62..67], b"a.txt");
    assert_eq!(&bytes[67..72], &[0u8; 5]);
}

#[test]
fn write_then_load_round_trips() {
    for n in [0usize, 1, 5] {
        let mut index = Index::new();
        let names = ["zeta", "alpha/beta.rs", "m", "a-very-long-path/with/many/segments/file.txt", "b"];
        for name in names.iter().take(n) {
            index.add(name, oid(name.len() as u8), &stat(0o100755, name.len() as u64));
        }
        let before = listing(&index);
        let content = index.write_updates(CreateOutcome::Created).unwrap();
        let mut loaded = Index::new();
        assert_eq!(loaded.load(Some(&content)), Ok(()));
        assert_eq!(listing(&loaded), before);
        assert_eq!(loaded.len(), n);
    }
}

#[test]
fn flipping_a_byte_is_detected() {
    let mut index = Index::new();
    index.add("file.txt", oid(1), &stat(0o100644, 1));
    index.add("dir/other.txt", oid(2), &stat(0o100644, 2));
    let content = index.write_updates(CreateOutcome::Created).unwrap();
    for at in 0..content.len() {
        let mut changed = content.clone();
        changed[at] ^= 0x01;
        let mut loaded = Index::new();
        let expected = if at < 4 {
            CorruptIndex::MalformedHeader
        } else if at < 8 {
            CorruptIndex::UnsupportedVersion
        } else {
            CorruptIndex::ChecksumMismatch
        };
        assert_eq!(loaded.load(Some(&changed)), Err(expected));
        assert_eq!(loaded.len(), 0);
    }
}

#[test]
fn lock_held_by_another_writer_stops_the_write() {
    let mut index = Index::new();
    index.add("file.txt", oid(1), &stat(0o100644, 1));
    assert_eq!(index.write_updates(CreateOutcome::AlreadyExists), Err(LockError::LockHeld));
}

#[test]
fn second_add_for_a_path_replaces_the_first() {
    let mut index = Index::new();
    index.add("other", oid(9), &stat(0o100644, 1));
    index.add("file.txt", oid(1), &stat(0o100644, 10));
    index.add("file.txt", oid(2), &stat(0o100755, 20));
    assert_eq!(index.len(), 2);
    assert_eq!(listing(&index), vec![(0o100755, "file.txt".to_string()), (0o100644, "other".to_string())]);
    let e = index.entry(0);
    assert_eq!(e.size(), 20);
    assert!(e.oid().same(&oid(2)));
    assert!(index.changed());
    assert!(!Index::new().changed());
}

#[test]
fn entries_stay_sorted_by_path_bytes() {
    let mut index = Index::new();
    for name in ["b", "a/b", "a", "a.txt", "B", "a-b"] {
        index.add(name, oid(1), &stat(0o100644, 0));
    }
    let names: Vec<String> = listing(&index).into_iter().map(|(_, p)| p).collect();
    assert_eq!(names, vec!["B", "a", "a-b", "a.txt", "a/b", "b"]);
}

#[test]
fn serialization_does_not_depend_on_insertion_order() {
    let names = ["one", "two", "three/four", "five"];
    let mut forward = Index::new();
    for name in names.iter() {
        forward.add(name, oid(name.len() as u8), &stat(0o100644, 3));
    }
    let mut backward = Index::new();
    for name in names.iter().rev() {
        backward.add(name, oid(name.len() as u8), &stat(0o100644, 3));
    }
    assert_eq!(
        forward.write_updates(CreateOutcome::Created).unwrap(),
        backward.write_updates(CreateOutcome::Created).unwrap()
    );
}

#[test]
fn empty_index_file_is_header_and_checksum() {
    let content = Index::new().write_updates(CreateOutcome::Created).unwrap();
    assert_eq!(content.len(), 32);
    assert_eq!(&content[0..12], b"DIRC\x00\x00\x00\x02\x00\x00\x00\x00");
    // The digest of the twelve header bytes, as any SHA-1 tool gives it.
    let hex: String = content[12..].iter().map(|b| format!("{:02x}", b)).collect();
    assert_eq!(hex, "39d890139ee5356c7ef572216cebcd27aa41f9df");
    assert_eq!(Index::read_header(&content), Ok(0));
}

#[test]
fn entry_length_is_padded_to_a_multiple_of_eight() {
    for (len, total) in [(0usize, 64usize), (1, 64), (2, 72), (9, 72), (10, 80), (17, 80), (18, 88)] {
        let path = "p".repeat(len);
        let e = Entry::new(&path, oid(1), &stat(0o100644, 0));
        let bytes = e.to_bytes();
        assert_eq!(bytes.len(), total, "path of {} bytes", len);
        assert!(bytes[62 + len..].iter().all(|b| *b == 0));
        let back = Entry::parse(&bytes).unwrap();
        assert_eq!(back.path(), path);
    }
}

#[test]
fn flags_hold_the_path_length_up_to_0xfff() {
    assert_eq!(Entry::new("abc", oid(1), &stat(0o100644, 0)).flags(), 3);
    let long = "x".repeat(0xffe);
    assert_eq!(Entry::new(&long, oid(1), &stat(0o100644, 0)).flags(), 0xffe);
    let longer = "x".repeat(0x1000);
    let e = Entry::new(&longer, oid(1), &stat(0o100644, 0));
    assert_eq!(e.flags(), 0xfff);
    let bytes = e.to_bytes();
    assert_eq!(&bytes[60..62], &[0x0fu8, 0xffu8]);
    assert_eq!(Entry::parse(&bytes).unwrap().path(), longer);
    let much_longer = "y".repeat(70_000);
    assert_eq!(Entry::new(&much_longer, oid(1), &stat(0o100644, 0)).flags(), 0xfff);
}

#[test]
fn metadata_is_cut_to_32_bits() {
    let wide = FileStat {
        ctime: 0x1_0000_0005,
        ctime_nsec: -1,
        mtime: 0x7fff_ffff_ffff_ffff,
        mtime_nsec: 999_999_999,
        dev: 0xffff_ffff_0000_0001,
        ino: 0x1_2345_6789,
        mode: 0o100700,
        uid: 0xffff_ffff,
        gid: 7,
        size: 0x2_0000_0003,
    };
    let e = Entry::new("f", oid(3), &wide);
    assert_eq!(e.ctime(), 5);
    assert_eq!(e.ctime_nsec(), 0xffff_ffff);
    assert_eq!(e.mtime(), 0xffff_ffff);
    assert_eq!(e.mtime_nsec(), 999_999_999);
    assert_eq!(e.dev(), 1);
    assert_eq!(e.ino(), 0x2345_6789);
    assert_eq!(e.file_mode(), 0o100755);
    assert_eq!(e.uid(), 0xffff_ffff);
    assert_eq!(e.gid(), 7);
    assert_eq!(e.size(), 3);
    let back = Entry::parse(&e.to_bytes()).unwrap();
    assert_eq!(back.to_bytes(), e.to_bytes());
    assert_eq!(back.ino(), 0x2345_6789);
}

#[test]
fn entry_blocks_are_rejected_unless_well_formed() {
    let good = Entry::new("name", oid(1), &stat(0o100644, 0)).to_bytes();
    assert!(Entry::parse(&good).is_some());
    assert!(Entry::parse(&good[..63]).is_none());
    let mut no_end = good.clone();
    for b in no_end[62..].iter_mut() {
        *b = b'x';
    }
    assert!(Entry::parse(&no_end).is_none());
    let mut symlink = good.clone();
    symlink[24..28].copy_from_slice(&0o120000u32.to_be_bytes());
    assert!(Entry::parse(&symlink).is_none());
    let mut not_utf8 = good.clone();
    not_utf8[62] = 0xff;
    assert!(Entry::parse(&not_utf8).is_none());
    let umlaut = Entry::new("gr\u{fc}n", oid(1), &stat(0o100644, 0));
    assert_eq!(Entry::parse(&umlaut.to_bytes()).unwrap().path(), "gr\u{fc}n");
}

fn file_with(version: u32, count: u32, entries: &[Vec<u8>]) -> Vec<u8> {
    let mut file = Checksum::new();
    file.write(b"DIRC");
    file.write(&version.to_be_bytes());
    file.write(&count.to_be_bytes());
    for e in entries {
        file.write(e);
    }
    file.write_checksum();
    file.into_bytes()
}

#[test]
fn load_names_each_kind_of_corruption() {
    let a = Entry::new("a", oid(1), &stat(0o100644, 0)).to_bytes();
    let b = Entry::new("b", oid(2), &stat(0o100644, 0)).to_bytes();
    let mut index = Index::new();
    assert_eq!(index.load(Some(&file_with(2, 2, &[a.clone(), b.clone()]))), Ok(()));
    assert_eq!(index.len(), 2);
    assert_eq!(index.load(Some(b"DIRC")), Err(CorruptIndex::MalformedHeader));
    assert_eq!(index.len(), 0);
    assert_eq!(index.load(Some(b"")), Err(CorruptIndex::MalformedHeader));
    let mut wrong_signature = file_with(2, 0, &[]);
    wrong_signature[0] = b'X';
    assert_eq!(index.load(Some(&wrong_signature)), Err(CorruptIndex::MalformedHeader));
    assert_eq!(index.load(Some(&file_with(3, 0, &[]))), Err(CorruptIndex::UnsupportedVersion));
    assert_eq!(index.load(Some(&file_with(1, 0, &[]))), Err(CorruptIndex::UnsupportedVersion));
    assert_eq!(Index::read_header(&file_with(3, 0, &[])), Err(CorruptIndex::UnsupportedVersion));
    assert_eq!(index.load(Some(b"DIRC\x00\x00\x00\x02\x00\x00\x00\x00")), Err(CorruptIndex::ChecksumMismatch));
    let mut truncated = file_with(2, 1, &[a.clone()]);
    truncated.pop();
    assert_eq!(index.load(Some(&truncated)), Err(CorruptIndex::ChecksumMismatch));
    // The digest holds, but the entries are not what the header announces.
    assert_eq!(index.load(Some(&file_with(2, 2, &[a.clone()]))), Err(CorruptIndex::MalformedEntry));
    assert_eq!(index.load(Some(&file_with(2, 1, &[a.clone(), b.clone()]))), Err(CorruptIndex::MalformedEntry));
    assert_eq!(index.load(Some(&file_with(2, 1, &[a[..56].to_vec()]))), Err(CorruptIndex::MalformedEntry));
    let mut not_utf8 = a.clone();
    not_utf8[62] = 0xff;
    assert_eq!(index.load(Some(&file_with(2, 1, &[not_utf8]))), Err(CorruptIndex::MalformedEntry));
    assert_eq!(index.len(), 0);
    assert!(!index.changed());
}

#[test]
fn load_sorts_entries_and_keeps_the_last_of_a_path() {
    let a = Entry::new("a", oid(1), &stat(0o100644, 0)).to_bytes();
    let b = Entry::new("b", oid(2), &stat(0o100644, 0)).to_bytes();
    let a_again = Entry::new("a", oid(3), &stat(0o100755, 0)).to_bytes();
    let mut index = Index::new();
    assert_eq!(index.load(Some(&file_with(2, 3, &[b, a, a_again]))), Ok(()));
    assert_eq!(listing(&index), vec![(0o100755, "a".to_string()), (0o100644, "b".to_string())]);
    assert!(index.entry(0).oid().same(&oid(3)));
}

#[test]
fn missing_index_file_loads_as_empty() {
    let mut index = Index::new();
    index.add("x", oid(1), &stat(0o100644, 0));
    assert_eq!(index.load(None), Ok(()));
    assert_eq!(index.len(), 0);
    assert!(!index.changed());
}

#[test]
fn checksum_covers_all_that_was_written() {
    let mut file = Checksum::new();
    file.write(b"hello ");
    file.write(b"world");
    file.write_checksum();
    let bytes = file.into_bytes();
    assert_eq!(&bytes[..11], b"hello world");
    let hex: String = bytes[11..].iter().map(|b| format!("{:02x}", b)).collect();
    assert_eq!(hex, "2aae6c35c94fcfb415dbe95f408b9ce91ee846ed");
    assert!(Checksum::verify_checksum(&bytes));
    assert!(!Checksum::verify_checksum(&bytes[..30]));
    assert!(!Checksum::verify_checksum(b"short"));
}

#[test]
fn write_steps_build_the_file() {
    let mut index = Index::new();
    assert_eq!(index.load_for_update(CreateOutcome::Created, None), Ok(()));
    index.begin_write();
    index.write(b"abc");
    index.write(b"def");
    let content = index.finish_write().unwrap();
    assert_eq!(&content[..6], b"abcdef");
    assert_eq!(content.len(), 26);
    assert!(Checksum::verify_checksum(&content));
    // The lock went with the write.
    index.begin_write();
    index.write(b"x");
    assert_eq!(index.finish_write(), Err(LockError::LockIoFailure));
}

#[test]
fn object_ids_read_and_write_hex() {
    let text = "3b18e512dba79e4c8300dd08aeb37f8e728b8dad";
    let id = ObjectId::from_hex(text).unwrap();
    assert_eq!(id.to_hex(), text);
    assert_eq!(id.to_vec()[0], 0x3b);
    assert_eq!(id.byte(19), 0xad);
    assert_eq!(ObjectId::from_hex(&text.to_uppercase()).unwrap(), id);
    assert_eq!(ObjectId::from_hex_bytes(text.as_bytes()).unwrap(), id);
    assert_eq!(id.to_hex_bytes(), text.as_bytes());
    assert!(ObjectId::from_hex(&text[..39]).is_none());
    assert!(ObjectId::from_hex("3b18e512dba79e4c8300dd08aeb37f8e728b8dag").is_none());
    assert!(ObjectId::from_hex("3b18e512dba79e4c8300dd08aeb37f8e728b8d\u{e4}").is_none());
    assert!(ObjectId::from_bytes(&[0u8; 19]).is_none());
    assert!(id.starts_with_hex(b"3b18"));
    assert!(id.starts_with_hex(b"3B18e"));
    assert!(id.starts_with_hex(b""));
    assert!(!id.starts_with_hex(b"3b19"));
    assert!(!id.starts_with_hex(b"3b1g"));
    assert!(!id.starts_with_hex(b"3b18e512dba79e4c8300dd08aeb37f8e728b8dad0"));
}

#[test]
fn write_at_a_locked_path_fails_and_leaves_the_path_alone() {
    let mut path = LockedPath::new();
    let mut first = Index::new();
    first.add("published", oid(1), &stat(0o100644, 1));
    assert_eq!(first.write_updates_at(&mut path), Ok(()));
    let published = path.read().unwrap().to_vec();
    assert!(!path.is_locked());

    // Another writer takes the lock of the path.
    assert_eq!(path.create_exclusive(), CreateOutcome::Created);
    let mut second = Index::new();
    second.add("other", oid(2), &stat(0o100644, 2));
    assert_eq!(second.write_updates_at(&mut path), Err(LockError::LockHeld));
    assert_eq!(path.read().unwrap(), &published[..]);
    assert!(path.is_locked());
    let mut third = Index::new();
    assert_eq!(third.load_for_update_at(&mut path), Err(IndexError::Lock(LockError::LockHeld)));
    assert_eq!(third.len(), 0);
    assert!(path.is_locked());

    // Once the lock is free again, the next writer succeeds.
    path.unlock();
    assert_eq!(path.read().unwrap(), &published[..]);
    let mut fourth = Index::new();
    fourth.add("other", oid(2), &stat(0o100644, 2));
    assert_eq!(fourth.write_updates_at(&mut path), Ok(()));
    assert!(!path.is_locked());
    assert_ne!(path.read().unwrap(), &published[..]);
}

#[test]
fn load_mutate_publish_at_a_path() {
    let mut path = LockedPath::new();
    let mut index = Index::new();
    // Nothing was published yet: the index loads as empty, and holds the lock.
    assert_eq!(index.load_for_update_at(&mut path), Ok(()));
    assert!(path.is_locked());
    assert!(path.read().is_none());
    index.add("b", oid(2), &stat(0o100644, 2));
    index.add("a", oid(1), &stat(0o100755, 1));
    let before = listing(&index);
    assert_eq!(index.write_updates_at(&mut path), Ok(()));
    assert!(!path.is_locked());

    let mut loaded = Index::new();
    assert_eq!(loaded.load_at(&path), Ok(()));
    assert_eq!(listing(&loaded), before);
    assert!(!path.is_locked());

    // The same lifecycle again, on what was published.
    let mut again = Index::new();
    assert_eq!(again.load_for_update_at(&mut path), Ok(()));
    assert_eq!(listing(&again), before);
    again.add("c", oid(3), &stat(0o100644, 3));
    assert_eq!(again.write_updates_at(&mut path), Ok(()));
    let mut last = Index::new();
    assert_eq!(last.load_at(&path), Ok(()));
    assert_eq!(last.len(), 3);
}

#[test]
fn corrupt_content_at_a_path_is_reported_and_the_lock_kept() {
    let mut path = LockedPath::new();
    path.publish(b"DIRC but nothing more".to_vec());
    let mut index = Index::new();
    assert_eq!(index.load_at(&path), Err(CorruptIndex::UnsupportedVersion));
    assert_eq!(
        index.load_for_update_at(&mut path),
        Err(IndexError::Corrupt(CorruptIndex::UnsupportedVersion))
    );
    assert!(path.is_locked());
    assert_eq!(index.len(), 0);
    // The index holds the lock, so it may still publish.
    assert_eq!(index.write_updates_at(&mut path), Ok(()));
    assert_eq!(path.read().unwrap().len(), 32);
}

use crate::checksum::{CHECKSUM_SIZE, Checksum};
use crate::digest::sha1_digest;
use crate::encoding::{bytes_stand_at, push_u32_be, read_u32_be};
use crate::entry::{
    ENTRY_BLOCK, Entry, EntryView, FileStat, MIN_ENTRY_SIZE, entry_of, lemma_entry_of_wf, no_nul,
};
use crate::index_format::{
    CorruptIndex, HEADER_SIZE, INDEX_VERSION, all_wf, decode_entries, entries_bytes, entry_end,
    index_file, index_header, lemma_decoded_entry_wf, lemma_entries_bytes_push,
    lemma_index_round_trip, parse_header, parse_index, signature,
};
use crate::lock::{CreateOutcome, LockError, LockedPath, Lockfile, hold_result};
use crate::object_id::ObjectId;
use crate::order::{PathOrder, bytes_less, lemma_less_transitive, order_bytes};
use crate::table::{
    lemma_sorted_unique, lemma_stored_all_wf, lemma_table_insert, lemma_table_update,
    sorted_by_path, stored_in, table_of,
};
use vstd::prelude::*;
use vstd::slice::slice_subrange;
use vstd::string::StringSliceAdditionalSpecFns;

verus! {

/// Whether `path` lies below the directory `dir`: it starts with `dir` and a
/// `/`.
pub open spec fn lies_below(path: Seq<u8>, dir: Seq<u8>) -> bool {
    &&& path.len() > dir.len()
    &&& path.subrange(0, dir.len() as int) == dir
    &&& path[dir.len() as int] == 0x2f
}

/// Whether `path` is tracked by the entries: it is the path of an entry, or a
/// directory that the path of an entry lies below.
pub open spec fn tracked_by(s: Seq<EntryView>, path: Seq<u8>) -> bool {
    exists|i: int|
        0 <= i < s.len() && ((#[trigger] s[i]).path == path || lies_below(s[i].path, path))
}

/// Why an index could not be loaded for an update.
#[derive(Clone, Copy, Debug, PartialEq, Eq, Structural)]
pub enum IndexError {
    /// The write lock was not obtained.
    Lock(LockError),
    /// The file was not accepted.
    Corrupt(CorruptIndex),
}

/// The staging index: the tracked entries, in ascending order of their paths.
pub struct Index {
    entries: Vec<Entry>,
    lockfile: Lockfile,
    hasher: Option<Checksum>,
    changed: bool,
}

impl View for Index {
    type V = Seq<EntryView>;

    closed spec fn view(&self) -> Seq<EntryView> {
        Seq::new(self.entries@.len(), |i: int| self.entries@[i]@)
    }
}

impl Index {
    /// The entries are sorted by path, each path once, and nothing is staged
    /// behind the lock.
    pub closed spec fn wf(&self) -> bool {
        &&& sorted_by_path(self@)
        &&& self.lockfile.staged() == Seq::<u8>::empty()
    }

    /// The entries of a well-formed index are sorted by path.
    pub proof fn lemma_wf_sorted(&self)
        requires
            self.wf(),
        ensures
            sorted_by_path(self@),
    {
    }

    /// Two well-formed indexes with the same table hold the same entries in the
    /// same order.
    pub proof fn lemma_same_table_same_entries(&self, other: &Index)
        requires
            self.wf(),
            other.wf(),
            self.table() == other.table(),
        ensures
            self@ == other@,
    {
        lemma_sorted_unique(self@, other@);
    }

    /// Round trip: an index that was loaded from the file written for another
    /// holds the entries of the other, in the same order.
    pub proof fn lemma_written_index_loads_back(&self, loaded: &Index)
        requires
            self.wf(),
            all_wf(self@),
            self@.len() <= u32::MAX,
            loaded.wf(),
            parse_index(index_file(self@)) matches Ok(s) ==> loaded.table() == table_of(s),
        ensures
            parse_index(index_file(self@)) == Ok::<Seq<EntryView>, CorruptIndex>(self@),
            loaded@ == self@,
    {
        lemma_index_round_trip(self@);
        lemma_sorted_unique(self@, loaded@);
    }

    /// Whether this index holds the write lock.
    pub closed spec fn lock_held(&self) -> bool {
        self.lockfile.is_held()
    }

    /// What was written since `begin_write`; `None` outside a write.
    pub closed spec fn written(&self) -> Option<Seq<u8>> {
        match self.hasher {
            Some(c) => Some(c@),
            None => None,
        }
    }

    /// The table of the index: each tracked path with its entry.
    pub open spec fn table(&self) -> Map<Seq<u8>, EntryView> {
        table_of(self@)
    }

    /// Whether the index was changed since it was created or loaded.
    pub closed spec fn is_changed(&self) -> bool {
        self.changed
    }

    /// An index without entries.
    pub fn new() -> (index: Index)
        ensures
            index.wf(),
            index@ == Seq::<EntryView>::empty(),
            !index.is_changed(),
            !index.lock_held(),
            index.written() is None,
    {
        let index = Index {
            entries: Vec::new(),
            lockfile: Lockfile::new(),
            hasher: None,
            changed: false,
        };
        assert(index@ =~= Seq::<EntryView>::empty());
        index
    }

    /// Number of entries.
    pub fn len(&self) -> (n: usize)
        ensures
            n == self@.len(),
    {
        self.entries.len()
    }

    /// The entry at position `i` in path order.
    pub fn entry(&self, i: usize) -> (e: &Entry)
        requires
            i < self@.len(),
        ensures
            e@ == self@[i as int],
    {
        &self.entries[i]
    }

    /// Whether the index was changed since it was created or loaded.
    pub fn changed(&self) -> (r: bool)
        ensures
            r == self.is_changed(),
    {
        self.changed
    }

    /// Whether `path` is tracked: it is the path of an entry, or a directory
    /// that the path of an entry lies below.
    pub fn is_tracked_path(&self, path: &str) -> (r: bool)
        ensures
            r == tracked_by(self@, path.spec_bytes()),
    {
        let want = path.as_bytes();
        let mut i: usize = 0;
        while i < self.entries.len()
            invariant
                i <= self.entries@.len(),
                want@ == path.spec_bytes(),
                forall|k: int|
                    0 <= k < i ==> !((#[trigger] self@[k]).path == want@ || lies_below(
                        self@[k].path,
                        want@,
                    )),
            decreases self.entries@.len() - i,
        {
            let have = self.entries[i].path_bytes();
            if have.len() > want.len() {
                if have[want.len()] == 0x2f && bytes_stand_at(have, 0, want) {
                    assert(self@[i as int].path == have@);
                    return true;
                }
            } else {
                match order_bytes(have, want) {
                    PathOrder::Same => {
                        assert(self@[i as int].path == have@);
                        return true;
                    },
                    _ => {},
                }
            }
            assert(self@[i as int].path == have@);
            i += 1;
        }
        false
    }

    /// Stores `entry` under its path, in place of the entry that the path had, if
    /// it had one.
    pub fn store_entry(&mut self, entry: Entry)
        requires
            old(self).wf(),
        ensures
            final(self).wf(),
            final(self).table() == old(self).table().insert(entry@.path, entry@),
            stored_in(old(self)@, final(self)@, entry@),
            final(self).is_changed() == old(self).is_changed(),
            final(self).lock_held() == old(self).lock_held(),
            final(self).written() == old(self).written(),
    {
        let mut i: usize = 0;
        let mut found = false;
        while i < self.entries.len()
            invariant_except_break
                !found,
            invariant
                i <= self.entries@.len(),
                *self == *old(self),
                sorted_by_path(self@),
                forall|j: int| 0 <= j < i ==> bytes_less(#[trigger] self@[j].path, entry@.path),
            ensures
                i <= self.entries@.len(),
                *self == *old(self),
                forall|j: int| 0 <= j < i ==> bytes_less(#[trigger] self@[j].path, entry@.path),
                found ==> i < self.entries@.len() && self@[i as int].path == entry@.path,
                !found ==> forall|j: int|
                    i <= j < self@.len() ==> bytes_less(entry@.path, #[trigger] self@[j].path),
            decreases self.entries@.len() - i,
        {
            match order_bytes(self.entries[i].path_bytes(), entry.path_bytes()) {
                PathOrder::Before => {
                    i += 1;
                },
                PathOrder::Same => {
                    found = true;
                    break ;
                },
                PathOrder::After => {
                    proof {
                        assert forall|j: int| i <= j < self@.len() implies bytes_less(
                            entry@.path,
                            #[trigger] self@[j].path,
                        ) by {
                            if j > i {
                                assert(bytes_less(self@[i as int].path, self@[j].path));
                                lemma_less_transitive(
                                    entry@.path,
                                    self@[i as int].path,
                                    self@[j].path,
                                );
                            }
                        }
                    }
                    break ;
                },
            }
        }
        if found {
            proof {
                lemma_table_update(self@, i as int, entry@);
            }
            self.entries[i] = entry;
            assert(self@ =~= old(self)@.update(i as int, entry@));
        } else {
            proof {
                lemma_table_insert(self@, i as int, entry@);
            }
            self.entries.insert(i, entry);
            assert(self@ =~= old(self)@.insert(i as int, entry@));
        }
    }

    /// Records `stat` and the blob `oid` for `pathname`, in place of what the
    /// path had, and marks the index as changed.
    pub fn add(&mut self, pathname: &str, oid: ObjectId, stat: &FileStat)
        requires
            old(self).wf(),
        ensures
            final(self).wf(),
            final(self).table() == old(self).table().insert(
                pathname.spec_bytes(),
                entry_of(pathname.spec_bytes(), oid@, *stat),
            ),
            stored_in(
                old(self)@,
                final(self)@,
                entry_of(pathname.spec_bytes(), oid@, *stat),
            ),
            all_wf(old(self)@) && no_nul(pathname.spec_bytes()) ==> all_wf(final(self)@),
            final(self).is_changed(),
            final(self).lock_held() == old(self).lock_held(),
            final(self).written() == old(self).written(),
    {
        let entry = Entry::new(pathname, oid, stat);
        proof {
            oid.lemma_len();
            if all_wf(self@) && no_nul(pathname.spec_bytes()) {
                lemma_entry_of_wf(pathname@, oid@, *stat);
            }
        }
        self.store_entry(entry);
        proof {
            if all_wf(old(self)@) && no_nul(pathname.spec_bytes()) {
                lemma_stored_all_wf(old(self)@, self@, entry@);
            }
        }
        self.changed = true;
    }

    /// Starts a write: nothing is written yet.
    pub fn begin_write(&mut self)
        ensures
            final(self)@ == old(self)@,
            final(self).wf() == old(self).wf(),
            final(self).is_changed() == old(self).is_changed(),
            final(self).lock_held() == old(self).lock_held(),
            final(self).written() == Some(Seq::<u8>::empty()),
    {
        self.hasher = Some(Checksum::new());
    }

    /// Writes `data` behind what was written since `begin_write`.
    pub fn write(&mut self, data: &[u8])
        requires
            old(self).written() is Some,
        ensures
            final(self)@ == old(self)@,
            final(self).wf() == old(self).wf(),
            final(self).is_changed() == old(self).is_changed(),
            final(self).lock_held() == old(self).lock_held(),
            final(self).written() == Some(old(self).written().unwrap() + data@),
    {
        let mut hasher = self.hasher.take().unwrap();
        hasher.write(data);
        self.hasher = Some(hasher);
    }

    /// Ends a write: the digest of what was written is put behind it, and the
    /// whole is handed out as the new content of the index file, to be published
    /// in one step; the write lock is given up. Fails, with nothing handed out,
    /// if the lock is not held.
    pub fn finish_write(&mut self) -> (r: Result<Vec<u8>, LockError>)
        requires
            old(self).wf(),
            old(self).written() is Some,
        ensures
            final(self)@ == old(self)@,
            final(self).wf(),
            final(self).is_changed() == old(self).is_changed(),
            !final(self).lock_held(),
            final(self).written() is None,
            match r {
                Ok(content) => old(self).lock_held() && content@ == old(self).written().unwrap()
                    + sha1_digest(old(self).written().unwrap())@,
                Err(e) => !old(self).lock_held() && e == LockError::LockIoFailure,
            },
    {
        let mut hasher = self.hasher.take().unwrap();
        hasher.write_checksum();
        let content = hasher.into_bytes();
        match self.lockfile.write_bytes(content.as_slice()) {
            Ok(()) => {},
            Err(e) => {
                self.lockfile.rollback();
                return Err(e);
            },
        }
        let r = self.lockfile.commit();
        proof {
            assert(Seq::<u8>::empty() + content@ =~= content@);
        }
        r
    }

    /// Serializes the index for publication: takes the write lock, given what
    /// came of creating the lock artifact, and hands out the content of the new
    /// index file, which holds the entries in path order. Without the lock
    /// nothing is handed out.
    pub fn write_updates(self, outcome: CreateOutcome) -> (r: Result<Vec<u8>, LockError>)
        requires
            self.wf(),
            self@.len() <= u32::MAX,
        ensures
            match hold_result(self.lock_held(), outcome) {
                Ok(_) => {
                    &&& r matches Ok(content)
                    &&& content@ == index_file(self@)
                    &&& all_wf(self@) ==> parse_index(content@) == Ok::<
                        Seq<EntryView>,
                        CorruptIndex,
                    >(self@)
                },
                Err(e) => r matches Err(x) && x == e,
            },
    {
        let mut index = self;
        match index.lockfile.hold_for_update(outcome) {
            Ok(()) => {},
            Err(e) => {
                return Err(e);
            },
        }
        let count: usize = index.entries.len();
        let mut header_bytes: Vec<u8> = Vec::new();
        header_bytes.push(0x44u8);
        header_bytes.push(0x49u8);
        header_bytes.push(0x52u8);
        header_bytes.push(0x43u8);
        assert(header_bytes@ =~= signature());
        push_u32_be(&mut header_bytes, INDEX_VERSION);
        push_u32_be(&mut header_bytes, count as u32);
        index.begin_write();
        index.write(header_bytes.as_slice());
        let ghost header = index_header(count as u32);
        assert(index.written().unwrap() =~= header + entries_bytes(index@.take(0))) by {
            assert(index@.take(0) =~= Seq::<EntryView>::empty());
        }
        let mut i: usize = 0;
        while i < count
            invariant
                i <= count,
                count == index@.len(),
                count == index.entries@.len(),
                index.wf(),
                index@ == self@,
                index.lock_held(),
                index.written() == Some(header + entries_bytes(index@.take(i as int))),
            decreases count - i,
        {
            let bytes = index.entries[i].to_bytes();
            let ghost before = index;
            index.write(bytes.as_slice());
            proof {
                lemma_entries_bytes_push(index@.take(i as int), index@[i as int]);
                assert(index@.take(i as int).push(index@[i as int]) =~= index@.take(i + 1));
                assert(before.written().unwrap() + bytes@ =~= header + entries_bytes(
                    index@.take(i + 1),
                ));
            }
            i += 1;
        }
        assert(index@.take(count as int) =~= index@);
        let r = index.finish_write();
        proof {
            if all_wf(self@) && r is Ok {
                lemma_index_round_trip(self@);
            }
        }
        r
    }

    /// Writes the index to its path, under the lock of the path. Where another
    /// writer holds the lock, this fails at once with `LockHeld`, and the path
    /// and its lock stay as they are. Else the path holds the serialized index
    /// from now on, published in one step, and the lock is free again.
    pub fn write_updates_at(self, path: &mut LockedPath) -> (r: Result<(), LockError>)
        requires
            self.wf(),
            self@.len() <= u32::MAX,
        ensures
            if !self.lock_held() && old(path).locked() {
                &&& r == Err::<(), LockError>(LockError::LockHeld)
                &&& final(path).content() == old(path).content()
                &&& final(path).locked()
            } else {
                &&& r is Ok
                &&& final(path).content() == Some(index_file(self@))
                &&& !final(path).locked()
            },
    {
        let outcome = if self.lockfile.held() {
            CreateOutcome::Created
        } else {
            path.create_exclusive()
        };
        match self.write_updates(outcome) {
            Ok(content) => {
                path.publish(content);
                Ok(())
            },
            Err(e) => Err(e),
        }
    }

    /// Loads the index from its path, as `load` does from the content of the
    /// path. The lock is not asked for.
    pub fn load_at(&mut self, path: &LockedPath) -> (r: Result<(), CorruptIndex>)
        requires
            old(self).wf(),
        ensures
            final(self).wf(),
            all_wf(final(self)@),
            !final(self).is_changed(),
            final(self).written() is None,
            final(self).lock_held() == old(self).lock_held(),
            match path.content() {
                None => r is Ok && final(self)@ == Seq::<EntryView>::empty(),
                Some(data) => match parse_index(data) {
                    Ok(s) => {
                        &&& r is Ok
                        &&& final(self).table() == table_of(s)
                        &&& sorted_by_path(s) ==> final(self)@ == s
                    },
                    Err(e) => r == Err::<(), CorruptIndex>(e) && final(self)@ == Seq::<
                        EntryView,
                    >::empty(),
                },
            },
    {
        self.load(path.read())
    }

    /// Takes the lock of the path and loads the index from it. Where another
    /// writer holds the lock, this fails at once with `LockHeld`, nothing is
    /// loaded, and the path and its lock stay as they are. Else this index
    /// holds the lock from now on, also where the content is not accepted.
    pub fn load_for_update_at(&mut self, path: &mut LockedPath) -> (r: Result<(), IndexError>)
        requires
            old(self).wf(),
        ensures
            final(self).wf(),
            final(path).content() == old(path).content(),
            if !old(self).lock_held() && old(path).locked() {
                &&& r == Err::<(), IndexError>(IndexError::Lock(LockError::LockHeld))
                &&& final(path).locked()
                &&& !final(self).lock_held()
                &&& final(self)@ == old(self)@
                &&& final(self).is_changed() == old(self).is_changed()
                &&& final(self).written() == old(self).written()
            } else {
                &&& final(self).lock_held()
                &&& final(path).locked() == (old(path).locked() || !old(self).lock_held())
                &&& !final(self).is_changed()
                &&& final(self).written() is None
                &&& all_wf(final(self)@)
                &&& match old(path).content() {
                    None => r is Ok && final(self)@ == Seq::<EntryView>::empty(),
                    Some(data) => match parse_index(data) {
                        Ok(s) => {
                            &&& r is Ok
                            &&& final(self).table() == table_of(s)
                            &&& sorted_by_path(s) ==> final(self)@ == s
                        },
                        Err(e) => r == Err::<(), IndexError>(IndexError::Corrupt(e))
                            && final(self)@ == Seq::<EntryView>::empty(),
                    },
                }
            },
    {
        let outcome = if self.lockfile.held() {
            CreateOutcome::Created
        } else {
            path.create_exclusive()
        };
        match self.lockfile.hold_for_update(outcome) {
            Ok(()) => {},
            Err(e) => {
                return Err(IndexError::Lock(e));
            },
        }
        match self.load(path.read()) {
            Ok(()) => Ok(()),
            Err(e) => Err(IndexError::Corrupt(e)),
        }
    }

    /// Drops all entries and any write in progress.
    fn clear(&mut self)
        requires
            old(self).wf(),
        ensures
            final(self).wf(),
            final(self)@ == Seq::<EntryView>::empty(),
            !final(self).is_changed(),
            final(self).written() is None,
            final(self).lock_held() == old(self).lock_held(),
    {
        self.entries = Vec::new();
        self.hasher = None;
        self.changed = false;
        assert(self@ =~= Seq::<EntryView>::empty());
    }

    /// Reads the header of an index file: the number of entries that it
    /// announces, or why it is not accepted.
    pub fn read_header(contents: &[u8]) -> (r: Result<u32, CorruptIndex>)
        ensures
            r == parse_header(contents@),
    {
        if contents.len() < HEADER_SIZE {
            return Err(CorruptIndex::MalformedHeader);
        }
        if contents[0] != 0x44u8 || contents[1] != 0x49u8 || contents[2] != 0x52u8 || contents[3]
            != 0x43u8 {
            assert(contents@.subrange(0, 4)[0] == contents@[0]);
            assert(contents@.subrange(0, 4)[1] == contents@[1]);
            assert(contents@.subrange(0, 4)[2] == contents@[2]);
            assert(contents@.subrange(0, 4)[3] == contents@[3]);
            return Err(CorruptIndex::MalformedHeader);
        }
        assert(contents@.subrange(0, 4) =~= signature());
        let version = read_u32_be(contents, 4);
        if version != INDEX_VERSION {
            return Err(CorruptIndex::UnsupportedVersion);
        }
        Ok(read_u32_be(contents, 8))
    }

    /// Reads `count` entries from `body`, which starts with the header and ends
    /// with the last entry, and stores each in turn.
    fn read_entries(&mut self, body: &[u8], count: u32) -> (r: Result<(), CorruptIndex>)
        requires
            old(self).wf(),
            old(self)@.len() == 0,
            body@.len() >= 12,
        ensures
            final(self).wf(),
            final(self).is_changed() == old(self).is_changed(),
            final(self).lock_held() == old(self).lock_held(),
            final(self).written() == old(self).written(),
            all_wf(final(self)@),
            match decode_entries(body@, 12, count as nat) {
                Some(s) => r is Ok && final(self).table() == table_of(s),
                None => r == Err::<(), CorruptIndex>(CorruptIndex::MalformedEntry),
            },
    {
        let mut pos: usize = HEADER_SIZE;
        let mut i: u32 = 0;
        let ghost mut done: Seq<EntryView> = Seq::empty();
        assert(self@ =~= done);
        while i < count
            invariant
                i <= count,
                12 <= pos <= body@.len(),
                self.wf(),
                all_wf(self@),
                self.is_changed() == old(self).is_changed(),
                self.lock_held() == old(self).lock_held(),
                self.written() == old(self).written(),
                self.table() == table_of(done),
                decode_entries(body@, 12, count as nat) == match decode_entries(
                    body@,
                    pos as int,
                    (count - i) as nat,
                ) {
                    Some(rest) => Some(done + rest),
                    None => None,
                },
            decreases count - i,
        {
            if body.len() - pos < MIN_ENTRY_SIZE {
                return Err(CorruptIndex::MalformedEntry);
            }
            let mut len: usize = MIN_ENTRY_SIZE;
            while body[pos + len - 1] != 0
                invariant
                    64 <= len,
                    12 <= pos,
                    pos + len <= body@.len(),
                    body@.len() <= usize::MAX,
                    self.wf(),
                    all_wf(self@),
                    self.is_changed() == old(self).is_changed(),
                    self.lock_held() == old(self).lock_held(),
                    self.written() == old(self).written(),
                    entry_end(body@, pos as int, 64) == entry_end(body@, pos as int, len as int),
                    entry_end(body@, pos as int, 64) is None ==> decode_entries(
                        body@,
                        pos as int,
                        (count - i) as nat,
                    ) is None,
                    i < count,
                    decode_entries(body@, 12, count as nat) == match decode_entries(
                        body@,
                        pos as int,
                        (count - i) as nat,
                    ) {
                        Some(rest) => Some(done + rest),
                        None => None,
                    },
                decreases body@.len() - pos - len,
            {
                if body.len() - pos - len < ENTRY_BLOCK {
                    assert(entry_end(body@, pos as int, len + 8) is None);
                    return Err(CorruptIndex::MalformedEntry);
                }
                len += ENTRY_BLOCK;
            }
            let end: usize = pos + len;
            assert(entry_end(body@, pos as int, 64) == Some(end as int));
            match Entry::parse(slice_subrange(body, pos, end)) {
                None => {
                    return Err(CorruptIndex::MalformedEntry);
                },
                Some(entry) => {
                    proof {
                        let e = entry@;
                        assert(done.push(e).drop_last() =~= done);
                        match decode_entries(body@, end as int, (count - i - 1) as nat) {
                            Some(rest) => {
                                assert(done + (seq![e] + rest) =~= done.push(e) + rest);
                            },
                            None => {},
                        }
                        done = done.push(e);
                        lemma_decoded_entry_wf(body@.subrange(pos as int, end as int));
                    }
                    let ghost before = self@;
                    self.store_entry(entry);
                    proof {
                        lemma_stored_all_wf(before, self@, entry@);
                    }
                },
            }
            pos = end;
            i += 1;
        }
        if pos != body.len() {
            return Err(CorruptIndex::MalformedEntry);
        }
        assert(done + Seq::<EntryView>::empty() =~= done);
        Ok(())
    }

    /// Replaces the entries by those of an index file. `None` stands for a file
    /// that does not exist: the index is then empty. The entries are stored in
    /// the order of the file. A file that is not accepted leaves the index empty.
    pub fn load(&mut self, contents: Option<&[u8]>) -> (r: Result<(), CorruptIndex>)
        requires
            old(self).wf(),
        ensures
            final(self).wf(),
            all_wf(final(self)@),
            !final(self).is_changed(),
            final(self).written() is None,
            final(self).lock_held() == old(self).lock_held(),
            match contents {
                None => r is Ok && final(self)@ == Seq::<EntryView>::empty(),
                Some(data) => match parse_index(data@) {
                    Ok(s) => {
                        &&& r is Ok
                        &&& final(self).table() == table_of(s)
                        &&& sorted_by_path(s) ==> final(self)@ == s
                    },
                    Err(e) => r == Err::<(), CorruptIndex>(e) && final(self)@ == Seq::<
                        EntryView,
                    >::empty(),
                },
            },
    {
        self.clear();
        let data = match contents {
            None => {
                return Ok(());
            },
            Some(data) => data,
        };
        let count = match Index::read_header(data) {
            Ok(count) => count,
            Err(e) => {
                return Err(e);
            },
        };
        if data.len() < HEADER_SIZE + CHECKSUM_SIZE || !Checksum::verify_checksum(data) {
            return Err(CorruptIndex::ChecksumMismatch);
        }
        let body = slice_subrange(data, 0, data.len() - CHECKSUM_SIZE);
        match self.read_entries(body, count) {
            Ok(()) => {
                proof {
                    let s = parse_index(data@).unwrap();
                    if sorted_by_path(s) {
                        lemma_sorted_unique(self@, s);
                    }
                }
                Ok(())
            },
            Err(e) => {
                self.clear();
                Err(e)
            },
        }
    }

    /// Takes the write lock, given what came of creating the lock artifact, and
    /// then loads the index as `load` does. Without the lock nothing is loaded
    /// and the index stays as it was.
    pub fn load_for_update(&mut self, outcome: CreateOutcome, contents: Option<&[u8]>) -> (r:
        Result<(), IndexError>)
        requires
            old(self).wf(),
        ensures
            final(self).wf(),
            r is Ok ==> all_wf(final(self)@),
            match hold_result(old(self).lock_held(), outcome) {
                Err(e) => {
                    &&& r == Err::<(), IndexError>(IndexError::Lock(e))
                    &&& !final(self).lock_held()
                    &&& final(self)@ == old(self)@
                    &&& final(self).is_changed() == old(self).is_changed()
                    &&& final(self).written() == old(self).written()
                },
                Ok(_) => {
                    &&& final(self).lock_held()
                    &&& !final(self).is_changed()
                    &&& final(self).written() is None
                    &&& match contents {
                        None => r is Ok && final(self)@ == Seq::<EntryView>::empty(),
                        Some(data) => match parse_index(data@) {
                            Ok(s) => r is Ok && final(self).table() == table_of(s),
                            Err(e) => r == Err::<(), IndexError>(IndexError::Corrupt(e))
                                && final(self)@ == Seq::<EntryView>::empty(),
                        },
                    }
                },
            },
    {
        match self.lockfile.hold_for_update(outcome) {
            Ok(()) => {},
            Err(e) => {
                return Err(IndexError::Lock(e));
            },
        }
        match self.load(contents) {
            Ok(()) => Ok(()),
            Err(e) => Err(IndexError::Corrupt(e)),
        }
    }
}

} // verus!

use crate::encoding::{
    be16, be32, from_be32, lemma_be16_len, lemma_be32_round_trip, lemma_nul_position,
    nul_position, push_u16_be, push_u32_be, read_u32_be, string_from_utf8, zeros,
};
use crate::object_id::ObjectId;
use vstd::prelude::*;
use vstd::slice::*;
use vstd::string::StringSliceAdditionalSpecFns;
use vstd::utf8::*;

verus! {

/// Largest path length that the flags field of an entry can record.
pub const MAX_PATH_SIZE: u16 = 0xfff;

/// Shortest serialized entry, in bytes.
pub const MIN_ENTRY_SIZE: usize = 64;

/// Serialized entries are padded to a multiple of this many bytes.
pub const ENTRY_BLOCK: usize = 8;

/// Offset of the path within a serialized entry.
pub const PATH_OFFSET: usize = 62;

/// Mode of a tracked regular file without the owner-execute bit.
pub const REGULAR_MODE: u32 = 0o100644;

/// Mode of a tracked regular file with the owner-execute bit.
pub const EXECUTABLE_MODE: u32 = 0o100755;

/// File metadata as the operating system reports it.
#[derive(Clone, Copy, Debug)]
pub struct FileStat {
    pub ctime: i64,
    pub ctime_nsec: i64,
    pub mtime: i64,
    pub mtime_nsec: i64,
    pub dev: u64,
    pub ino: u64,
    pub mode: u32,
    pub uid: u32,
    pub gid: u32,
    pub size: u64,
}

/// What an index entry holds: ten 32-bit metadata fields, the 20 bytes of the
/// blob id and the bytes of the path.
pub struct EntryView {
    pub ctime: u32,
    pub ctime_nsec: u32,
    pub mtime: u32,
    pub mtime_nsec: u32,
    pub dev: u32,
    pub ino: u32,
    pub mode: u32,
    pub uid: u32,
    pub gid: u32,
    pub size: u32,
    pub oid: Seq<u8>,
    pub path: Seq<u8>,
}

impl EntryView {
    /// The entry survives a trip through its serialized form: the id has 20
    /// bytes, the path is UTF-8 without a zero byte, and the mode is one of the
    /// two tracked modes.
    pub open spec fn wf(self) -> bool {
        &&& self.oid.len() == 20
        &&& valid_utf8(self.path)
        &&& no_nul(self.path)
        &&& (self.mode == REGULAR_MODE || self.mode == EXECUTABLE_MODE)
    }
}

/// Whether the owner-execute bit of `mode` is set.
pub open spec fn owner_executable(mode: u32) -> bool {
    mode / 0o100 % 2 == 1
}

/// The tracked mode that stands for `mode`.
pub open spec fn tracked_mode(mode: u32) -> u32 {
    if owner_executable(mode) {
        EXECUTABLE_MODE
    } else {
        REGULAR_MODE
    }
}

/// The flags field of an entry whose path has `path_len` bytes.
pub open spec fn entry_flags(path_len: nat) -> u16 {
    if path_len < 0xfff {
        path_len as u16
    } else {
        0xfff
    }
}

/// The entry that records `stat` and `oid` for `path`: each metadata field cut to
/// its low 32 bits, the mode replaced by the tracked mode.
pub open spec fn entry_of(path: Seq<u8>, oid: Seq<u8>, stat: FileStat) -> EntryView {
    EntryView {
        ctime: stat.ctime as u32,
        ctime_nsec: stat.ctime_nsec as u32,
        mtime: stat.mtime as u32,
        mtime_nsec: stat.mtime_nsec as u32,
        dev: stat.dev as u32,
        ino: stat.ino as u32,
        mode: tracked_mode(stat.mode),
        uid: stat.uid,
        gid: stat.gid,
        size: stat.size as u32,
        oid,
        path,
    }
}

/// Whether no byte of `path` is zero.
pub open spec fn no_nul(path: Seq<u8>) -> bool {
    forall|k: int| 0 <= k < path.len() ==> path[k] != 0
}

/// The entry made for a path is one that can be written and read back, if the
/// path holds no zero byte.
pub proof fn lemma_entry_of_wf(path: Seq<char>, oid: Seq<u8>, stat: FileStat)
    requires
        oid.len() == 20,
        no_nul(encode_utf8(path)),
    ensures
        entry_of(encode_utf8(path), oid, stat).wf(),
{
    encode_utf8_valid_utf8(path);
}

/// The first 62 bytes of a serialized entry: ten big-endian 32-bit fields, the
/// blob id, and the 16-bit flags.
pub open spec fn entry_fixed_part(e: EntryView) -> Seq<u8> {
    be32(e.ctime) + be32(e.ctime_nsec) + be32(e.mtime) + be32(e.mtime_nsec) + be32(e.dev) + be32(
        e.ino,
    ) + be32(e.mode) + be32(e.uid) + be32(e.gid) + be32(e.size) + e.oid + be16(
        entry_flags(e.path.len()),
    )
}

/// Number of zero bytes that bring a length of `n` up to a multiple of 8.
pub open spec fn padding_len(n: nat) -> nat {
    ((8 - n % 8) % 8) as nat
}

/// The serialized form of an entry: the fixed part, the path, a zero byte, and
/// zero padding up to a multiple of 8 bytes.
pub open spec fn entry_bytes(e: EntryView) -> Seq<u8> {
    let body = entry_fixed_part(e) + e.path + seq![0u8];
    body + zeros(padding_len(body.len()))
}

/// The entry that a serialized block holds, if it holds one: at least 64 bytes,
/// a path that runs from offset 62 to the first zero byte and is UTF-8, and one
/// of the two tracked modes. The flags field and the padding are not examined.
pub open spec fn decode_entry(block: Seq<u8>) -> Option<EntryView> {
    let end = nul_position(block, 62);
    let path = block.subrange(62, end);
    let mode = from_be32(block.subrange(24, 28));
    if block.len() < 64 || end >= block.len() || !valid_utf8(path) || !(mode == REGULAR_MODE
        || mode == EXECUTABLE_MODE) {
        None
    } else {
        Some(
            EntryView {
                ctime: from_be32(block.subrange(0, 4)),
                ctime_nsec: from_be32(block.subrange(4, 8)),
                mtime: from_be32(block.subrange(8, 12)),
                mtime_nsec: from_be32(block.subrange(12, 16)),
                dev: from_be32(block.subrange(16, 20)),
                ino: from_be32(block.subrange(20, 24)),
                mode,
                uid: from_be32(block.subrange(28, 32)),
                gid: from_be32(block.subrange(32, 36)),
                size: from_be32(block.subrange(36, 40)),
                oid: block.subrange(40, 60),
                path,
            },
        )
    }
}

proof fn lemma_fixed_part_len(e: EntryView)
    requires
        e.oid.len() == 20,
    ensures
        entry_fixed_part(e).len() == 62,
        be32(e.ctime).len() == 4,
        be32(e.ctime_nsec).len() == 4,
        be32(e.mtime).len() == 4,
        be32(e.mtime_nsec).len() == 4,
        be32(e.dev).len() == 4,
        be32(e.ino).len() == 4,
        be32(e.mode).len() == 4,
        be32(e.uid).len() == 4,
        be32(e.gid).len() == 4,
        be32(e.size).len() == 4,
{
    lemma_be32_round_trip(e.ctime);
    lemma_be32_round_trip(e.ctime_nsec);
    lemma_be32_round_trip(e.mtime);
    lemma_be32_round_trip(e.mtime_nsec);
    lemma_be32_round_trip(e.dev);
    lemma_be32_round_trip(e.ino);
    lemma_be32_round_trip(e.mode);
    lemma_be32_round_trip(e.uid);
    lemma_be32_round_trip(e.gid);
    lemma_be32_round_trip(e.size);
    lemma_be16_len(entry_flags(e.path.len()));
}

/// Layout of a serialized entry.
pub proof fn lemma_entry_bytes_layout(e: EntryView)
    requires
        e.oid.len() == 20,
    ensures
        entry_fixed_part(e).len() == 62,
        entry_bytes(e).len() == 63 + e.path.len() + padding_len(63 + e.path.len()),
        entry_bytes(e).len() % 8 == 0,
        entry_bytes(e).len() >= 64,
        entry_bytes(e).subrange(0, 62) == entry_fixed_part(e),
        entry_bytes(e).subrange(62, 62 + e.path.len() as int) == e.path,
        forall|k: int| 62 + e.path.len() <= k < entry_bytes(e).len() ==> entry_bytes(e)[k] == 0,
{
    let f = entry_fixed_part(e);
    let body = f + e.path + seq![0u8];
    let block = entry_bytes(e);
    lemma_fixed_part_len(e);
    assert(body.len() == 63 + e.path.len());
    assert(block.subrange(0, 62) =~= f);
    assert(block.subrange(62, 62 + e.path.len() as int) =~= e.path);
}

/// Reading back a serialized entry gives the entry.
pub proof fn lemma_entry_round_trip(e: EntryView)
    requires
        e.wf(),
    ensures
        decode_entry(entry_bytes(e)) == Some(e),
{
    let f = entry_fixed_part(e);
    let block = entry_bytes(e);
    let n = e.path.len() as int;
    lemma_entry_bytes_layout(e);
    lemma_fixed_part_len(e);
    assert forall|k: int| 62 <= k < 62 + n implies block[k] != 0 by {
        assert(block.subrange(62, 62 + n)[k - 62] == block[k]);
    }
    lemma_nul_position(block, 62, 62 + n);
    assert forall|i: int, j: int| 0 <= i <= j <= 62 implies #[trigger] block.subrange(i, j)
        == f.subrange(i, j) by {
        assert(block.subrange(i, j) =~= block.subrange(0, 62).subrange(i, j));
    }
    assert(f.subrange(0, 4) =~= be32(e.ctime));
    assert(f.subrange(4, 8) =~= be32(e.ctime_nsec));
    assert(f.subrange(8, 12) =~= be32(e.mtime));
    assert(f.subrange(12, 16) =~= be32(e.mtime_nsec));
    assert(f.subrange(16, 20) =~= be32(e.dev));
    assert(f.subrange(20, 24) =~= be32(e.ino));
    assert(f.subrange(24, 28) =~= be32(e.mode));
    assert(f.subrange(28, 32) =~= be32(e.uid));
    assert(f.subrange(32, 36) =~= be32(e.gid));
    assert(f.subrange(36, 40) =~= be32(e.size));
    assert(f.subrange(40, 60) =~= e.oid);
    lemma_be32_round_trip(e.ctime);
    lemma_be32_round_trip(e.ctime_nsec);
    lemma_be32_round_trip(e.mtime);
    lemma_be32_round_trip(e.mtime_nsec);
    lemma_be32_round_trip(e.dev);
    lemma_be32_round_trip(e.ino);
    lemma_be32_round_trip(e.mode);
    lemma_be32_round_trip(e.uid);
    lemma_be32_round_trip(e.gid);
    lemma_be32_round_trip(e.size);
}

/// One tracked path with its cached file metadata and the id of its blob.
#[derive(Clone, Debug)]
pub struct Entry {
    ctime: u32,
    ctime_nsec: u32,
    mtime: u32,
    mtime_nsec: u32,
    dev: u32,
    ino: u32,
    mode: u32,
    uid: u32,
    gid: u32,
    size: u32,
    oid: ObjectId,
    path: String,
}

impl View for Entry {
    type V = EntryView;

    closed spec fn view(&self) -> EntryView {
        EntryView {
            ctime: self.ctime,
            ctime_nsec: self.ctime_nsec,
            mtime: self.mtime,
            mtime_nsec: self.mtime_nsec,
            dev: self.dev,
            ino: self.ino,
            mode: self.mode,
            uid: self.uid,
            gid: self.gid,
            size: self.size,
            oid: self.oid@,
            path: encode_utf8(self.path@),
        }
    }
}

impl Entry {
    /// Whether the owner-execute bit of `mode` is set.
    pub fn is_executable(mode: u32) -> (r: bool)
        ensures
            r == owner_executable(mode),
    {
        assert((mode >> 6) & 1 == mode / 0o100 % 2) by (bit_vector);
        (mode >> 6) & 1 == 1
    }

    /// The tracked mode that stands for `mode`: executable if its owner-execute
    /// bit is set, regular otherwise.
    pub fn mode(mode: u32) -> (r: u32)
        ensures
            r == tracked_mode(mode),
    {
        if Entry::is_executable(mode) {
            EXECUTABLE_MODE
        } else {
            REGULAR_MODE
        }
    }

    /// The entry for `pathname` with blob `oid` and the metadata in `stat`.
    pub fn new(pathname: &str, oid: ObjectId, stat: &FileStat) -> (e: Entry)
        ensures
            e@ == entry_of(pathname.spec_bytes(), oid@, *stat),
    {
        Entry {
            ctime: #[verifier::truncate] (stat.ctime as u32),
            ctime_nsec: #[verifier::truncate] (stat.ctime_nsec as u32),
            mtime: #[verifier::truncate] (stat.mtime as u32),
            mtime_nsec: #[verifier::truncate] (stat.mtime_nsec as u32),
            dev: #[verifier::truncate] (stat.dev as u32),
            ino: #[verifier::truncate] (stat.ino as u32),
            mode: Entry::mode(stat.mode),
            uid: stat.uid,
            gid: stat.gid,
            size: #[verifier::truncate] (stat.size as u32),
            oid,
            path: pathname.to_owned(),
        }
    }

    /// The bytes of the entry's path.
    pub fn path_bytes(&self) -> (r: &[u8])
        ensures
            r@ == self@.path,
    {
        self.path.as_str().as_bytes()
    }

    /// The entry's path.
    pub fn path(&self) -> (r: &str)
        ensures
            r.spec_bytes() == self@.path,
    {
        self.path.as_str()
    }

    /// The cached change time, in seconds.
    pub fn ctime(&self) -> (r: u32)
        ensures
            r == self@.ctime,
    {
        self.ctime
    }

    /// The cached change time, its nanoseconds.
    pub fn ctime_nsec(&self) -> (r: u32)
        ensures
            r == self@.ctime_nsec,
    {
        self.ctime_nsec
    }

    /// The cached modification time, in seconds.
    pub fn mtime(&self) -> (r: u32)
        ensures
            r == self@.mtime,
    {
        self.mtime
    }

    /// The cached modification time, its nanoseconds.
    pub fn mtime_nsec(&self) -> (r: u32)
        ensures
            r == self@.mtime_nsec,
    {
        self.mtime_nsec
    }

    /// The cached device.
    pub fn dev(&self) -> (r: u32)
        ensures
            r == self@.dev,
    {
        self.dev
    }

    /// The cached inode.
    pub fn ino(&self) -> (r: u32)
        ensures
            r == self@.ino,
    {
        self.ino
    }

    /// The cached owner.
    pub fn uid(&self) -> (r: u32)
        ensures
            r == self@.uid,
    {
        self.uid
    }

    /// The cached group.
    pub fn gid(&self) -> (r: u32)
        ensures
            r == self@.gid,
    {
        self.gid
    }

    /// The cached size in bytes.
    pub fn size(&self) -> (r: u32)
        ensures
            r == self@.size,
    {
        self.size
    }

    /// The entry's mode.
    pub fn file_mode(&self) -> (r: u32)
        ensures
            r == self@.mode,
    {
        self.mode
    }

    /// The id of the entry's blob.
    pub fn oid(&self) -> (r: ObjectId)
        ensures
            r@ == self@.oid,
    {
        self.oid
    }

    /// The value of the entry's flags field: the length of the path in bytes, or
    /// 0xfff if the path is longer than that.
    pub fn flags(&self) -> (r: u16)
        ensures
            r == entry_flags(self@.path.len()),
    {
        let n = self.path.as_str().as_bytes().len();
        if n < 0xfff {
            n as u16
        } else {
            MAX_PATH_SIZE
        }
    }

    /// The serialized form of the entry.
    pub fn to_bytes(&self) -> (bytes: Vec<u8>)
        ensures
            bytes@ == entry_bytes(self@),
    {
        let mut bytes: Vec<u8> = Vec::new();
        push_u32_be(&mut bytes, self.ctime);
        push_u32_be(&mut bytes, self.ctime_nsec);
        push_u32_be(&mut bytes, self.mtime);
        push_u32_be(&mut bytes, self.mtime_nsec);
        push_u32_be(&mut bytes, self.dev);
        push_u32_be(&mut bytes, self.ino);
        push_u32_be(&mut bytes, self.mode);
        push_u32_be(&mut bytes, self.uid);
        push_u32_be(&mut bytes, self.gid);
        push_u32_be(&mut bytes, self.size);
        proof {
            self.oid.lemma_len();
            lemma_fixed_part_len(self@);
        }
        let id = self.oid.to_vec();
        bytes.extend_from_slice(id.as_slice());
        assert(bytes@ =~= be32(self.ctime) + be32(self.ctime_nsec) + be32(self.mtime) + be32(
            self.mtime_nsec,
        ) + be32(self.dev) + be32(self.ino) + be32(self.mode) + be32(self.uid) + be32(self.gid)
            + be32(self.size) + self.oid@);
        push_u16_be(&mut bytes, self.flags());
        assert(bytes@ == entry_fixed_part(self@));
        bytes.extend_from_slice(self.path_bytes());
        bytes.push(0u8);
        let ghost body = bytes@;
        assert(body =~= entry_fixed_part(self@) + self@.path + seq![0u8]);
        let ghost mut pad: nat = 0;
        while bytes.len() % ENTRY_BLOCK != 0
            invariant
                bytes@ == body + zeros(pad),
                pad < 8,
                pad <= padding_len(body.len()),
            decreases 8 - pad,
        {
            bytes.push(0u8);
            proof {
                pad = pad + 1;
                assert(bytes@ =~= body + zeros(pad));
            }
        }
        assert(pad == padding_len(body.len()));
        bytes
    }

    /// Reads one entry from its serialized block.
    pub fn parse(block: &[u8]) -> (r: Option<Entry>)
        ensures
            match r {
                Some(e) => decode_entry(block@) == Some(e@),
                None => decode_entry(block@) is None,
            },
    {
        if block.len() < MIN_ENTRY_SIZE {
            return None;
        }
        let mut end: usize = PATH_OFFSET;
        while end < block.len() && block[end] != 0
            invariant
                62 <= end <= block@.len(),
                forall|k: int| 62 <= k < end ==> block@[k] != 0,
            decreases block@.len() - end,
        {
            end += 1;
        }
        proof {
            lemma_nul_position(block@, 62, end as int);
        }
        if end >= block.len() {
            return None;
        }
        let mode = read_u32_be(block, 24);
        if mode != REGULAR_MODE && mode != EXECUTABLE_MODE {
            return None;
        }
        let path = match string_from_utf8(slice_to_vec(slice_subrange(block, PATH_OFFSET, end))) {
            Some(path) => path,
            None => {
                return None;
            },
        };
        let oid = match ObjectId::from_bytes(slice_subrange(block, 40, 60)) {
            Some(oid) => oid,
            None => {
                return None;
            },
        };
        Some(
            Entry {
                ctime: read_u32_be(block, 0),
                ctime_nsec: read_u32_be(block, 4),
                mtime: read_u32_be(block, 8),
                mtime_nsec: read_u32_be(block, 12),
                dev: read_u32_be(block, 16),
                ino: read_u32_be(block, 20),
                mode,
                uid: read_u32_be(block, 28),
                gid: read_u32_be(block, 32),
                size: read_u32_be(block, 36),
                oid,
                path,
            },
        )
    }
}

} // verus!

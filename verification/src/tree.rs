use crate::encoding::{bytes_stand_at, lemma_nul_position, nul_position, stands_at};
use crate::entry::{EXECUTABLE_MODE, REGULAR_MODE};
use crate::object_id::ObjectId;
use crate::order::{PathOrder, order_bytes};
use vstd::prelude::*;
use vstd::slice::{slice_subrange, slice_to_vec};

verus! {

/// Mode of a tree entry that names a subdirectory.
pub const TREE_MODE: u32 = 0o40000;

/// One entry of a tree: a path segment with the mode and id of what it names.
pub struct TreeEntryView {
    pub mode: u32,
    pub name: Seq<u8>,
    pub oid: Seq<u8>,
}

impl TreeEntryView {
    /// Whether the entry names a subdirectory.
    pub open spec fn is_tree(self) -> bool {
        self.mode == TREE_MODE
    }

    /// The mode is one of the three that a tree holds, the name is a single
    /// path segment, and the id has 20 bytes.
    pub open spec fn wf(self) -> bool {
        &&& valid_tree_mode(self.mode)
        &&& valid_segment(self.name)
        &&& self.oid.len() == 20
    }
}

/// The modes that a tree entry may have: regular file, executable file, tree.
pub open spec fn valid_tree_mode(mode: u32) -> bool {
    mode == REGULAR_MODE || mode == EXECUTABLE_MODE || mode == TREE_MODE
}

/// A single path segment: not empty, without a zero byte and without `/`.
pub open spec fn valid_segment(name: Seq<u8>) -> bool {
    &&& name.len() > 0
    &&& forall|k: int| 0 <= k < name.len() ==> name[k] != 0 && name[k] != 0x2f
}

/// The mode as a tree payload spells it: octal digits, then a space.
pub open spec fn mode_text(mode: u32) -> Seq<u8> {
    if mode == TREE_MODE {
        seq![0x34u8, 0x30u8, 0x30u8, 0x30u8, 0x30u8, 0x20u8]
    } else if mode == EXECUTABLE_MODE {
        seq![0x31u8, 0x30u8, 0x30u8, 0x37u8, 0x35u8, 0x35u8, 0x20u8]
    } else {
        seq![0x31u8, 0x30u8, 0x30u8, 0x36u8, 0x34u8, 0x34u8, 0x20u8]
    }
}

/// The bytes of one tree entry: mode, space, name, zero byte, raw id.
pub open spec fn tree_entry_bytes(e: TreeEntryView) -> Seq<u8> {
    mode_text(e.mode) + e.name + seq![0u8] + e.oid
}

/// The payload of a tree: its entries, one behind the other.
pub open spec fn tree_bytes(s: Seq<TreeEntryView>) -> Seq<u8>
    decreases s.len(),
{
    if s.len() == 0 {
        Seq::empty()
    } else {
        tree_entry_bytes(s[0]) + tree_bytes(s.drop_first())
    }
}

/// The mode whose text stands in `bytes` at `start`.
pub open spec fn tree_mode_at(bytes: Seq<u8>, start: int) -> Option<u32> {
    if stands_at(bytes, start, mode_text(REGULAR_MODE)) {
        Some(REGULAR_MODE)
    } else if stands_at(bytes, start, mode_text(EXECUTABLE_MODE)) {
        Some(EXECUTABLE_MODE)
    } else if stands_at(bytes, start, mode_text(TREE_MODE)) {
        Some(TREE_MODE)
    } else {
        None
    }
}

/// The entries that stand in `bytes` from `start` to the end, if entries fill
/// that range exactly.
pub open spec fn decode_tree(bytes: Seq<u8>, start: int) -> Option<Seq<TreeEntryView>>
    decreases bytes.len() - start,
{
    if start < 0 || start > bytes.len() {
        None
    } else if start == bytes.len() {
        Some(Seq::empty())
    } else {
        match tree_mode_at(bytes, start) {
            None => None,
            Some(mode) => {
                let name_start = start + mode_text(mode).len();
                let nul = nul_position(bytes, name_start);
                let name = bytes.subrange(name_start, nul);
                if nul < name_start || nul + 21 > bytes.len() || !valid_segment(name) {
                    None
                } else {
                    match decode_tree(bytes, nul + 21) {
                        None => None,
                        Some(rest) => Some(
                            seq![
                                TreeEntryView {
                                    mode,
                                    name,
                                    oid: bytes.subrange(nul + 1, nul + 21),
                                },
                            ] + rest,
                        ),
                    }
                }
            },
        }
    }
}

/// No name occurs twice.
pub open spec fn distinct_names(s: Seq<TreeEntryView>) -> bool {
    forall|i: int, j: int| #![trigger s[i], s[j]] 0 <= i < j < s.len() ==> s[i].name != s[j].name
}

/// Every entry is well-formed.
pub open spec fn entries_wf(s: Seq<TreeEntryView>) -> bool {
    forall|i: int| 0 <= i < s.len() ==> (#[trigger] s[i]).wf()
}

/// The entries of a tree payload: what `decode_tree` reads, if no name occurs
/// twice.
pub open spec fn parse_tree(bytes: Seq<u8>) -> Option<Seq<TreeEntryView>> {
    match decode_tree(bytes, 0) {
        Some(s) => if distinct_names(s) {
            Some(s)
        } else {
            None
        },
        None => None,
    }
}

/// What `decode_tree` reads is a run of well-formed entries.
pub proof fn lemma_decoded_tree_wf(bytes: Seq<u8>, start: int)
    requires
        decode_tree(bytes, start) is Some,
    ensures
        entries_wf(decode_tree(bytes, start).unwrap()),
    decreases bytes.len() - start,
{
    if 0 <= start < bytes.len() {
        let mode = tree_mode_at(bytes, start).unwrap();
        let name_start = start + mode_text(mode).len();
        let nul = nul_position(bytes, name_start);
        lemma_decoded_tree_wf(bytes, nul + 21);
        let rest = decode_tree(bytes, nul + 21).unwrap();
        let s = decode_tree(bytes, start).unwrap();
        assert forall|i: int| 0 <= i < s.len() implies (#[trigger] s[i]).wf() by {
            if i > 0 {
                assert(s[i] == rest[i - 1]);
            }
        }
    }
}

proof fn lemma_mode_at(bytes: Seq<u8>, start: int, mode: u32)
    requires
        valid_tree_mode(mode),
        stands_at(bytes, start, mode_text(mode)),
    ensures
        tree_mode_at(bytes, start) == Some(mode),
{
    let r = mode_text(REGULAR_MODE);
    let x = mode_text(EXECUTABLE_MODE);
    let t = mode_text(TREE_MODE);
    if mode != REGULAR_MODE && stands_at(bytes, start, r) {
        if mode == EXECUTABLE_MODE {
            assert(bytes.subrange(start, start + 7)[3] == r[3]);
            assert(bytes.subrange(start, start + 7)[3] == x[3]);
        } else {
            assert(bytes.subrange(start, start + 7)[0] == r[0]);
            assert(bytes.subrange(start, start + 6)[0] == t[0]);
        }
    }
    if mode == TREE_MODE && stands_at(bytes, start, x) {
        assert(bytes.subrange(start, start + 7)[0] == x[0]);
        assert(bytes.subrange(start, start + 6)[0] == t[0]);
    }
}

/// Where the serialized entries `s` end a payload, reading them back gives `s`.
pub proof fn lemma_decode_tree_round_trip(bytes: Seq<u8>, start: int, s: Seq<TreeEntryView>)
    requires
        entries_wf(s),
        0 <= start <= bytes.len(),
        bytes.subrange(start, bytes.len() as int) == tree_bytes(s),
    ensures
        decode_tree(bytes, start) == Some(s),
    decreases s.len(),
{
    if s.len() == 0 {
        assert(bytes.subrange(start, bytes.len() as int).len() == 0);
        assert(s =~= Seq::<TreeEntryView>::empty());
    } else {
        let e = s[0];
        let rest = s.drop_first();
        let block = tree_entry_bytes(e);
        let after = tree_bytes(rest);
        let tail = bytes.subrange(start, bytes.len() as int);
        let m = mode_text(e.mode);
        assert(e.wf());
        assert(tail == block + after);
        assert(tail.len() == block.len() + after.len());
        let name_start = start + m.len();
        let nul = name_start + e.name.len();
        let end = start + block.len();
        assert forall|k: int| 0 <= k < block.len() implies bytes[start + k] == block[k] by {
            assert(tail[k] == bytes[start + k]);
        }
        assert(bytes.subrange(start, start + m.len()) =~= m) by {
            assert forall|k: int| 0 <= k < m.len() implies bytes[start + k] == m[k] by {
                assert(block[k] == m[k]);
            }
        }
        lemma_mode_at(bytes, start, e.mode);
        assert forall|k: int| name_start <= k < nul implies bytes[k] != 0 by {
            assert(bytes[k] == block[k - start]);
            assert(block[k - start] == e.name[k - name_start]);
        }
        assert(bytes[nul] == 0) by {
            assert(bytes[nul] == block[nul - start]);
        }
        lemma_nul_position(bytes, name_start, nul);
        assert(bytes.subrange(name_start, nul) =~= e.name) by {
            assert forall|k: int| 0 <= k < e.name.len() implies bytes[name_start + k]
                == e.name[k] by {
                assert(bytes[name_start + k] == block[name_start + k - start]);
            }
        }
        assert(bytes.subrange(nul + 1, nul + 21) =~= e.oid) by {
            assert forall|k: int| 0 <= k < 20 implies bytes[nul + 1 + k] == e.oid[k] by {
                assert(bytes[nul + 1 + k] == block[nul + 1 + k - start]);
            }
        }
        assert(bytes.subrange(end, bytes.len() as int) =~= after) by {
            assert forall|k: int| 0 <= k < after.len() implies bytes[end + k] == after[k] by {
                assert(tail[block.len() + k] == bytes[end + k]);
            }
        }
        assert(entries_wf(rest)) by {
            assert forall|i: int| 0 <= i < rest.len() implies (#[trigger] rest[i]).wf() by {
                assert(rest[i] == s[i + 1]);
            }
        }
        lemma_decode_tree_round_trip(bytes, end, rest);
        assert(seq![e] + rest =~= s);
        assert(end == nul + 21);
    }
}

/// Round trip: the payload written for a tree without repeated names reads back
/// as that tree.
pub proof fn lemma_tree_round_trip(s: Seq<TreeEntryView>)
    requires
        entries_wf(s),
        distinct_names(s),
    ensures
        parse_tree(tree_bytes(s)) == Some(s),
{
    let bytes = tree_bytes(s);
    assert(bytes.subrange(0, bytes.len() as int) =~= bytes);
    lemma_decode_tree_round_trip(bytes, 0, s);
}

/// Serializing one more entry appends its bytes.
pub proof fn lemma_tree_bytes_push(s: Seq<TreeEntryView>, e: TreeEntryView)
    ensures
        tree_bytes(s.push(e)) == tree_bytes(s) + tree_entry_bytes(e),
    decreases s.len(),
{
    if s.len() == 0 {
        assert(s.push(e).drop_first() =~= Seq::<TreeEntryView>::empty());
        assert(tree_bytes(s.push(e).drop_first()) =~= Seq::<u8>::empty());
        assert(tree_bytes(s) =~= Seq::<u8>::empty());
        assert(tree_bytes(s.push(e)) =~= tree_bytes(s) + tree_entry_bytes(e));
    } else {
        assert(s.push(e).drop_first() =~= s.drop_first().push(e));
        lemma_tree_bytes_push(s.drop_first(), e);
        assert(tree_bytes(s.push(e)) =~= tree_bytes(s) + tree_entry_bytes(e));
    }
}

/// One entry of a tree.
#[derive(Debug)]
pub struct TreeEntry {
    mode: u32,
    name: Vec<u8>,
    oid: ObjectId,
}

impl View for TreeEntry {
    type V = TreeEntryView;

    closed spec fn view(&self) -> TreeEntryView {
        TreeEntryView { mode: self.mode, name: self.name@, oid: self.oid@ }
    }
}

/// The entries of a tree as values.
pub open spec fn tree_view(entries: Seq<TreeEntry>) -> Seq<TreeEntryView> {
    Seq::new(entries.len(), |i: int| entries[i]@)
}

fn segment_ok(name: &[u8]) -> (r: bool)
    ensures
        r == valid_segment(name@),
{
    if name.len() == 0 {
        return false;
    }
    let mut i: usize = 0;
    while i < name.len()
        invariant
            i <= name@.len(),
            forall|k: int| 0 <= k < i ==> name@[k] != 0 && name@[k] != 0x2f,
        decreases name@.len() - i,
    {
        if name[i] == 0 || name[i] == 0x2f {
            return false;
        }
        i += 1;
    }
    true
}

fn mode_text_of(mode: u32) -> (out: Vec<u8>)
    ensures
        out@ == mode_text(mode),
{
    let mut out: Vec<u8> = Vec::new();
    if mode == TREE_MODE {
        out.push(0x34u8);
        out.push(0x30u8);
        out.push(0x30u8);
        out.push(0x30u8);
        out.push(0x30u8);
    } else if mode == EXECUTABLE_MODE {
        out.push(0x31u8);
        out.push(0x30u8);
        out.push(0x30u8);
        out.push(0x37u8);
        out.push(0x35u8);
        out.push(0x35u8);
    } else {
        out.push(0x31u8);
        out.push(0x30u8);
        out.push(0x30u8);
        out.push(0x36u8);
        out.push(0x34u8);
        out.push(0x34u8);
    }
    out.push(0x20u8);
    assert(out@ =~= mode_text(mode));
    out
}

fn read_mode_at(bytes: &[u8], start: usize) -> (r: Option<u32>)
    requires
        start <= bytes@.len(),
    ensures
        r == tree_mode_at(bytes@, start as int),
{
    if bytes_stand_at(bytes, start, mode_text_of(REGULAR_MODE).as_slice()) {
        Some(REGULAR_MODE)
    } else if bytes_stand_at(bytes, start, mode_text_of(EXECUTABLE_MODE).as_slice()) {
        Some(EXECUTABLE_MODE)
    } else if bytes_stand_at(bytes, start, mode_text_of(TREE_MODE).as_slice()) {
        Some(TREE_MODE)
    } else {
        None
    }
}

impl TreeEntry {
    /// The entry with the given mode, name and id, if they make a well-formed
    /// entry.
    pub fn new(mode: u32, name: &[u8], oid: ObjectId) -> (r: Option<TreeEntry>)
        ensures
            r is Some <==> valid_tree_mode(mode) && valid_segment(name@),
            r matches Some(e) ==> e@ == (TreeEntryView { mode, name: name@, oid: oid@ })
                && e@.wf(),
    {
        if mode != REGULAR_MODE && mode != EXECUTABLE_MODE && mode != TREE_MODE {
            return None;
        }
        if !segment_ok(name) {
            return None;
        }
        proof {
            oid.lemma_len();
        }
        Some(TreeEntry { mode, name: slice_to_vec(name), oid })
    }

    /// The entry's mode.
    pub fn mode(&self) -> (r: u32)
        ensures
            r == self@.mode,
    {
        self.mode
    }

    /// The entry's name.
    pub fn name(&self) -> (r: &[u8])
        ensures
            r@ == self@.name,
    {
        self.name.as_slice()
    }

    /// The id of what the entry names.
    pub fn oid(&self) -> (r: ObjectId)
        ensures
            r@ == self@.oid,
    {
        self.oid
    }

    /// Whether the entry names a subdirectory.
    pub fn is_tree(&self) -> (r: bool)
        ensures
            r == self@.is_tree(),
    {
        self.mode == TREE_MODE
    }
}

/// Whether no name occurs twice among the entries.
pub fn names_distinct(entries: &Vec<TreeEntry>) -> (r: bool)
    ensures
        r == distinct_names(tree_view(entries@)),
{
    let ghost s = tree_view(entries@);
    let mut j: usize = 0;
    while j < entries.len()
        invariant
            j <= entries@.len(),
            s == tree_view(entries@),
            forall|a: int, b: int| #![trigger s[a], s[b]] 0 <= a < b < j ==> s[a].name != s[b].name,
        decreases entries@.len() - j,
    {
        let mut i: usize = 0;
        while i < j
            invariant
                i <= j,
                j < entries@.len(),
                s == tree_view(entries@),
                forall|a: int| 0 <= a < i ==> (#[trigger] s[a]).name != s[j as int].name,
            decreases j - i,
        {
            match order_bytes(entries[i].name(), entries[j].name()) {
                PathOrder::Same => {
                    assert(s[i as int].name == s[j as int].name);
                    return false;
                },
                _ => {},
            }
            i += 1;
        }
        j += 1;
    }
    true
}

/// Writes the payload of a tree.
pub fn serialize_tree(entries: &Vec<TreeEntry>) -> (out: Vec<u8>)
    ensures
        out@ == tree_bytes(tree_view(entries@)),
{
    let ghost s = tree_view(entries@);
    let mut out: Vec<u8> = Vec::new();
    let mut i: usize = 0;
    assert(s.take(0) =~= Seq::<TreeEntryView>::empty());
    while i < entries.len()
        invariant
            i <= entries@.len(),
            s == tree_view(entries@),
            out@ == tree_bytes(s.take(i as int)),
        decreases entries@.len() - i,
    {
        let ghost before = out@;
        let e = &entries[i];
        let text = mode_text_of(e.mode);
        out.extend_from_slice(text.as_slice());
        out.extend_from_slice(e.name.as_slice());
        out.push(0u8);
        let id = e.oid.to_vec();
        out.extend_from_slice(id.as_slice());
        proof {
            assert(out@ =~= before + tree_entry_bytes(s[i as int]));
            lemma_tree_bytes_push(s.take(i as int), s[i as int]);
            assert(s.take(i as int).push(s[i as int]) =~= s.take(i + 1));
        }
        i += 1;
    }
    assert(s.take(i as int) =~= s);
    out
}

/// Reads the payload of a tree: its entries in the order of the payload, or
/// `None` where the payload is not a run of well-formed entries with distinct
/// names.
pub fn read_tree(bytes: &[u8]) -> (r: Option<Vec<TreeEntry>>)
    ensures
        match r {
            Some(entries) => parse_tree(bytes@) == Some(tree_view(entries@)) && entries_wf(
                tree_view(entries@),
            ),
            None => parse_tree(bytes@) is None,
        },
{
    let mut entries: Vec<TreeEntry> = Vec::new();
    let mut pos: usize = 0;
    assert(tree_view(entries@) =~= Seq::<TreeEntryView>::empty());
    while pos < bytes.len()
        invariant
            pos <= bytes@.len(),
            decode_tree(bytes@, 0) == match decode_tree(bytes@, pos as int) {
                Some(rest) => Some(tree_view(entries@) + rest),
                None => None,
            },
        decreases bytes@.len() - pos,
    {
        let mode = match read_mode_at(bytes, pos) {
            Some(mode) => mode,
            None => {
                return None;
            },
        };
        let name_start: usize = pos + if mode == TREE_MODE {
            6
        } else {
            7
        };
        let mut nul: usize = name_start;
        while nul < bytes.len() && bytes[nul] != 0
            invariant
                name_start <= nul <= bytes@.len(),
                forall|k: int| name_start <= k < nul ==> bytes@[k] != 0,
            decreases bytes@.len() - nul,
        {
            nul += 1;
        }
        proof {
            lemma_nul_position(bytes@, name_start as int, nul as int);
        }
        if bytes.len() - nul < 21 {
            return None;
        }
        let name = slice_subrange(bytes, name_start, nul);
        if !segment_ok(name) {
            return None;
        }
        let oid = ObjectId::from_digest(slice_subrange(bytes, nul + 1, nul + 21));
        let entry = TreeEntry { mode, name: slice_to_vec(name), oid };
        proof {
            let done = tree_view(entries@);
            let e = entry@;
            match decode_tree(bytes@, nul + 21) {
                Some(rest) => {
                    assert(done + (seq![e] + rest) =~= done.push(e) + rest);
                },
                None => {},
            }
            assert(tree_view(entries@.push(entry)) =~= done.push(e));
        }
        entries.push(entry);
        pos = nul + 21;
    }
    proof {
        assert(tree_view(entries@) + Seq::<TreeEntryView>::empty() =~= tree_view(entries@));
        lemma_decoded_tree_wf(bytes@, 0);
    }
    if !names_distinct(&entries) {
        return None;
    }
    Some(entries)
}

} // verus!

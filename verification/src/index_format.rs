use crate::checksum::checksum_valid;
use crate::digest::sha1_digest;
use crate::encoding::{
    be32, from_be32, lemma_be32_round_trip, lemma_from_be32_round_trip,
    lemma_nul_position_is_first,
};
use crate::entry::{
    EntryView, decode_entry, entry_bytes, lemma_entry_bytes_layout, lemma_entry_round_trip,
};
use vstd::prelude::*;

verus! {

/// Number of bytes of the header of an index file.
pub const HEADER_SIZE: usize = 12;

/// The one format version that is read and written.
pub const INDEX_VERSION: u32 = 2;

/// Why the content of an index file was not accepted.
#[derive(Clone, Copy, Debug, PartialEq, Eq, Structural)]
pub enum CorruptIndex {
    /// The file does not end with the digest of what stands before it.
    ChecksumMismatch,
    /// The file is shorter than a header or does not start with the signature.
    MalformedHeader,
    /// The header names a format version other than 2.
    UnsupportedVersion,
    /// The digest holds, but what follows the header is not the number of
    /// entries that the header announces, one behind the other.
    MalformedEntry,
}

/// The four bytes that start an index file: `DIRC`.
pub open spec fn signature() -> Seq<u8> {
    seq![0x44u8, 0x49u8, 0x52u8, 0x43u8]
}

/// The header of an index file with `count` entries: signature, version, count.
pub open spec fn index_header(count: u32) -> Seq<u8> {
    signature() + be32(INDEX_VERSION) + be32(count)
}

/// The serialized entries, one behind the other.
pub open spec fn entries_bytes(s: Seq<EntryView>) -> Seq<u8>
    decreases s.len(),
{
    if s.len() == 0 {
        Seq::empty()
    } else {
        entry_bytes(s[0]) + entries_bytes(s.drop_first())
    }
}

/// An index file without its digest: the header and the entries.
pub open spec fn index_body(s: Seq<EntryView>) -> Seq<u8> {
    index_header(s.len() as u32) + entries_bytes(s)
}

/// The content of the index file for the entries `s`: header, entries, and the
/// digest of both.
pub open spec fn index_file(s: Seq<EntryView>) -> Seq<u8> {
    index_body(s) + sha1_digest(index_body(s))@
}

/// Where the entry that starts at `start` ends: it is tried at `len` bytes and
/// then at every 8 bytes more, and ends where its last byte is zero. `None` if
/// `body` ends before that.
pub open spec fn entry_end(body: Seq<u8>, start: int, len: int) -> Option<int>
    decreases body.len() - start - len + 8,
{
    if start < 0 || len < 64 || start + len > body.len() {
        None
    } else if body[start + len - 1] == 0 {
        Some(start + len)
    } else {
        entry_end(body, start, len + 8)
    }
}

/// The `count` entries that stand in `body` from `start` to its end, if just
/// that many stand there.
pub open spec fn decode_entries(body: Seq<u8>, start: int, count: nat) -> Option<Seq<EntryView>>
    decreases count,
{
    if count == 0 {
        if start == body.len() {
            Some(Seq::empty())
        } else {
            None
        }
    } else {
        match entry_end(body, start, 64) {
            None => None,
            Some(end) => match decode_entry(body.subrange(start, end)) {
                None => None,
                Some(e) => match decode_entries(body, end, (count - 1) as nat) {
                    None => None,
                    Some(rest) => Some(seq![e] + rest),
                },
            },
        }
    }
}

/// The number of entries that the header of `contents` announces, or why the
/// header is not accepted.
pub open spec fn parse_header(contents: Seq<u8>) -> Result<u32, CorruptIndex> {
    if contents.len() < 12 || contents.subrange(0, 4) != signature() {
        Err(CorruptIndex::MalformedHeader)
    } else if from_be32(contents.subrange(4, 8)) != INDEX_VERSION {
        Err(CorruptIndex::UnsupportedVersion)
    } else {
        Ok(from_be32(contents.subrange(8, 12)))
    }
}

/// The entries that an index file holds, in the order of the file, or why the
/// file is not accepted. The header is judged first, then the digest over all
/// but the last 20 bytes, then the entries.
pub open spec fn parse_index(contents: Seq<u8>) -> Result<Seq<EntryView>, CorruptIndex> {
    match parse_header(contents) {
        Err(e) => Err(e),
        Ok(count) => if contents.len() < 32 || !checksum_valid(contents) {
            Err(CorruptIndex::ChecksumMismatch)
        } else {
            match decode_entries(contents.subrange(0, contents.len() - 20), 12, count as nat) {
                None => Err(CorruptIndex::MalformedEntry),
                Some(s) => Ok(s),
            }
        },
    }
}

/// Serializing one more entry appends its bytes.
pub proof fn lemma_entries_bytes_push(s: Seq<EntryView>, e: EntryView)
    ensures
        entries_bytes(s.push(e)) == entries_bytes(s) + entry_bytes(e),
    decreases s.len(),
{
    if s.len() == 0 {
        assert(s.push(e).drop_first() =~= Seq::<EntryView>::empty());
        assert(entries_bytes(s.push(e).drop_first()) =~= Seq::<u8>::empty());
        assert(entries_bytes(s) =~= Seq::<u8>::empty());
        assert(entries_bytes(s.push(e)) =~= entries_bytes(s) + entry_bytes(e));
    } else {
        assert(s.push(e).drop_first() =~= s.drop_first().push(e));
        lemma_entries_bytes_push(s.drop_first(), e);
        assert(entries_bytes(s.push(e)) =~= entries_bytes(s) + entry_bytes(e));
    }
}

/// Every entry of the run survives a trip through its serialized form.
pub open spec fn all_wf(s: Seq<EntryView>) -> bool {
    forall|i: int| 0 <= i < s.len() ==> (#[trigger] s[i]).wf()
}

/// An entry that was read from a block is one that can be written again.
pub proof fn lemma_decoded_entry_wf(block: Seq<u8>)
    requires
        decode_entry(block) is Some,
    ensures
        decode_entry(block).unwrap().wf(),
{
    lemma_nul_position_is_first(block, 62);
}

proof fn lemma_entry_end_from(body: Seq<u8>, start: int, len: int, e: EntryView)
    requires
        e.wf(),
        0 <= start,
        start + entry_bytes(e).len() <= body.len(),
        body.subrange(start, start + entry_bytes(e).len()) == entry_bytes(e),
        64 <= len <= entry_bytes(e).len(),
        len % 8 == 0,
    ensures
        entry_end(body, start, len) == Some(start + entry_bytes(e).len()),
    decreases entry_bytes(e).len() - len,
{
    let block = entry_bytes(e);
    let total = block.len() as int;
    let n = e.path.len() as int;
    lemma_entry_bytes_layout(e);
    assert(body[start + len - 1] == block[len - 1]) by {
        assert(body.subrange(start, start + total)[len - 1] == body[start + len - 1]);
    }
    if len == total {
    } else {
        assert(len <= total - 8);
        assert(block[len - 1] == e.path[len - 1 - 62]) by {
            assert(block.subrange(62, 62 + n)[len - 1 - 62] == block[len - 1]);
        }
        lemma_entry_end_from(body, start, len + 8, e);
    }
}

/// Where a serialized entry stands in a file, the search for its end finds the
/// end of its padding.
pub proof fn lemma_entry_end(body: Seq<u8>, start: int, e: EntryView)
    requires
        e.wf(),
        0 <= start,
        start + entry_bytes(e).len() <= body.len(),
        body.subrange(start, start + entry_bytes(e).len()) == entry_bytes(e),
    ensures
        entry_end(body, start, 64) == Some(start + entry_bytes(e).len()),
{
    lemma_entry_bytes_layout(e);
    lemma_entry_end_from(body, start, 64, e);
}

/// Where the serialized entries `s` end a file, reading them back gives `s`.
pub proof fn lemma_decode_entries_round_trip(body: Seq<u8>, start: int, s: Seq<EntryView>)
    requires
        all_wf(s),
        0 <= start <= body.len(),
        body.subrange(start, body.len() as int) == entries_bytes(s),
    ensures
        decode_entries(body, start, s.len()) == Some(s),
    decreases s.len(),
{
    if s.len() == 0 {
    } else {
        let e = s[0];
        let rest = s.drop_first();
        let block = entry_bytes(e);
        let end = start + block.len();
        assert(e.wf());
        let tail = body.subrange(start, body.len() as int);
        let after = entries_bytes(rest);
        assert(tail == block + after);
        assert(tail.len() == block.len() + after.len());
        assert(body.subrange(start, end) =~= block) by {
            assert forall|k: int| 0 <= k < block.len() implies body[start + k] == block[k] by {
                assert(tail[k] == body[start + k]);
            }
        }
        assert(body.subrange(end, body.len() as int) =~= after) by {
            assert forall|k: int| 0 <= k < after.len() implies body[end + k] == after[k] by {
                assert(tail[block.len() + k] == body[end + k]);
            }
        }
        lemma_entry_end(body, start, e);
        lemma_entry_round_trip(e);
        assert(all_wf(rest)) by {
            assert forall|i: int| 0 <= i < rest.len() implies (#[trigger] rest[i]).wf() by {
                assert(rest[i] == s[i + 1]);
            }
        }
        lemma_decode_entries_round_trip(body, end, rest);
        assert(seq![e] + rest =~= s);
    }
}

/// Layout of an index file: the header takes the first 12 bytes, the digest the
/// last 20.
pub proof fn lemma_index_file_layout(s: Seq<EntryView>)
    ensures
        index_header(s.len() as u32).len() == 12,
        index_file(s).len() == 32 + entries_bytes(s).len(),
        index_file(s).subrange(0, 4) == signature(),
        index_file(s).subrange(4, 8) == be32(INDEX_VERSION),
        index_file(s).subrange(8, 12) == be32(s.len() as u32),
        index_file(s).subrange(0, index_file(s).len() - 20) == index_body(s),
        index_file(s).subrange(index_file(s).len() - 20, index_file(s).len() as int)
            == sha1_digest(index_body(s))@,
        index_body(s).subrange(12, index_body(s).len() as int) == entries_bytes(s),
        checksum_valid(index_file(s)),
{
    let f = index_file(s);
    let body = index_body(s);
    lemma_be32_round_trip(INDEX_VERSION);
    lemma_be32_round_trip(s.len() as u32);
    assert(f.subrange(0, 4) =~= signature());
    assert(f.subrange(4, 8) =~= be32(INDEX_VERSION));
    assert(f.subrange(8, 12) =~= be32(s.len() as u32));
    assert(f.subrange(0, f.len() - 20) =~= body);
    assert(f.subrange(f.len() - 20, f.len() as int) =~= sha1_digest(body)@);
    assert(body.subrange(12, body.len() as int) =~= entries_bytes(s));
}

/// Round trip: the file written for the entries `s` is accepted, and holds `s`.
pub proof fn lemma_index_round_trip(s: Seq<EntryView>)
    requires
        all_wf(s),
        s.len() <= u32::MAX,
    ensures
        parse_index(index_file(s)) == Ok::<Seq<EntryView>, CorruptIndex>(s),
{
    let f = index_file(s);
    let body = index_body(s);
    lemma_index_file_layout(s);
    lemma_be32_round_trip(INDEX_VERSION);
    lemma_be32_round_trip(s.len() as u32);
    lemma_decode_entries_round_trip(body, 12, s);
}

/// No content is accepted unless it ends with the digest of all that stands
/// before it.
pub proof fn lemma_accepted_file_has_digest(contents: Seq<u8>)
    requires
        parse_index(contents) is Ok,
    ensures
        contents.len() >= 32,
        checksum_valid(contents),
        parse_header(contents) is Ok,
{
}

/// Corruption detection: in the file written for the entries `s`, put another
/// byte at position `at`. A change in the signature gives `MalformedHeader`, one
/// in the version `UnsupportedVersion`, one in the trailing digest
/// `ChecksumMismatch`. A change anywhere else gives `ChecksumMismatch` too, unless
/// the changed content has the digest that the file had before: only then can
/// the changed file be accepted.
pub proof fn lemma_changed_byte_detected(s: Seq<EntryView>, at: int, byte: u8)
    requires
        s.len() <= u32::MAX,
        0 <= at < index_file(s).len(),
        byte != index_file(s)[at],
    ensures
        ({
            let changed = index_file(s).update(at, byte);
            let r = parse_index(changed);
            &&& at < 4 ==> r == Err::<Seq<EntryView>, CorruptIndex>(CorruptIndex::MalformedHeader)
            &&& 4 <= at < 8 ==> r == Err::<Seq<EntryView>, CorruptIndex>(
                CorruptIndex::UnsupportedVersion,
            )
            &&& at >= changed.len() - 20 ==> r == Err::<Seq<EntryView>, CorruptIndex>(
                CorruptIndex::ChecksumMismatch,
            )
            &&& 8 <= at < changed.len() - 20 && sha1_digest(
                changed.subrange(0, changed.len() - 20),
            )@ != sha1_digest(index_body(s))@ ==> r == Err::<Seq<EntryView>, CorruptIndex>(
                CorruptIndex::ChecksumMismatch,
            )
            &&& r is Ok ==> 8 <= at < changed.len() - 20 && sha1_digest(
                changed.subrange(0, changed.len() - 20),
            )@ == sha1_digest(index_body(s))@
        }),
{
    let f = index_file(s);
    let changed = f.update(at, byte);
    let n = f.len() as int;
    lemma_index_file_layout(s);
    lemma_be32_round_trip(INDEX_VERSION);
    if at < 4 {
        assert(changed.subrange(0, 4)[at] != f.subrange(0, 4)[at]);
    } else {
        assert(changed.subrange(0, 4) =~= f.subrange(0, 4));
        if at < 8 {
            let version = changed.subrange(4, 8);
            assert(version[at - 4] != f.subrange(4, 8)[at - 4]);
            if from_be32(version) == INDEX_VERSION {
                lemma_from_be32_round_trip(version);
            }
        } else {
            assert(changed.subrange(4, 8) =~= f.subrange(4, 8));
            if at >= n - 20 {
                assert(changed.subrange(0, n - 20) =~= f.subrange(0, n - 20));
                assert(changed.subrange(n - 20, n)[at - (n - 20)] != f.subrange(n - 20, n)[at - (n
                    - 20)]);
            } else {
                assert(changed.subrange(n - 20, n) =~= f.subrange(n - 20, n));
            }
        }
    }
}

} // verus!

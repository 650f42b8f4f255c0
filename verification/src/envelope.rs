use crate::digest::{sha1, sha1_digest};
use crate::encoding::{lemma_nul_position, nul_position};
use crate::object_id::ObjectId;
use crate::order::{PathOrder, order_bytes};
use vstd::prelude::*;
use vstd::slice::{slice_subrange, slice_to_vec};

verus! {

/// The kinds of stored objects.
#[derive(Clone, Copy, Debug, PartialEq, Eq, Structural)]
pub enum ObjectKind {
    Blob,
    Tree,
    Commit,
}

/// The name of a kind in an envelope: `blob`, `tree` or `commit`.
pub open spec fn kind_name(kind: ObjectKind) -> Seq<u8> {
    match kind {
        ObjectKind::Blob => seq![0x62u8, 0x6cu8, 0x6fu8, 0x62u8],
        ObjectKind::Tree => seq![0x74u8, 0x72u8, 0x65u8, 0x65u8],
        ObjectKind::Commit => seq![0x63u8, 0x6fu8, 0x6du8, 0x6du8, 0x69u8, 0x74u8],
    }
}

/// The decimal digits of `n`, in ASCII, without leading zeros.
pub open spec fn decimal(n: nat) -> Seq<u8>
    decreases n,
{
    if n < 10 {
        seq![(48 + n) as u8]
    } else {
        decimal(n / 10).push((48 + n % 10) as u8)
    }
}

/// What stands before the zero byte of an envelope: kind, a space, and the
/// length of the payload in decimal.
pub open spec fn envelope_header(kind: ObjectKind, len: nat) -> Seq<u8> {
    kind_name(kind) + seq![0x20u8] + decimal(len)
}

/// The canonical envelope of a payload: `<kind> <length>`, a zero byte, and the
/// payload.
pub open spec fn envelope(kind: ObjectKind, data: Seq<u8>) -> Seq<u8> {
    envelope_header(kind, data.len()) + seq![0u8] + data
}

/// The id of a payload of a kind: the digest of its envelope.
pub open spec fn object_id_of(kind: ObjectKind, data: Seq<u8>) -> Seq<u8> {
    sha1_digest(envelope(kind, data))@
}

/// The kind and payload of an envelope. The bytes up to the first zero byte must
/// be just the header that belongs to the payload behind it.
pub open spec fn parse_envelope(bytes: Seq<u8>) -> Option<(ObjectKind, Seq<u8>)> {
    let nul = nul_position(bytes, 0);
    let header = bytes.subrange(0, nul);
    let data = bytes.subrange(nul + 1, bytes.len() as int);
    if nul >= bytes.len() {
        None
    } else if header == envelope_header(ObjectKind::Blob, data.len()) {
        Some((ObjectKind::Blob, data))
    } else if header == envelope_header(ObjectKind::Tree, data.len()) {
        Some((ObjectKind::Tree, data))
    } else if header == envelope_header(ObjectKind::Commit, data.len()) {
        Some((ObjectKind::Commit, data))
    } else {
        None
    }
}

/// Decimal digits are the characters `0` to `9`.
pub proof fn lemma_decimal_digits(n: nat)
    ensures
        decimal(n).len() >= 1,
        forall|k: int| 0 <= k < decimal(n).len() ==> 48 <= #[trigger] decimal(n)[k] <= 57,
    decreases n,
{
    if n >= 10 {
        lemma_decimal_digits(n / 10);
    }
}

/// No header holds a zero byte, and headers of different kinds differ.
pub proof fn lemma_envelope_header(kind: ObjectKind, len: nat)
    ensures
        forall|k: int|
            0 <= k < envelope_header(kind, len).len() ==> #[trigger] envelope_header(kind, len)[k]
                != 0,
        forall|other: ObjectKind, n: nat|
            other != kind ==> #[trigger] envelope_header(other, n) != envelope_header(kind, len),
{
    lemma_decimal_digits(len);
    let h = envelope_header(kind, len);
    assert forall|k: int| 0 <= k < h.len() implies #[trigger] h[k] != 0 by {
        let name = kind_name(kind);
        if k > name.len() {
            assert(h[k] == decimal(len)[k - name.len() - 1]);
        }
    }
    assert forall|other: ObjectKind, n: nat| other != kind implies #[trigger] envelope_header(
        other,
        n,
    ) != h by {
        assert(envelope_header(other, n)[0] == kind_name(other)[0]);
        assert(h[0] == kind_name(kind)[0]);
    }
}

/// Reading an envelope gives back the kind and the payload that it was made of.
pub proof fn lemma_envelope_round_trip(kind: ObjectKind, data: Seq<u8>)
    ensures
        parse_envelope(envelope(kind, data)) == Some((kind, data)),
{
    let header = envelope_header(kind, data.len());
    let bytes = envelope(kind, data);
    let nul = header.len() as int;
    lemma_envelope_header(kind, data.len());
    assert forall|k: int| 0 <= k < nul implies bytes[k] != 0 by {
        assert(bytes[k] == header[k]);
    }
    lemma_nul_position(bytes, 0, nul);
    assert(bytes.subrange(0, nul) =~= header);
    assert(bytes.subrange(nul + 1, bytes.len() as int) =~= data);
}

fn push_decimal(out: &mut Vec<u8>, n: usize)
    ensures
        final(out)@ == old(out)@ + decimal(n as nat),
    decreases n,
{
    if n >= 10 {
        push_decimal(out, n / 10);
    }
    out.push(48u8 + (n % 10) as u8);
    assert(out@ =~= old(out)@ + decimal(n as nat));
}

fn push_kind_name(out: &mut Vec<u8>, kind: ObjectKind)
    ensures
        final(out)@ == old(out)@ + kind_name(kind),
{
    match kind {
        ObjectKind::Blob => {
            out.push(0x62u8);
            out.push(0x6cu8);
            out.push(0x6fu8);
            out.push(0x62u8);
        },
        ObjectKind::Tree => {
            out.push(0x74u8);
            out.push(0x72u8);
            out.push(0x65u8);
            out.push(0x65u8);
        },
        ObjectKind::Commit => {
            out.push(0x63u8);
            out.push(0x6fu8);
            out.push(0x6du8);
            out.push(0x6du8);
            out.push(0x69u8);
            out.push(0x74u8);
        },
    }
    assert(out@ =~= old(out)@ + kind_name(kind));
}

fn build_header(kind: ObjectKind, len: usize) -> (out: Vec<u8>)
    ensures
        out@ == envelope_header(kind, len as nat),
{
    let mut out: Vec<u8> = Vec::new();
    push_kind_name(&mut out, kind);
    out.push(0x20u8);
    push_decimal(&mut out, len);
    assert(out@ =~= envelope_header(kind, len as nat));
    out
}

/// Builds the canonical envelope of a payload.
pub fn build_envelope(kind: ObjectKind, data: &[u8]) -> (out: Vec<u8>)
    ensures
        out@ == envelope(kind, data@),
{
    let mut out = build_header(kind, data.len());
    out.push(0u8);
    out.extend_from_slice(data);
    assert(out@ =~= envelope(kind, data@));
    out
}

/// The id of a payload of a kind: the digest of its envelope.
pub fn compute_id(kind: ObjectKind, data: &[u8]) -> (id: ObjectId)
    ensures
        id@ == object_id_of(kind, data@),
{
    let bytes = build_envelope(kind, data);
    let digest = sha1(bytes.as_slice());
    ObjectId::from_digest(digest.as_slice())
}

fn header_matches(header: &[u8], kind: ObjectKind, len: usize) -> (r: bool)
    ensures
        r == (header@ == envelope_header(kind, len as nat)),
{
    let expected = build_header(kind, len);
    match order_bytes(header, expected.as_slice()) {
        PathOrder::Same => true,
        _ => false,
    }
}

/// Reads an envelope: its kind and its payload, or `None` where the bytes are
/// not the canonical envelope of any payload.
pub fn read_envelope(bytes: &[u8]) -> (r: Option<(ObjectKind, Vec<u8>)>)
    ensures
        match r {
            Some((kind, data)) => parse_envelope(bytes@) == Some((kind, data@)),
            None => parse_envelope(bytes@) is None,
        },
{
    let mut nul: usize = 0;
    while nul < bytes.len() && bytes[nul] != 0
        invariant
            nul <= bytes@.len(),
            forall|k: int| 0 <= k < nul ==> bytes@[k] != 0,
        decreases bytes@.len() - nul,
    {
        nul += 1;
    }
    proof {
        lemma_nul_position(bytes@, 0, nul as int);
    }
    if nul >= bytes.len() {
        return None;
    }
    let header = slice_subrange(bytes, 0, nul);
    let data = slice_subrange(bytes, nul + 1, bytes.len());
    if header_matches(header, ObjectKind::Blob, data.len()) {
        Some((ObjectKind::Blob, slice_to_vec(data)))
    } else if header_matches(header, ObjectKind::Tree, data.len()) {
        Some((ObjectKind::Tree, slice_to_vec(data)))
    } else if header_matches(header, ObjectKind::Commit, data.len()) {
        Some((ObjectKind::Commit, slice_to_vec(data)))
    } else {
        None
    }
}

} // verus!

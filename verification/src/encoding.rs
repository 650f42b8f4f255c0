use vstd::prelude::*;
use vstd::utf8::*;

verus! {

/// The four bytes of `x`, most significant first.
#[verifier::opaque]
pub open spec fn be32(x: u32) -> Seq<u8> {
    seq![
        (x / 0x100_0000) as u8,
        (x / 0x1_0000 % 0x100) as u8,
        (x / 0x100 % 0x100) as u8,
        (x % 0x100) as u8,
    ]
}

/// The number whose big-endian bytes are the first four of `b`.
#[verifier::opaque]
pub open spec fn from_be32(b: Seq<u8>) -> u32
    recommends
        b.len() >= 4,
{
    (b[0] * 0x100_0000 + b[1] * 0x1_0000 + b[2] * 0x100 + b[3]) as u32
}

/// The two bytes of `x`, most significant first.
#[verifier::opaque]
pub open spec fn be16(x: u16) -> Seq<u8> {
    seq![(x / 0x100) as u8, (x % 0x100) as u8]
}

/// Decoding undoes encoding.
pub proof fn lemma_be32_round_trip(x: u32)
    ensures
        be32(x).len() == 4,
        from_be32(be32(x)) == x,
{
    reveal(be32);
    reveal(from_be32);
}

/// A 16-bit number takes two bytes.
pub proof fn lemma_be16_len(x: u16)
    ensures
        be16(x).len() == 2,
{
    reveal(be16);
}

/// Encoding undoes decoding.
pub proof fn lemma_from_be32_round_trip(b: Seq<u8>)
    requires
        b.len() == 4,
    ensures
        be32(from_be32(b)) == b,
{
    reveal(be32);
    reveal(from_be32);
    let (b0, b1, b2, b3) = (b[0], b[1], b[2], b[3]);
    let x: u32 = from_be32(b);
    assert(x == (b0 as u32) << 24 | (b1 as u32) << 16 | (b2 as u32) << 8 | (b3 as u32)) by {
        lemma_pack_be32(b0, b1, b2, b3);
    }
    lemma_unpack_be32(b0, b1, b2, b3);
    assert(be32(x) =~= b);
}

proof fn lemma_pack_be32(b0: u8, b1: u8, b2: u8, b3: u8)
    ensures
        b0 * 0x100_0000 + b1 * 0x1_0000 + b2 * 0x100 + b3 == ((b0 as u32) << 24 | (b1 as u32) << 16
            | (b2 as u32) << 8 | (b3 as u32)),
{
    let (w0, w1, w2, w3) = (b0 as u32, b1 as u32, b2 as u32, b3 as u32);
    assert(w0 < 0x100 && w1 < 0x100 && w2 < 0x100 && w3 < 0x100);
    assert(w0 < 0x100 && w1 < 0x100 && w2 < 0x100 && w3 < 0x100 ==> (w0 << 24 | w1 << 16 | w2 << 8
        | w3) == w0 * 0x100_0000 + w1 * 0x1_0000 + w2 * 0x100 + w3) by (bit_vector);
}

proof fn lemma_unpack_be32(b0: u8, b1: u8, b2: u8, b3: u8)
    ensures
        ({
            let x = (b0 as u32) << 24 | (b1 as u32) << 16 | (b2 as u32) << 8 | (b3 as u32);
            &&& x / 0x100_0000 == b0
            &&& x / 0x1_0000 % 0x100 == b1
            &&& x / 0x100 % 0x100 == b2
            &&& x % 0x100 == b3
        }),
{
    let (w0, w1, w2, w3) = (b0 as u32, b1 as u32, b2 as u32, b3 as u32);
    assert(w0 < 0x100 && w1 < 0x100 && w2 < 0x100 && w3 < 0x100 ==> ({
        let x = w0 << 24 | w1 << 16 | w2 << 8 | w3;
        &&& x / 0x100_0000 == w0
        &&& x / 0x1_0000 % 0x100 == w1
        &&& x / 0x100 % 0x100 == w2
        &&& x % 0x100 == w3
    })) by (bit_vector);
}

/// Appends the big-endian bytes of `x` to `out`.
pub fn push_u32_be(out: &mut Vec<u8>, x: u32)
    ensures
        final(out)@ == old(out)@ + be32(x),
{
    let b0: u8 = (x >> 24) as u8;
    let b1: u8 = ((x >> 16) & 0xff) as u8;
    let b2: u8 = ((x >> 8) & 0xff) as u8;
    let b3: u8 = (x & 0xff) as u8;
    proof {
        assert(x >> 24 == x / 0x100_0000) by (bit_vector);
        assert((x >> 16) & 0xff == x / 0x1_0000 % 0x100) by (bit_vector);
        assert((x >> 8) & 0xff == x / 0x100 % 0x100) by (bit_vector);
        assert(x & 0xff == x % 0x100) by (bit_vector);
    }
    out.push(b0);
    out.push(b1);
    out.push(b2);
    out.push(b3);
    proof {
        reveal(be32);
    }
    assert(out@ =~= old(out)@ + be32(x));
}

/// Appends the big-endian bytes of `x` to `out`.
pub fn push_u16_be(out: &mut Vec<u8>, x: u16)
    ensures
        final(out)@ == old(out)@ + be16(x),
{
    let b0: u8 = (x >> 8) as u8;
    let b1: u8 = (x & 0xff) as u8;
    proof {
        assert(x >> 8 == x / 0x100) by (bit_vector);
        assert(x & 0xff == x % 0x100) by (bit_vector);
    }
    out.push(b0);
    out.push(b1);
    proof {
        reveal(be16);
    }
    assert(out@ =~= old(out)@ + be16(x));
}

/// Reads the big-endian number stored in the four bytes of `data` from `at` on.
pub fn read_u32_be(data: &[u8], at: usize) -> (x: u32)
    requires
        at + 4 <= data@.len(),
    ensures
        x == from_be32(data@.subrange(at as int, at + 4)),
{
    let b0: u32 = data[at] as u32;
    let b1: u32 = data[at + 1] as u32;
    let b2: u32 = data[at + 2] as u32;
    let b3: u32 = data[at + 3] as u32;
    proof {
        reveal(from_be32);
    }
    b0 * 0x100_0000 + b1 * 0x1_0000 + b2 * 0x100 + b3
}

/// Calls `String::from_utf8` on `bytes`. It succeeds exactly when the bytes are
/// well-formed UTF-8, and the string it then returns is made of just these bytes.
#[verifier::external_body]
pub(crate) fn string_from_utf8(bytes: Vec<u8>) -> (r: Option<String>)
    ensures
        r is Some <==> valid_utf8(bytes@),
        r matches Some(text) ==> encode_utf8(text@) == bytes@,
{
    match String::from_utf8(bytes) {
        Ok(text) => Some(text),
        Err(_) => None,
    }
}

/// Texts as values.
pub open spec fn texts_view(texts: Seq<String>) -> Seq<Seq<char>> {
    Seq::new(texts.len(), |i: int| texts[i]@)
}

/// A run of `n` zero bytes.
pub open spec fn zeros(n: nat) -> Seq<u8> {
    Seq::new(n, |i: int| 0u8)
}

/// Whether `pattern` stands in `bytes` at `start`.
pub open spec fn stands_at(bytes: Seq<u8>, start: int, pattern: Seq<u8>) -> bool {
    &&& 0 <= start
    &&& start + pattern.len() <= bytes.len()
    &&& bytes.subrange(start, start + pattern.len()) == pattern
}

/// Whether `pattern` stands in `bytes` at `start`.
pub fn bytes_stand_at(bytes: &[u8], start: usize, pattern: &[u8]) -> (r: bool)
    requires
        start <= bytes@.len(),
    ensures
        r == stands_at(bytes@, start as int, pattern@),
{
    if bytes.len() - start < pattern.len() {
        return false;
    }
    let mut i: usize = 0;
    while i < pattern.len()
        invariant
            i <= pattern@.len(),
            start + pattern@.len() <= bytes@.len(),
            bytes@.len() <= usize::MAX,
            forall|k: int| 0 <= k < i ==> bytes@[start + k] == pattern@[k],
        decreases pattern@.len() - i,
    {
        if bytes[start + i] != pattern[i] {
            assert(bytes@.subrange(start as int, start + pattern@.len())[i as int]
                != pattern@[i as int]);
            return false;
        }
        i += 1;
    }
    assert(bytes@.subrange(start as int, start + pattern@.len()) =~= pattern@);
    true
}

/// The position of the first byte `b` of `s` at or after `from`; the length of
/// `s` if there is none.
pub open spec fn byte_position(s: Seq<u8>, from: int, b: u8) -> int
    decreases s.len() - from,
{
    if from < 0 || from >= s.len() {
        s.len() as int
    } else if s[from] == b {
        from
    } else {
        byte_position(s, from + 1, b)
    }
}

/// `byte_position` is the first occurrence: a byte `b` at `at`, with none
/// between `from` and `at`, is the one it finds; with none up to the end it
/// gives the length.
pub proof fn lemma_byte_position(s: Seq<u8>, from: int, at: int, b: u8)
    requires
        0 <= from <= at <= s.len(),
        forall|k: int| from <= k < at ==> s[k] != b,
        at < s.len() ==> s[at] == b,
    ensures
        byte_position(s, from, b) == at,
    decreases at - from,
{
    if from < at {
        lemma_byte_position(s, from + 1, at, b);
    }
}

/// Finds the first byte `b` of `data` at or after `from`.
pub fn find_byte(data: &[u8], from: usize, b: u8) -> (at: usize)
    requires
        from <= data@.len(),
    ensures
        at == byte_position(data@, from as int, b),
        from <= at <= data@.len(),
        at < data@.len() ==> data@[at as int] == b,
        forall|k: int| from <= k < at ==> data@[k] != b,
{
    let mut at: usize = from;
    while at < data.len() && data[at] != b
        invariant
            from <= at <= data@.len(),
            forall|k: int| from <= k < at ==> data@[k] != b,
        decreases data@.len() - at,
    {
        at += 1;
    }
    proof {
        lemma_byte_position(data@, from as int, at as int, b);
    }
    at
}

/// The position of the first zero byte of `s` at or after `from`; the length of
/// `s` if there is none.
pub open spec fn nul_position(s: Seq<u8>, from: int) -> int {
    byte_position(s, from, 0)
}

/// `nul_position` is the first zero byte: a zero at `at`, with none between `from`
/// and `at`, is the one it finds; with none up to the end it gives the length.
pub proof fn lemma_nul_position(s: Seq<u8>, from: int, at: int)
    requires
        0 <= from <= at <= s.len(),
        forall|k: int| from <= k < at ==> s[k] != 0,
        at < s.len() ==> s[at] == 0,
    ensures
        nul_position(s, from) == at,
{
    lemma_byte_position(s, from, at, 0);
}

/// No byte between `from` and `nul_position` is zero.
pub proof fn lemma_nul_position_is_first(s: Seq<u8>, from: int)
    requires
        0 <= from,
    ensures
        from <= nul_position(s, from) || nul_position(s, from) == s.len(),
        nul_position(s, from) <= s.len(),
        nul_position(s, from) < s.len() ==> s[nul_position(s, from)] == 0,
        forall|k: int| from <= k < nul_position(s, from) ==> s[k] != 0,
    decreases s.len() - from,
{
    if from < s.len() && s[from] != 0 {
        lemma_nul_position_is_first(s, from + 1);
    }
}

} // verus!

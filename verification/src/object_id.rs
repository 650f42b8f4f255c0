use vstd::prelude::*;
use vstd::utf8::*;

verus! {

/// Appending one character to a `String` appends it to the string's view.
pub assume_specification[ String::push ](text: &mut String, c: char)
    ensures
        final(text)@ == old(text)@.push(c),
;

/// Number of raw bytes in an object id.
pub const ID_BYTES: usize = 20;

/// Number of hexadecimal characters in the text form of an object id.
pub const ID_HEX_CHARS: usize = 40;

/// The lower-case hexadecimal digit for a value below 16.
pub open spec fn hex_char(n: u8) -> char
    recommends
        n < 16,
{
    if n < 10 {
        (n + 48) as u8 as char
    } else {
        (n + 87) as u8 as char
    }
}

/// The value of a hexadecimal digit, in either case; `None` for any other character.
pub open spec fn hex_value(c: char) -> Option<u8> {
    if '0' <= c <= '9' {
        Some((c as u8 - 48) as u8)
    } else if 'a' <= c <= 'f' {
        Some((c as u8 - 87) as u8)
    } else if 'A' <= c <= 'F' {
        Some((c as u8 - 55) as u8)
    } else {
        None
    }
}

/// Two lower-case hexadecimal digits for each byte, high nibble first.
pub open spec fn hex_text(bytes: Seq<u8>) -> Seq<char> {
    Seq::new(
        2 * bytes.len(),
        |i: int|
            if i % 2 == 0 {
                hex_char(bytes[i / 2] / 16)
            } else {
                hex_char(bytes[i / 2] % 16)
            },
    )
}

/// Every character is a hexadecimal digit.
pub open spec fn is_hex_text(text: Seq<char>) -> bool {
    forall|i: int| 0 <= i < text.len() ==> (#[trigger] hex_value(text[i])) is Some
}

/// The bytes that an even-length run of hexadecimal digits spells.
pub open spec fn hex_bytes(text: Seq<char>) -> Seq<u8>
    recommends
        is_hex_text(text),
        text.len() % 2 == 0,
{
    Seq::new(
        text.len() / 2,
        |i: int| (hex_value(text[2 * i]).unwrap() * 16 + hex_value(text[2 * i + 1]).unwrap()) as u8,
    )
}

/// The characters that the bytes of an ASCII text stand for.
pub open spec fn ascii_chars(bytes: Seq<u8>) -> Seq<char> {
    Seq::new(bytes.len(), |i: int| bytes[i] as char)
}

/// The text form of `bytes` as ASCII bytes.
pub open spec fn hex_ascii(bytes: Seq<u8>) -> Seq<u8> {
    Seq::new(2 * bytes.len(), |i: int| hex_char(nibble(bytes, i)) as u8)
}

/// The ASCII text form reads as the text form, and reading it back gives the
/// bytes.
pub proof fn lemma_hex_ascii(bytes: Seq<u8>)
    ensures
        hex_ascii(bytes).len() == 2 * bytes.len(),
        ascii_chars(hex_ascii(bytes)) == hex_text(bytes),
        is_hex_text(ascii_chars(hex_ascii(bytes))),
        hex_bytes(ascii_chars(hex_ascii(bytes))) == bytes,
        forall|k: int|
            0 <= k < hex_ascii(bytes).len() ==> 48 <= #[trigger] hex_ascii(bytes)[k] < 128,
{
    let text = hex_ascii(bytes);
    assert forall|i: int| 0 <= i < text.len() implies ascii_chars(text)[i] == hex_text(bytes)[i]
        && 48 <= #[trigger] text[i] < 128 by {
        lemma_hex_char_value(nibble(bytes, i));
    }
    assert(ascii_chars(text) =~= hex_text(bytes));
    lemma_hex_round_trip(bytes);
}

/// The hexadecimal digit at position `k` of the text form of `id`, as a number.
pub open spec fn nibble(id: Seq<u8>, k: int) -> u8 {
    if k % 2 == 0 {
        id[k / 2] / 16
    } else {
        id[k / 2] % 16
    }
}

/// Whether the text form of `id` starts with the hexadecimal digits `prefix`,
/// read in either case.
pub open spec fn has_hex_prefix(id: Seq<u8>, prefix: Seq<u8>) -> bool {
    &&& prefix.len() <= 2 * id.len()
    &&& forall|k: int|
        0 <= k < prefix.len() ==> hex_value(#[trigger] prefix[k] as char) == Some(nibble(id, k))
}

/// Reading back the hexadecimal text of some bytes gives the bytes.
pub proof fn lemma_hex_round_trip(bytes: Seq<u8>)
    ensures
        hex_text(bytes).len() == 2 * bytes.len(),
        is_hex_text(hex_text(bytes)),
        hex_bytes(hex_text(bytes)) == bytes,
{
    let text = hex_text(bytes);
    assert forall|i: int| 0 <= i < text.len() implies (#[trigger] hex_value(text[i])) is Some by {
        lemma_hex_char_value((bytes[i / 2] / 16) as u8);
        lemma_hex_char_value((bytes[i / 2] % 16) as u8);
    }
    assert forall|i: int| 0 <= i < bytes.len() implies hex_bytes(text)[i] == bytes[i] by {
        lemma_hex_char_value((bytes[i] / 16) as u8);
        lemma_hex_char_value((bytes[i] % 16) as u8);
        assert((2 * i) / 2 == i && (2 * i + 1) / 2 == i);
    }
    assert(hex_bytes(text) =~= bytes);
}

/// Hexadecimal text is ASCII.
pub proof fn lemma_hex_text_ascii(bytes: Seq<u8>)
    ensures
        is_ascii_chars(hex_text(bytes)),
{
    let text = hex_text(bytes);
    assert forall|i: int| 0 <= i < text.len() implies '\0' <= #[trigger] text[i] <= '\u{7f}' by {
        lemma_hex_char_value((bytes[i / 2] / 16) as u8);
        lemma_hex_char_value((bytes[i / 2] % 16) as u8);
    }
}

proof fn lemma_hex_char_value(n: u8)
    requires
        n < 16,
    ensures
        hex_value(hex_char(n)) == Some(n),
        '\0' <= hex_char(n) <= '\u{7f}',
{
}

/// Content digest that names a stored object: 20 raw bytes.
#[derive(Clone, Copy, Debug, PartialEq, Eq, Hash)]
pub struct ObjectId {
    bytes: [u8; 20],
}

impl View for ObjectId {
    type V = Seq<u8>;

    closed spec fn view(&self) -> Seq<u8> {
        self.bytes@
    }
}

/// Ids as values.
pub open spec fn ids_view(ids: Seq<ObjectId>) -> Seq<Seq<u8>> {
    Seq::new(ids.len(), |i: int| ids[i]@)
}

fn hex_digit_byte(n: u8) -> (b: u8)
    requires
        n < 16,
    ensures
        b as char == hex_char(n),
        b == hex_char(n) as u8,
{
    if n < 10 {
        n + 48
    } else {
        n + 87
    }
}

fn hex_digit(n: u8) -> (c: char)
    requires
        n < 16,
    ensures
        c == hex_char(n),
{
    if n < 10 {
        (n + 48) as char
    } else {
        (n + 87) as char
    }
}

fn hex_nibble(b: u8) -> (r: Option<u8>)
    ensures
        r == hex_value(b as char),
        r matches Some(n) ==> n < 16,
{
    if 48 <= b && b <= 57 {
        Some(b - 48)
    } else if 97 <= b && b <= 102 {
        Some(b - 87)
    } else if 65 <= b && b <= 70 {
        Some(b - 55)
    } else {
        None
    }
}

impl ObjectId {
    /// An id always holds 20 bytes.
    pub proof fn lemma_len(self)
        ensures
            self@.len() == 20,
    {
    }

    /// Two ids with the same bytes are the same id.
    pub proof fn lemma_ext_equal(self, other: ObjectId)
        requires
            self@ == other@,
        ensures
            self == other,
    {
        assert(self.bytes =~= other.bytes);
    }

    /// The id made of the given bytes, if there are exactly 20 of them.
    pub fn from_bytes(data: &[u8]) -> (r: Option<ObjectId>)
        ensures
            r is Some <==> data@.len() == 20,
            r matches Some(id) ==> id@ == data@,
    {
        if data.len() != ID_BYTES {
            return None;
        }
        Some(ObjectId::from_digest(data))
    }

    /// The id made of the 20 bytes of a digest.
    pub fn from_digest(data: &[u8]) -> (id: ObjectId)
        requires
            data@.len() == 20,
        ensures
            id@ == data@,
    {
        let mut bytes: [u8; 20] = [0u8; 20];
        let mut i: usize = 0;
        while i < ID_BYTES
            invariant
                i <= 20,
                data@.len() == 20,
                forall|j: int| 0 <= j < i ==> bytes@[j] == data@[j],
            decreases 20 - i,
        {
            bytes[i] = data[i];
            i += 1;
        }
        assert(bytes@ =~= data@);
        ObjectId { bytes }
    }

    /// The raw bytes of the id.
    pub fn to_vec(&self) -> (out: Vec<u8>)
        ensures
            out@ == self@,
    {
        let mut out: Vec<u8> = Vec::new();
        let mut i: usize = 0;
        while i < ID_BYTES
            invariant
                i <= 20,
                out@ == self.bytes@.subrange(0, i as int),
            decreases 20 - i,
        {
            out.push(self.bytes[i]);
            assert(out@ =~= self.bytes@.subrange(0, i + 1));
            i += 1;
        }
        assert(out@ =~= self.bytes@);
        out
    }

    /// The byte at position `i`.
    pub fn byte(&self, i: usize) -> (b: u8)
        requires
            i < 20,
        ensures
            b == self@[i as int],
    {
        self.bytes[i]
    }

    /// Whether both ids hold the same bytes.
    pub fn same(&self, other: &ObjectId) -> (r: bool)
        ensures
            r == (self@ == other@),
    {
        let mut i: usize = 0;
        while i < ID_BYTES
            invariant
                i <= 20,
                forall|j: int| 0 <= j < i ==> self.bytes@[j] == other.bytes@[j],
            decreases 20 - i,
        {
            if self.bytes[i] != other.bytes[i] {
                return false;
            }
            i += 1;
        }
        assert(self.bytes@ =~= other.bytes@);
        true
    }

    /// The id in its text form: 40 lower-case hexadecimal characters.
    pub fn to_hex(&self) -> (text: String)
        ensures
            text@ == hex_text(self@),
    {
        let mut text = String::new();
        let mut i: usize = 0;
        while i < ID_BYTES
            invariant
                i <= 20,
                text@ == hex_text(self.bytes@.subrange(0, i as int)),
            decreases 20 - i,
        {
            let b = self.bytes[i];
            assert(b >> 4 == b / 16 && b & 15 == b % 16) by (bit_vector);
            text.push(hex_digit(b >> 4));
            text.push(hex_digit(b & 15));
            assert(text@ =~= hex_text(self.bytes@.subrange(0, i + 1)));
            i += 1;
        }
        assert(self.bytes@.subrange(0, 20) =~= self.bytes@);
        text
    }

    /// Reads an id from its text form. Accepts exactly 40 hexadecimal digits, in
    /// either case.
    pub fn from_hex(text: &str) -> (r: Option<ObjectId>)
        ensures
            r is Some <==> text@.len() == 40 && is_hex_text(text@),
            r matches Some(id) ==> id@ == hex_bytes(text@),
    {
        if !text.is_ascii() {
            proof {
                let i = choose|i: int|
                    0 <= i < text@.len() && !('\0' <= #[trigger] text@[i] <= '\u{7f}');
                assert(hex_value(text@[i]) is None);
            }
            return None;
        }
        let raw = text.as_bytes();
        proof {
            is_ascii_chars_encode_utf8(text@);
        }
        if raw.len() != ID_HEX_CHARS {
            return None;
        }
        let mut bytes: [u8; 20] = [0u8; 20];
        let mut i: usize = 0;
        while i < ID_BYTES
            invariant
                i <= 20,
                raw@.len() == 40,
                text@.len() == 40,
                is_ascii_chars(text@),
                forall|j: int| 0 <= j < 40 ==> text@[j] as u8 == #[trigger] raw@[j],
                forall|j: int| 0 <= j < 2 * i ==> (#[trigger] hex_value(text@[j])) is Some,
                forall|j: int| 0 <= j < i ==> bytes@[j] == hex_bytes(text@)[j],
            decreases 20 - i,
        {
            let (b_hi, b_lo) = (raw[2 * i], raw[2 * i + 1]);
            proof {
                let (c_hi, c_lo) = (text@[2 * i], text@[2 * i + 1]);
                assert(c_hi as u8 == b_hi && c_lo as u8 == b_lo);
                assert(b_hi as char == c_hi && b_lo as char == c_lo);
            }
            let hi = match hex_nibble(b_hi) {
                Some(n) => n,
                None => {
                    return None;
                },
            };
            let lo = match hex_nibble(b_lo) {
                Some(n) => n,
                None => {
                    return None;
                },
            };
            bytes[i] = hi * 16 + lo;
            i += 1;
        }
        assert(bytes@ =~= hex_bytes(text@));
        Some(ObjectId { bytes })
    }

    /// The text form of the id as ASCII bytes.
    pub fn to_hex_bytes(&self) -> (text: Vec<u8>)
        ensures
            text@ == hex_ascii(self@),
            text@.len() == 40,
    {
        let mut text: Vec<u8> = Vec::new();
        let mut i: usize = 0;
        while i < ID_BYTES
            invariant
                i <= 20,
                text@.len() == 2 * i,
                text@ == hex_ascii(self.bytes@.subrange(0, i as int)),
            decreases 20 - i,
        {
            let b = self.bytes[i];
            assert(b >> 4 == b / 16 && b & 15 == b % 16) by (bit_vector);
            let ghost before = text@;
            let (hi, lo) = (hex_digit_byte(b >> 4), hex_digit_byte(b & 15));
            proof {
                lemma_hex_char_value(b / 16);
                lemma_hex_char_value(b % 16);
            }
            text.push(hi);
            text.push(lo);
            proof {
                let shorter = hex_ascii(self.bytes@.subrange(0, i as int));
                let longer = hex_ascii(self.bytes@.subrange(0, i + 1));
                assert forall|j: int| 0 <= j < 2 * i + 2 implies text@[j] == longer[j] by {
                    if j < 2 * i {
                        assert(text@[j] == before[j]);
                        assert(before[j] == shorter[j]);
                        assert(self.bytes@.subrange(0, i as int)[j / 2] == self.bytes@.subrange(
                            0,
                            i + 1,
                        )[j / 2]);
                    } else {
                        assert(j / 2 == i);
                    }
                }
                assert(text@ =~= longer);
            }
            i += 1;
        }
        assert(self.bytes@.subrange(0, 20) =~= self.bytes@);
        text
    }

    /// Reads an id from its text form, given as bytes. Accepts exactly 40
    /// hexadecimal digits, in either case.
    pub fn from_hex_bytes(text: &[u8]) -> (r: Option<ObjectId>)
        ensures
            r is Some <==> text@.len() == 40 && is_hex_text(ascii_chars(text@)),
            r matches Some(id) ==> id@ == hex_bytes(ascii_chars(text@)),
    {
        if text.len() != ID_HEX_CHARS {
            return None;
        }
        let ghost chars = ascii_chars(text@);
        let mut bytes: [u8; 20] = [0u8; 20];
        let mut i: usize = 0;
        while i < ID_BYTES
            invariant
                i <= 20,
                text@.len() == 40,
                chars == ascii_chars(text@),
                forall|j: int| 0 <= j < 2 * i ==> (#[trigger] hex_value(chars[j])) is Some,
                forall|j: int| 0 <= j < i ==> bytes@[j] == hex_bytes(chars)[j],
            decreases 20 - i,
        {
            let hi = match hex_nibble(text[2 * i]) {
                Some(n) => n,
                None => {
                    assert(hex_value(chars[2 * i]) is None);
                    return None;
                },
            };
            let lo = match hex_nibble(text[2 * i + 1]) {
                Some(n) => n,
                None => {
                    assert(hex_value(chars[2 * i + 1]) is None);
                    return None;
                },
            };
            bytes[i] = hi * 16 + lo;
            i += 1;
        }
        assert(bytes@ =~= hex_bytes(chars));
        Some(ObjectId { bytes })
    }

    /// Whether the text form of the id starts with the hexadecimal digits
    /// `prefix`, read in either case.
    pub fn starts_with_hex(&self, prefix: &[u8]) -> (r: bool)
        ensures
            r == has_hex_prefix(self@, prefix@),
    {
        if prefix.len() > ID_HEX_CHARS {
            return false;
        }
        let mut k: usize = 0;
        while k < prefix.len()
            invariant
                k <= prefix@.len(),
                prefix@.len() <= 40,
                forall|j: int|
                    0 <= j < k ==> hex_value(#[trigger] prefix@[j] as char) == Some(
                        nibble(self@, j),
                    ),
            decreases prefix@.len() - k,
        {
            let b = self.bytes[k / 2];
            assert(b >> 4 == b / 16 && b & 15 == b % 16) by (bit_vector);
            let want = if k % 2 == 0 {
                b >> 4
            } else {
                b & 15
            };
            match hex_nibble(prefix[k]) {
                Some(n) => {
                    if n != want {
                        return false;
                    }
                },
                None => {
                    return false;
                },
            }
            k += 1;
        }
        true
    }
}

} // verus!

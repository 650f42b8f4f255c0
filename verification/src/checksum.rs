use crate::digest::{sha1, sha1_digest};
use vstd::prelude::*;
use vstd::slice::slice_subrange;

verus! {

/// Number of bytes of the digest that ends a file.
pub const CHECKSUM_SIZE: usize = 20;

/// Whether `contents` ends with the digest of all that stands before it.
pub open spec fn checksum_valid(contents: Seq<u8>) -> bool {
    &&& contents.len() >= 20
    &&& contents.subrange(contents.len() - 20, contents.len() as int) == sha1_digest(
        contents.subrange(0, contents.len() - 20),
    )@
}

/// The content of a file that is being written, ended on request by the digest
/// of all that was written.
#[derive(Debug)]
pub struct Checksum {
    written: Vec<u8>,
}

impl View for Checksum {
    type V = Seq<u8>;

    closed spec fn view(&self) -> Seq<u8> {
        self.written@
    }
}

impl Checksum {
    /// Nothing written yet.
    pub fn new() -> (c: Checksum)
        ensures
            c@ == Seq::<u8>::empty(),
    {
        Checksum { written: Vec::new() }
    }

    /// Writes `data` behind what was written.
    pub fn write(&mut self, data: &[u8])
        ensures
            final(self)@ == old(self)@ + data@,
    {
        let mut i: usize = 0;
        while i < data.len()
            invariant
                i <= data@.len(),
                self.written@ == old(self).written@ + data@.subrange(0, i as int),
            decreases data@.len() - i,
        {
            self.written.push(data[i]);
            assert(self.written@ =~= old(self).written@ + data@.subrange(0, i + 1));
            i += 1;
        }
        assert(data@.subrange(0, i as int) =~= data@);
    }

    /// Writes the digest of all that was written.
    pub fn write_checksum(&mut self)
        ensures
            final(self)@ == old(self)@ + sha1_digest(old(self)@)@,
            checksum_valid(final(self)@),
    {
        let digest = sha1(self.written.as_slice());
        self.write(digest.as_slice());
        proof {
            let n = old(self)@.len() as int;
            assert(self@.subrange(0, n) =~= old(self)@);
            assert(self@.subrange(n, n + 20) =~= sha1_digest(old(self)@)@);
        }
    }

    /// All that was written.
    pub fn into_bytes(self) -> (bytes: Vec<u8>)
        ensures
            bytes@ == self@,
    {
        self.written
    }

    /// Whether `contents` ends with the digest of all that stands before it.
    pub fn verify_checksum(contents: &[u8]) -> (r: bool)
        ensures
            r == checksum_valid(contents@),
    {
        let n = contents.len();
        if n < CHECKSUM_SIZE {
            return false;
        }
        let digest = sha1(slice_subrange(contents, 0, n - CHECKSUM_SIZE));
        let mut i: usize = 0;
        while i < CHECKSUM_SIZE
            invariant
                i <= 20,
                n == contents@.len(),
                n >= 20,
                digest@.len() == 20,
                digest@ == sha1_digest(contents@.subrange(0, n - 20))@,
                forall|k: int| 0 <= k < i ==> contents@[n - 20 + k] == digest@[k],
            decreases 20 - i,
        {
            if contents[n - CHECKSUM_SIZE + i] != digest[i] {
                assert(contents@.subrange(n - 20, n as int)[i as int] != digest@[i as int]);
                return false;
            }
            i += 1;
        }
        assert(contents@.subrange(n - 20, n as int) =~= digest@);
        true
    }
}

} // verus!

use vstd::prelude::*;

verus! {

/// Number of bytes in an account or program identifier.
pub const KEY_LEN: usize = 32;

/// A fixed-length identifier of an account or of a program.
#[derive(Clone, Copy, Debug, PartialEq, Eq, Hash)]
pub struct Pubkey {
    pub bytes: [u8; 32],
}

impl Pubkey {
    pub fn new(bytes: [u8; 32]) -> (k: Pubkey)
        ensures
            k.bytes == bytes,
    {
        Pubkey { bytes }
    }

    /// Whether two identifiers hold the same 32 bytes.
    pub fn equals(&self, other: &Pubkey) -> (same: bool)
        ensures
            same == (*self == *other),
    {
        let mut i: usize = 0;
        while i < 32
            invariant
                i <= 32,
                forall|j: int| 0 <= j < i ==> self.bytes[j] == other.bytes[j],
            decreases 32 - i,
        {
            if self.bytes[i] != other.bytes[i] {
                return false;
            }
            i += 1;
        }
        assert(self.bytes =~= other.bytes);
        true
    }

    /// The identifier whose bytes are the 32 bytes of `bytes` from `start` on.
    pub fn read(bytes: &Vec<u8>, start: usize) -> (k: Pubkey)
        requires
            start + 32 <= bytes.len(),
        ensures
            k.bytes@ == bytes@.subrange(start as int, start + 32),
    {
        let mut out: [u8; 32] = [0u8; 32];
        let mut i: usize = 0;
        while i < 32
            invariant
                i <= 32,
                start + 32 <= bytes.len(),
                forall|j: int| 0 <= j < i ==> out[j] == bytes[start + j],
            decreases 32 - i,
        {
            out[i] = bytes[start + i];
            i += 1;
        }
        assert(out@ =~= bytes@.subrange(start as int, start + 32));
        Pubkey { bytes: out }
    }

    /// Appends the 32 bytes of the identifier to `out`.
    pub fn write(&self, out: &mut Vec<u8>)
        ensures
            final(out)@ == old(out)@ + self.bytes@,
    {
        let mut i: usize = 0;
        while i < 32
            invariant
                i <= 32,
                out@ == old(out)@ + self.bytes@.take(i as int),
            decreases 32 - i,
        {
            out.push(self.bytes[i]);
            assert(self.bytes@.take(i + 1) =~= self.bytes@.take(i as int).push(self.bytes[i as int]));
            i += 1;
        }
        assert(self.bytes@.take(32) =~= self.bytes@);
    }
}

} // verus!

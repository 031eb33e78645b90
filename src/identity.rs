use vstd::prelude::*;

verus! {

/// A 32-byte account identity (a wallet or an authority key).
#[derive(Clone, Copy, Debug, PartialEq, Eq)]
pub struct Identity {
    pub bytes: [u8; 32],
}

impl Identity {
    /// The key's bytes, as a sequence.
    pub open spec fn key(self) -> Seq<u8> {
        self.bytes@
    }

    pub fn new(bytes: [u8; 32]) -> (r: Identity)
        ensures
            r.bytes == bytes,
    {
        Identity { bytes }
    }

    /// Compares two identities byte by byte.
    pub fn same_as(&self, other: &Identity) -> (r: bool)
        ensures
            r == (self.key() == other.key()),
    {
        let mut i: usize = 0;
        while i < 32
            invariant
                0 <= i <= 32,
                forall|j: int| 0 <= j < i ==> self.bytes@[j] == other.bytes@[j],
            decreases 32 - i,
        {
            if self.bytes[i] != other.bytes[i] {
                return false;
            }
            i = i + 1;
        }
        assert(self.key() =~= other.key());
        true
    }
}

} // verus!

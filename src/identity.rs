use vstd::prelude::*;

verus! {

broadcast use vstd::array::group_array_axioms;

/// Width in bytes of an account identifier.
pub const IDENTITY_LEN: usize = 20;

/// An account identifier: twenty opaque bytes, compared only for equality.
/// The all-zero value is reserved and means "no one".
#[derive(Clone, Copy, Debug)]
pub struct Identity {
    pub bytes: [u8; 20],
}

impl Identity {
    /// The reserved "no one" value holds zero in every byte.
    pub open spec fn is_zero_spec(self) -> bool {
        forall|i: int| 0 <= i < 20 ==> #[trigger] self.bytes@[i] == 0
    }

    pub fn new(bytes: [u8; 20]) -> (r: Identity)
        ensures
            r.bytes == bytes,
    {
        Identity { bytes }
    }

    /// The reserved "no one" identity.
    pub fn zero() -> (r: Identity)
        ensures
            r.is_zero_spec(),
    {
        Identity { bytes: [0u8; 20] }
    }

    pub fn as_bytes(&self) -> (r: [u8; 20])
        ensures
            r == self.bytes,
    {
        self.bytes
    }

    pub fn is_zero(&self) -> (r: bool)
        ensures
            r == self.is_zero_spec(),
    {
        let mut i: usize = 0;
        while i < IDENTITY_LEN
            invariant
                i <= 20,
                forall|j: int| 0 <= j < i ==> #[trigger] self.bytes@[j] == 0,
            decreases 20 - i,
        {
            if self.bytes[i] != 0 {
                return false;
            }
            i = i + 1;
        }
        true
    }
}

impl PartialEq for Identity {
    fn eq(&self, o: &Identity) -> (r: bool) {
        let mut i: usize = 0;
        while i < IDENTITY_LEN
            invariant
                i <= 20,
                forall|j: int| 0 <= j < i ==> #[trigger] self.bytes@[j] == o.bytes@[j],
            decreases 20 - i,
        {
            if self.bytes[i] != o.bytes[i] {
                return false;
            }
            i = i + 1;
        }
        assert(self.bytes =~= o.bytes);
        true
    }
}

impl vstd::std_specs::cmp::PartialEqSpecImpl for Identity {
    open spec fn obeys_eq_spec() -> bool {
        true
    }

    open spec fn eq_spec(&self, o: &Identity) -> bool {
        *self == *o
    }
}

impl Eq for Identity {
}

} // verus!

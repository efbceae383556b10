use vstd::prelude::*;

verus! {

/// One running instance of a dataflow graph: the 128 bits of its UUID.
pub type DataflowId = u128;

/// A node within a dataflow.
pub type NodeId = String;

/// An output or input port of a node.
pub type DataId = String;

/// Handle of an operating-system shared memory segment.
pub type SharedMemoryId = String;

/// True when `v` has the layout of a random (version 4, RFC variant) UUID.
pub open spec fn is_random_uuid(v: u128) -> bool {
    &&& v & 0xF000_0000_0000_0000_0000 == 0x4000_0000_0000_0000_0000
    &&& v & 0xC000_0000_0000_0000 == 0x8000_0000_0000_0000
}

/// Relies on uuid::Uuid::new_v4 and Uuid::as_u128: a fresh random UUID, whose
/// version bits are set to 4 and whose variant bits are set to the RFC variant.
#[verifier::external_body]
fn random_uuid() -> (r: u128)
    ensures
        is_random_uuid(r),
{
    uuid::Uuid::new_v4().as_u128()
}

/// Ownership marker of one outstanding zero-copy buffer handed to one consumer.
#[derive(Debug, Clone, Copy, PartialEq, Eq, Structural, PartialOrd, Ord, Hash)]
pub struct DropToken(pub u128);

impl DropToken {
    pub open spec fn value(self) -> u128 {
        self.0
    }

    /// A fresh token drawn from a random UUID.
    pub fn generate() -> (r: DropToken)
        ensures
            is_random_uuid(r.value()),
    {
        DropToken(random_uuid())
    }

    /// The token with the given 128-bit value.
    pub fn from_u128(v: u128) -> (r: DropToken)
        ensures
            r.value() == v,
    {
        DropToken(v)
    }

    /// The 128-bit value of the token.
    pub fn as_u128(&self) -> (r: u128)
        ensures
            r == self.value(),
    {
        self.0
    }
}

} // verus!

//! Connection identifiers: 128-bit values used as rendezvous keys.

use vstd::prelude::*;

verus! {

/// A 128-bit identifier, generated fresh for every visitor connection.
/// Its view is the sequence of its 16 bytes.
pub struct ConnectionId {
    bytes: Vec<u8>,
}

impl View for ConnectionId {
    type V = Seq<u8>;

    closed spec fn view(&self) -> Seq<u8> {
        self.bytes@
    }
}

impl ConnectionId {
    /// A well-formed identifier holds exactly 16 bytes.
    pub open spec fn wf(&self) -> bool {
        self@.len() == 16
    }

    /// Build an identifier from its 16 raw bytes.
    pub fn from_bytes(bytes: Vec<u8>) -> (r: ConnectionId)
        requires
            bytes@.len() == 16,
        ensures
            r@ == bytes@,
            r.wf(),
    {
        ConnectionId { bytes }
    }

    /// The 16 raw bytes of this identifier.
    pub fn to_bytes(&self) -> (r: Vec<u8>)
        ensures
            r@ == self@,
    {
        let mut out: Vec<u8> = Vec::new();
        let mut i: usize = 0;
        while i < self.bytes.len()
            invariant
                i <= self.bytes@.len(),
                out@ == self.bytes@.subrange(0, i as int),
            decreases self.bytes@.len() - i,
        {
            out.push(self.bytes[i]);
            i = i + 1;
            assert(out@ =~= self.bytes@.subrange(0, i as int));
        }
        assert(out@ =~= self.bytes@);
        out
    }

    /// A copy of this identifier.
    pub fn duplicate(&self) -> (r: ConnectionId)
        ensures
            r@ == self@,
    {
        ConnectionId { bytes: self.to_bytes() }
    }

    /// Relies on `uuid::Uuid::new_v4` and `as_bytes`: a fresh random
    /// version-4 UUID, 16 bytes long. Nothing more is assumed of the value.
    #[verifier::external_body]
    pub(crate) fn fresh() -> (r: ConnectionId)
        ensures
            r.wf(),
    {
        ConnectionId { bytes: uuid::Uuid::new_v4().as_bytes().to_vec() }
    }

    /// Whether this identifier holds exactly 16 bytes.
    pub fn is_wf(&self) -> (r: bool)
        ensures
            r == self.wf(),
    {
        self.bytes.len() == 16
    }

    /// The byte at position `i`.
    pub fn byte_at(&self, i: usize) -> (r: u8)
        requires
            i < self@.len(),
        ensures
            r == self@[i as int],
    {
        self.bytes[i]
    }

    /// Whether two identifiers hold the same bytes.
    pub fn same_as(&self, other: &ConnectionId) -> (r: bool)
        ensures
            r == (self@ == other@),
    {
        if self.bytes.len() != other.bytes.len() {
            assert(self@.len() != other@.len());
            return false;
        }
        let mut i: usize = 0;
        while i < self.bytes.len()
            invariant
                i <= self.bytes@.len(),
                self.bytes@.len() == other.bytes@.len(),
                forall|j: int| 0 <= j < i ==> self.bytes@[j] == other.bytes@[j],
            decreases self.bytes@.len() - i,
        {
            if self.bytes[i] != other.bytes[i] {
                assert(self@ != other@);
                return false;
            }
            i = i + 1;
        }
        assert(self@ =~= other@);
        true
    }
}

} // verus!

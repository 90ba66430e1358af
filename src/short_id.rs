use vstd::prelude::*;

verus! {

/// Number of bytes in a proposal short identifier.
pub const SHORT_ID_LEN: usize = 10;

/// A truncated transaction hash used to refer to a transaction compactly.
#[derive(Clone, Copy, Debug)]
pub struct ProposalShortId {
    pub bytes: [u8; 10],
}

impl View for ProposalShortId {
    type V = Seq<u8>;

    open spec fn view(&self) -> Seq<u8> {
        self.bytes@
    }
}

impl ProposalShortId {
    pub fn new(bytes: [u8; 10]) -> (r: ProposalShortId)
        ensures
            r@ == bytes@,
    {
        ProposalShortId { bytes }
    }

    /// Reads an identifier from exactly `SHORT_ID_LEN` bytes.
    pub fn from_slice(s: &[u8]) -> (r: Option<ProposalShortId>)
        ensures
            s@.len() == SHORT_ID_LEN <==> r.is_some(),
            r.is_some() ==> r.unwrap()@ == s@,
    {
        if s.len() != SHORT_ID_LEN {
            return None;
        }
        let mut bytes: [u8; 10] = [0u8; 10];
        let mut i: usize = 0;
        while i < SHORT_ID_LEN
            invariant
                s@.len() == SHORT_ID_LEN,
                i <= SHORT_ID_LEN,
                bytes@.len() == SHORT_ID_LEN,
                forall|j: int| 0 <= j < i ==> bytes@[j] == s@[j],
            decreases SHORT_ID_LEN - i,
        {
            bytes[i] = s[i];
            i = i + 1;
        }
        assert(bytes@ =~= s@);
        Some(ProposalShortId { bytes })
    }

    /// Whether two identifiers hold the same bytes.
    pub fn same_as(&self, other: &ProposalShortId) -> (r: bool)
        ensures
            r <==> self@ == other@,
    {
        let mut i: usize = 0;
        while i < SHORT_ID_LEN
            invariant
                i <= SHORT_ID_LEN,
                self@.len() == SHORT_ID_LEN,
                other@.len() == SHORT_ID_LEN,
                forall|j: int| 0 <= j < i ==> self@[j] == other@[j],
            decreases SHORT_ID_LEN - i,
        {
            if self.bytes[i] != other.bytes[i] {
                return false;
            }
            i = i + 1;
        }
        assert(self@ =~= other@);
        true
    }
}

} // verus!

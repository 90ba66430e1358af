use vstd::prelude::*;

use crate::message::Transaction;
use crate::short_id::ProposalShortId;

verus! {

/// Transactions known locally, looked up by short identifier.
pub struct TxPool {
    ids: Vec<ProposalShortId>,
    txs: Vec<Transaction>,
    contents: Ghost<Map<Seq<u8>, Seq<u8>>>,
}

impl View for TxPool {
    type V = Map<Seq<u8>, Seq<u8>>;

    closed spec fn view(&self) -> Map<Seq<u8>, Seq<u8>> {
        self.contents@
    }
}

impl TxPool {
    /// Identifiers are distinct and pair with the transactions of the view.
    pub closed spec fn wf(&self) -> bool {
        &&& self.ids@.len() == self.txs@.len()
        &&& forall|i: int, j: int|
            0 <= i < j < self.ids@.len() ==> self.ids@[i]@ != self.ids@[j]@
        &&& forall|i: int|
            0 <= i < self.ids@.len() ==> self.contents@.contains_key(#[trigger] self.ids@[i]@)
                && self.contents@[self.ids@[i]@] == self.txs@[i]@
        &&& forall|k: Seq<u8>|
            #[trigger] self.contents@.contains_key(k) ==> exists|i: int|
                0 <= i < self.ids@.len() && #[trigger] self.ids@[i]@ == k
    }

    pub fn new() -> (r: TxPool)
        ensures
            r.wf(),
            r@ == Map::<Seq<u8>, Seq<u8>>::empty(),
    {
        TxPool { ids: Vec::new(), txs: Vec::new(), contents: Ghost(Map::empty()) }
    }

    fn find(&self, id: &ProposalShortId) -> (r: Option<usize>)
        requires
            self.wf(),
        ensures
            r.is_some() ==> r.unwrap() < self.ids@.len() && self.ids@[r.unwrap() as int]@ == id@,
            r.is_none() ==> !self@.contains_key(id@),
    {
        let mut i: usize = 0;
        while i < self.ids.len()
            invariant
                self.wf(),
                i <= self.ids@.len(),
                forall|j: int| 0 <= j < i ==> self.ids@[j]@ != id@,
            decreases self.ids@.len() - i,
        {
            if self.ids[i].same_as(id) {
                return Some(i);
            }
            i = i + 1;
        }
        None
    }

    /// Adds `tx` under `id`; returns false, changing nothing, when `id` is already known.
    pub fn add(&mut self, id: ProposalShortId, tx: Transaction) -> (r: bool)
        requires
            old(self).wf(),
        ensures
            final(self).wf(),
            r <==> !old(self)@.contains_key(id@),
            r ==> final(self)@ == old(self)@.insert(id@, tx@),
            !r ==> final(self)@ == old(self)@,
    {
        match self.find(&id) {
            Some(_) => false,
            None => {
                let ghost old_self = *self;
                let ghost n = old_self.ids@.len();
                let ghost tv = tx@;
                self.ids.push(id);
                self.txs.push(tx);
                self.contents = Ghost(self.contents@.insert(id@, tv));
                assert forall|k: Seq<u8>| #[trigger] self.contents@.contains_key(k) implies exists|j: int|
                    0 <= j < self.ids@.len() && #[trigger] self.ids@[j]@ == k by {
                    if k == id@ {
                        assert(self.ids@[n as int]@ == k);
                    } else {
                        assert(old_self.contents@.contains_key(k));
                        let j = choose|j: int| 0 <= j < old_self.ids@.len() && #[trigger] old_self.ids@[j]@ == k;
                        assert(self.ids@[j]@ == k);
                    }
                }
                true
            },
        }
    }

    /// The transaction named `id`, if it is known.
    pub fn get_tx(&self, id: &ProposalShortId) -> (r: Option<Transaction>)
        requires
            self.wf(),
        ensures
            r.is_some() <==> self@.contains_key(id@),
            r.is_some() ==> r.unwrap()@ == self@[id@],
    {
        match self.find(id) {
            Some(i) => Some(self.txs[i].copy()),
            None => None,
        }
    }
}

} // verus!

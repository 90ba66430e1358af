use vstd::prelude::*;

use crate::short_id::ProposalShortId;
use crate::PeerIndex;

verus! {

/// The waiter sets after `peer` has asked for the transaction named `id`:
/// `peer` joins the set of `id`, which is created when absent.
pub open spec fn add_waiter(
    m: Map<Seq<u8>, Set<PeerIndex>>,
    id: Seq<u8>,
    peer: PeerIndex,
) -> Map<Seq<u8>, Set<PeerIndex>> {
    if m.contains_key(id) {
        m.insert(id, m[id].insert(peer))
    } else {
        m.insert(id, set![peer])
    }
}

/// The waiter sets once `peer` has gone: it leaves every set, and a set left
/// empty is dropped.
pub open spec fn without_peer(m: Map<Seq<u8>, Set<PeerIndex>>, peer: PeerIndex) -> Map<
    Seq<u8>,
    Set<PeerIndex>,
> {
    Map::new(
        |k: Seq<u8>| m.contains_key(k) && m[k].remove(peer) != Set::<PeerIndex>::empty(),
        |k: Seq<u8>| m[k].remove(peer),
    )
}

/// Returns true when `s` holds `peer`.
fn holds_peer(s: &Vec<PeerIndex>, peer: PeerIndex) -> (r: bool)
    ensures
        r <==> s@.contains(peer),
{
    let mut i: usize = 0;
    while i < s.len()
        invariant
            i <= s@.len(),
            forall|j: int| 0 <= j < i ==> s@[j] != peer,
        decreases s@.len() - i,
    {
        if s[i] == peer {
            return true;
        }
        i = i + 1;
    }
    false
}

/// For each transaction that peers asked for and that was not known locally,
/// the set of peers waiting to receive it.
pub struct PendingProposalsRequest {
    ids: Vec<ProposalShortId>,
    waiters: Vec<Vec<PeerIndex>>,
    table: Ghost<Map<Seq<u8>, Set<PeerIndex>>>,
}

impl View for PendingProposalsRequest {
    type V = Map<Seq<u8>, Set<PeerIndex>>;

    closed spec fn view(&self) -> Map<Seq<u8>, Set<PeerIndex>> {
        self.table@
    }
}

impl PendingProposalsRequest {
    /// Identifiers are distinct, each stored list has no repeated peer and is
    /// never empty, and the lists are exactly the waiter sets of the view.
    pub closed spec fn wf(&self) -> bool {
        &&& self.ids@.len() == self.waiters@.len()
        &&& forall|i: int, j: int|
            0 <= i < j < self.ids@.len() ==> self.ids@[i]@ != self.ids@[j]@
        &&& forall|i: int|
            0 <= i < self.waiters@.len() ==> (#[trigger] self.waiters@[i])@.no_duplicates()
        &&& forall|i: int|
            0 <= i < self.waiters@.len() ==> self.waiters@[i]@.len() > 0
        &&& forall|i: int|
            0 <= i < self.ids@.len() ==> self.table@.contains_key(#[trigger] self.ids@[i]@)
                && self.table@[self.ids@[i]@] == self.waiters@[i]@.to_set()
        &&& forall|k: Seq<u8>|
            #[trigger] self.table@.contains_key(k) ==> exists|i: int|
                0 <= i < self.ids@.len() && #[trigger] self.ids@[i]@ == k
    }

    pub fn new() -> (r: PendingProposalsRequest)
        ensures
            r.wf(),
            r@ == Map::<Seq<u8>, Set<PeerIndex>>::empty(),
    {
        PendingProposalsRequest { ids: Vec::new(), waiters: Vec::new(), table: Ghost(Map::empty()) }
    }

    /// Position of `id` among the stored identifiers.
    fn find(&self, id: &ProposalShortId) -> (r: Option<usize>)
        requires
            self.wf(),
        ensures
            r.is_some() ==> r.unwrap() < self.ids@.len() && self.ids@[r.unwrap() as int]@ == id@,
            r.is_none() ==> !self@.contains_key(id@),
    {
        let mut i: usize = 0;
        while i < self.ids.len()
            invariant
                self.wf(),
                i <= self.ids@.len(),
                forall|j: int| 0 <= j < i ==> self.ids@[j]@ != id@,
            decreases self.ids@.len() - i,
        {
            if self.ids[i].same_as(id) {
                return Some(i);
            }
            i = i + 1;
        }
        None
    }

    /// Whether some peer waits for `id`.
    pub fn contains(&self, id: &ProposalShortId) -> (r: bool)
        requires
            self.wf(),
        ensures
            r <==> self@.contains_key(id@),
    {
        match self.find(id) {
            Some(_) => true,
            None => false,
        }
    }

    /// Records that `peer` waits for `id`; a peer already waiting is not added twice.
    pub fn insert(&mut self, id: &ProposalShortId, peer: PeerIndex)
        requires
            old(self).wf(),
        ensures
            final(self).wf(),
            final(self)@ == add_waiter(old(self)@, id@, peer),
    {
        match self.find(id) {
            Some(i) => {
                let ghost old_self = *self;
                let present = holds_peer(&self.waiters[i], peer);
                if !present {
                    let mut list = self.waiters[i].clone();
                    assert(list@ =~= old_self.waiters@[i as int]@);
                    let ghost before = list@;
                    list.push(peer);
                    assert forall|x: PeerIndex| list@.contains(x) <==> before.contains(x) || x == peer by {
                        if before.contains(x) {
                            let j = choose|j: int| 0 <= j < before.len() && before[j] == x;
                            assert(list@[j] == x);
                        }
                        if x == peer {
                            assert(list@[before.len() as int] == x);
                        }
                    }
                    assert(list@.to_set() =~= old_self.waiters@[i as int]@.to_set().insert(peer));
                    self.waiters.set(i, list);
                } else {
                    assert(old_self.waiters@[i as int]@.to_set() =~= old_self.waiters@[i as int]@.to_set().insert(peer));
                }
                self.table = Ghost(self.table@.insert(id@, self.table@[id@].insert(peer)));
                assert forall|j: int| 0 <= j < self.waiters@.len() implies (#[trigger] self.waiters@[j])@.no_duplicates() by {
                    if j != i {
                        assert(self.waiters@[j] == old_self.waiters@[j]);
                    }
                }
                assert forall|k: Seq<u8>| #[trigger] self.table@.contains_key(k) implies exists|j: int|
                    0 <= j < self.ids@.len() && #[trigger] self.ids@[j]@ == k by {
                    if k == id@ {
                        assert(self.ids@[i as int]@ == k);
                    } else {
                        assert(old_self.table@.contains_key(k));
                    }
                }
            },
            None => {
                let ghost old_self = *self;
                self.ids.push(*id);
                self.waiters.push(vec![peer]);
                let ghost n = old_self.ids@.len();
                assert(self.waiters@[n as int]@.to_set() =~= set![peer]);
                self.table = Ghost(self.table@.insert(id@, set![peer]));
                assert forall|k: Seq<u8>| #[trigger] self.table@.contains_key(k) implies exists|j: int|
                    0 <= j < self.ids@.len() && #[trigger] self.ids@[j]@ == k by {
                    if k == id@ {
                        assert(self.ids@[n as int]@ == k);
                    } else {
                        assert(old_self.table@.contains_key(k));
                        let j = choose|j: int| 0 <= j < old_self.ids@.len() && #[trigger] old_self.ids@[j]@ == k;
                        assert(self.ids@[j]@ == k);
                    }
                }
                assert forall|j: int| 0 <= j < self.waiters@.len() implies (#[trigger] self.waiters@[j])@.no_duplicates() by {
                    if j < n {
                        assert(self.waiters@[j] == old_self.waiters@[j]);
                    }
                }
            },
        }
    }

    /// The peers waiting for `id`, each once; empty when none waits.
    pub fn waiters(&self, id: &ProposalShortId) -> (r: Vec<PeerIndex>)
        requires
            self.wf(),
        ensures
            r@.no_duplicates(),
            self@.contains_key(id@) ==> r@.to_set() == self@[id@],
            !self@.contains_key(id@) ==> r@.len() == 0,
    {
        match self.find(id) {
            Some(i) => self.waiters[i].clone(),
            None => Vec::new(),
        }
    }

    /// Drops `peer` from every waiter set; a set left empty goes with it.
    pub fn remove_peer(&mut self, peer: PeerIndex)
        requires
            old(self).wf(),
        ensures
            final(self).wf(),
            final(self)@ == without_peer(old(self)@, peer),
    {
        let ghost old_table = self.table@;
        let mut ids: Vec<ProposalShortId> = Vec::new();
        let mut waiters: Vec<Vec<PeerIndex>> = Vec::new();
        let ghost mut table: Map<Seq<u8>, Set<PeerIndex>> = Map::empty();
        let mut i: usize = 0;
        while i < self.ids.len()
            invariant
                self.wf(),
                self.table@ == old_table,
                i <= self.ids@.len(),
                ids@.len() == waiters@.len(),
                forall|a: int, b: int| 0 <= a < b < ids@.len() ==> ids@[a]@ != ids@[b]@,
                forall|a: int| 0 <= a < waiters@.len() ==> (#[trigger] waiters@[a])@.no_duplicates(),
                forall|a: int| 0 <= a < waiters@.len() ==> waiters@[a]@.len() > 0,
                forall|a: int|
                    0 <= a < ids@.len() ==> table.contains_key(#[trigger] ids@[a]@) && table[ids@[a]@]
                        == waiters@[a]@.to_set(),
                forall|k: Seq<u8>|
                    #[trigger] table.contains_key(k) ==> exists|a: int|
                        0 <= a < ids@.len() && #[trigger] ids@[a]@ == k,
                forall|a: int|
                    #![trigger ids@[a]]
                    0 <= a < ids@.len() ==> exists|j: int| 0 <= j < i && #[trigger] self.ids@[j]@ == ids@[a]@,
                forall|k: Seq<u8>|
                    #[trigger] table.contains_key(k) ==> without_peer(old_table, peer).contains_key(k)
                        && table[k] == without_peer(old_table, peer)[k],
                forall|j: int|
                    0 <= j < i && without_peer(old_table, peer).contains_key(#[trigger] self.ids@[j]@)
                        ==> table.contains_key(self.ids@[j]@),
            decreases self.ids@.len() - i,
        {
            let list = &self.waiters[i];
            let mut kept: Vec<PeerIndex> = Vec::new();
            let mut j: usize = 0;
            while j < list.len()
                invariant
                    j <= list@.len(),
                    list@.no_duplicates(),
                    kept@.no_duplicates(),
                    forall|x: PeerIndex| kept@.contains(x) <==> (list@.take(j as int).contains(x) && x != peer),
                decreases list@.len() - j,
            {
                let ghost prev = kept@;
                let x = list[j];
                if x != peer {
                    proof {
                        if prev.contains(x) {
                            let t = list@.take(j as int);
                            let a = choose|a: int| 0 <= a < t.len() && t[a] == x;
                            assert(list@[a] == list@[j as int]);
                        }
                    }
                    kept.push(x);
                }
                assert forall|y: PeerIndex| kept@.contains(y) <==> (list@.take(j + 1).contains(y) && y != peer) by {
                    let t0 = list@.take(j as int);
                    let t1 = list@.take(j + 1);
                    assert(t1[j as int] == x);
                    if t0.contains(y) {
                        let a = choose|a: int| 0 <= a < t0.len() && t0[a] == y;
                        assert(t1[a] == y);
                    }
                    if t1.contains(y) {
                        let a = choose|a: int| 0 <= a < t1.len() && t1[a] == y;
                        if a < j {
                            assert(t0[a] == y);
                        }
                    }
                    if prev.contains(y) {
                        let a = choose|a: int| 0 <= a < prev.len() && prev[a] == y;
                        assert(kept@[a] == y);
                    }
                    if kept@.contains(y) {
                        let a = choose|a: int| 0 <= a < kept@.len() && kept@[a] == y;
                        if a < prev.len() {
                            assert(prev[a] == y);
                        }
                    }
                    if x != peer && y == x {
                        assert(kept@[prev.len() as int] == y);
                    }
                }
                j = j + 1;
            }
            assert(list@.take(list@.len() as int) =~= list@);
            let ghost key = self.ids@[i as int]@;
            assert(kept@.to_set() =~= old_table[key].remove(peer));
            if kept.len() > 0 {
                assert(kept@.to_set().contains(kept@[0]));
                let ghost n = ids@.len();
                let ghost prev_ids = ids@;
                ids.push(self.ids[i]);
                waiters.push(kept);
                proof {
                    table = table.insert(key, old_table[key].remove(peer));
                    assert forall|k: Seq<u8>| #[trigger] table.contains_key(k) implies exists|a: int|
                        0 <= a < ids@.len() && #[trigger] ids@[a]@ == k by {
                        if k == key {
                            assert(ids@[n as int]@ == k);
                        } else {
                            let a = choose|a: int| 0 <= a < prev_ids.len() && #[trigger] prev_ids[a]@ == k;
                            assert(ids@[a]@ == k);
                        }
                    }
                    assert forall|a: int, b: int| 0 <= a < b < ids@.len() implies ids@[a]@ != ids@[b]@ by {
                        if b == n {
                            let j = choose|j: int| 0 <= j < i && #[trigger] self.ids@[j]@ == ids@[a]@;
                        }
                    }
                    assert forall|a: int| #![trigger ids@[a]] 0 <= a < ids@.len() implies exists|j: int|
                        0 <= j < i + 1 && #[trigger] self.ids@[j]@ == ids@[a]@ by {
                        if a < n {
                            let j = choose|j: int| 0 <= j < i && #[trigger] self.ids@[j]@ == ids@[a]@;
                        }
                    }
                }
            } else {
                assert(old_table[key].remove(peer) =~= Set::<PeerIndex>::empty());
            }
            proof {
                assert forall|a: int| #![trigger ids@[a]] 0 <= a < ids@.len() implies exists|j: int|
                    0 <= j < i + 1 && #[trigger] self.ids@[j]@ == ids@[a]@ by {
                    let j = choose|j: int| 0 <= j < i + 1 && #[trigger] self.ids@[j]@ == ids@[a]@;
                }
            }
            i = i + 1;
        }
        proof {
            assert forall|k: Seq<u8>| #[trigger] without_peer(old_table, peer).contains_key(k) implies table.contains_key(k) by {
                assert(old_table.contains_key(k));
                let j = choose|j: int| 0 <= j < self.ids@.len() && #[trigger] self.ids@[j]@ == k;
            }
            assert(table =~= without_peer(old_table, peer));
        }
        self.ids = ids;
        self.waiters = waiters;
        self.table = Ghost(table);
    }
}

} // verus!

use vstd::prelude::*;

use crate::short_id::{ProposalShortId, SHORT_ID_LEN};

verus! {

/// Leading byte of a request for proposal transactions by short identifier.
pub const TAG_GET_BLOCK_PROPOSAL: u8 = 0;

/// Leading byte of a response carrying full proposal transactions.
pub const TAG_BLOCK_PROPOSAL: u8 = 1;

/// A full transaction, carried as its serialized bytes.
#[derive(Debug)]
pub struct Transaction {
    pub data: Vec<u8>,
}

impl View for Transaction {
    type V = Seq<u8>;

    open spec fn view(&self) -> Seq<u8> {
        self.data@
    }
}

impl Transaction {
    pub fn new(data: Vec<u8>) -> (r: Transaction)
        ensures
            r@ == data@,
    {
        Transaction { data }
    }

    pub fn copy(&self) -> (r: Transaction)
        ensures
            r@ == self@,
    {
        let data = self.data.clone();
        assert(data@ =~= self.data@);
        Transaction { data }
    }
}

/// The views of a list of identifiers.
pub open spec fn ids_view(ids: Seq<ProposalShortId>) -> Seq<Seq<u8>> {
    ids.map_values(|i: ProposalShortId| i@)
}

/// The views of a list of transactions.
pub open spec fn txs_view(txs: Seq<Transaction>) -> Seq<Seq<u8>> {
    txs.map_values(|t: Transaction| t@)
}

/// The identifiers laid end to end.
pub open spec fn concat_ids(ids: Seq<Seq<u8>>) -> Seq<u8>
    decreases ids.len(),
{
    if ids.len() == 0 {
        Seq::empty()
    } else {
        concat_ids(ids.drop_last()) + ids.last()
    }
}

/// A request frame: its tag, then every identifier's bytes.
pub open spec fn request_bytes(ids: Seq<Seq<u8>>) -> Seq<u8> {
    seq![TAG_GET_BLOCK_PROPOSAL] + concat_ids(ids)
}

/// The `k` low bytes of `n`, least significant first.
pub open spec fn le_bytes(n: nat, k: nat) -> Seq<u8>
    decreases k,
{
    if k == 0 {
        Seq::empty()
    } else {
        seq![(n % 256) as u8] + le_bytes(n / 256, (k - 1) as nat)
    }
}

/// One transaction in a response: its length in eight little-endian bytes, then its bytes.
pub open spec fn tx_frame(t: Seq<u8>) -> Seq<u8> {
    le_bytes(t.len(), 8) + t
}

/// The frames of all transactions laid end to end.
pub open spec fn concat_txs(txs: Seq<Seq<u8>>) -> Seq<u8>
    decreases txs.len(),
{
    if txs.len() == 0 {
        Seq::empty()
    } else {
        concat_txs(txs.drop_last()) + tx_frame(txs.last())
    }
}

/// A response frame: its tag, then every transaction's frame.
pub open spec fn response_bytes(txs: Seq<Seq<u8>>) -> Seq<u8> {
    seq![TAG_BLOCK_PROPOSAL] + concat_txs(txs)
}

/// Whether `b` has the shape of a request frame.
pub open spec fn is_request_frame(b: Seq<u8>) -> bool {
    b.len() >= 1 && b[0] == TAG_GET_BLOCK_PROPOSAL && (b.len() - 1) % (SHORT_ID_LEN as int) == 0
}

/// The identifiers a request frame carries: consecutive runs of
/// `SHORT_ID_LEN` bytes after the tag.
pub open spec fn request_ids(b: Seq<u8>) -> Seq<Seq<u8>> {
    Seq::new(
        ((b.len() - 1) / (SHORT_ID_LEN as int)) as nat,
        |q: int| b.subrange(1 + 10 * q, 11 + 10 * q),
    )
}

/// A request for the transactions named by a list of short identifiers.
pub struct GetBlockProposal {
    pub proposal_transactions: Vec<ProposalShortId>,
}

impl GetBlockProposal {
    /// Encodes the request as a frame.
    pub fn encode(&self) -> (r: Vec<u8>)
        ensures
            r@ == request_bytes(ids_view(self.proposal_transactions@)),
    {
        let ids = &self.proposal_transactions;
        let mut out: Vec<u8> = Vec::new();
        out.push(TAG_GET_BLOCK_PROPOSAL);
        let mut i: usize = 0;
        while i < ids.len()
            invariant
                i <= ids@.len(),
                out@ == request_bytes(ids_view(ids@.take(i as int))),
            decreases ids@.len() - i,
        {
            let ghost before = out@;
            let mut j: usize = 0;
            while j < SHORT_ID_LEN
                invariant
                    i < ids@.len(),
                    j <= SHORT_ID_LEN,
                    ids@[i as int]@.len() == SHORT_ID_LEN,
                    out@ == before + ids@[i as int]@.take(j as int),
                decreases SHORT_ID_LEN - j,
            {
                out.push(ids[i].bytes[j]);
                assert(ids@[i as int]@.take(j + 1) =~= ids@[i as int]@.take(j as int).push(
                    ids@[i as int]@[j as int],
                ));
                j = j + 1;
            }
            proof {
                let next = ids_view(ids@.take(i + 1));
                assert(next.drop_last() =~= ids_view(ids@.take(i as int)));
                assert(ids@[i as int]@.take(SHORT_ID_LEN as int) =~= ids@[i as int]@);
                assert(out@ =~= request_bytes(next));
            }
            i = i + 1;
        }
        assert(ids@.take(ids@.len() as int) =~= ids@);
        out
    }

    /// Reads a request frame; `None` when `b` is not one.
    pub fn decode(b: &[u8]) -> (r: Option<GetBlockProposal>)
        ensures
            r.is_some() <==> is_request_frame(b@),
            r.is_some() ==> request_bytes(ids_view(r.unwrap().proposal_transactions@)) == b@,
            r.is_some() ==> ids_view(r.unwrap().proposal_transactions@) == request_ids(b@),
    {
        if b.len() == 0 || b[0] != TAG_GET_BLOCK_PROPOSAL || (b.len() - 1) % SHORT_ID_LEN != 0 {
            return None;
        }
        let n: usize = b.len();
        let mut ids: Vec<ProposalShortId> = Vec::new();
        let mut pos: usize = 1;
        while pos < b.len()
            invariant
                1 <= pos <= b@.len(),
                n == b@.len(),
                (b@.len() - pos) % (SHORT_ID_LEN as int) == 0,
                b@[0] == TAG_GET_BLOCK_PROPOSAL,
                request_bytes(ids_view(ids@)) == b@.take(pos as int),
                pos == 1 + 10 * ids@.len(),
                forall|q: int| 0 <= q < ids@.len() ==> #[trigger] ids@[q]@ == b@.subrange(1 + 10 * q, 11 + 10 * q),
            decreases b@.len() - pos,
        {
            assert(pos + SHORT_ID_LEN <= b@.len());
            let mut bytes: [u8; 10] = [0u8; 10];
            let mut j: usize = 0;
            while j < SHORT_ID_LEN
                invariant
                    pos + SHORT_ID_LEN <= n,
                    n == b@.len(),
                    j <= SHORT_ID_LEN,
                    bytes@.len() == SHORT_ID_LEN,
                    forall|k: int| 0 <= k < j ==> bytes@[k] == b@[pos + k],
                decreases SHORT_ID_LEN - j,
            {
                bytes[j] = b[pos + j];
                j = j + 1;
            }
            let id = ProposalShortId::new(bytes);
            let ghost prev = ids@;
            ids.push(id);
            proof {
                assert(ids_view(ids@).drop_last() =~= ids_view(prev));
                assert(id@ =~= b@.subrange(pos as int, pos + SHORT_ID_LEN));
                assert(b@.take(pos + SHORT_ID_LEN) =~= b@.take(pos as int) + b@.subrange(
                    pos as int,
                    pos + SHORT_ID_LEN,
                ));
                assert(request_bytes(ids_view(ids@)) =~= b@.take(pos + SHORT_ID_LEN));
            }
            pos = pos + SHORT_ID_LEN;
        }
        assert(b@.take(b@.len() as int) =~= b@);
        assert((b@.len() - 1) / 10 == ids@.len());
        assert(ids_view(ids@) =~= request_ids(b@));
        Some(GetBlockProposal { proposal_transactions: ids })
    }
}

/// Appends the `8` little-endian bytes of `n` to `out`.
fn push_len(out: &mut Vec<u8>, n: usize)
    ensures
        final(out)@ == old(out)@ + le_bytes(n as nat, 8),
{
    let ghost start = out@;
    let mut v: u64 = n as u64;
    let mut k: usize = 0;
    while k < 8
        invariant
            k <= 8,
            out@ + le_bytes(v as nat, (8 - k) as nat) == start + le_bytes(n as nat, 8),
        decreases 8 - k,
    {
        let ghost before = out@;
        assert(le_bytes(v as nat, (8 - k) as nat) == seq![(v % 256) as u8] + le_bytes(
            (v / 256) as nat,
            (8 - k - 1) as nat,
        ));
        out.push((v % 256) as u8);
        assert(out@ + le_bytes((v / 256) as nat, (8 - k - 1) as nat) =~= before + (seq![
            (v % 256) as u8,
        ] + le_bytes((v / 256) as nat, (8 - k - 1) as nat)));
        v = v / 256;
        k = k + 1;
    }
    assert(le_bytes(v as nat, 0) =~= Seq::<u8>::empty());
    assert(out@ =~= out@ + le_bytes(v as nat, 0));
}

/// Encodes a response frame carrying `txs`.
pub fn encode_block_proposal(txs: &Vec<Transaction>) -> (r: Vec<u8>)
    ensures
        r@ == response_bytes(txs_view(txs@)),
{
    let mut out: Vec<u8> = Vec::new();
    out.push(TAG_BLOCK_PROPOSAL);
    let mut i: usize = 0;
    while i < txs.len()
        invariant
            i <= txs@.len(),
            out@ == response_bytes(txs_view(txs@.take(i as int))),
        decreases txs@.len() - i,
    {
        let ghost before = out@;
        let data = &txs[i].data;
        push_len(&mut out, data.len());
        let ghost mid = out@;
        let mut j: usize = 0;
        while j < data.len()
            invariant
                j <= data@.len(),
                out@ == mid + data@.take(j as int),
            decreases data@.len() - j,
        {
            out.push(data[j]);
            assert(data@.take(j + 1) =~= data@.take(j as int).push(data@[j as int]));
            j = j + 1;
        }
        proof {
            let next = txs_view(txs@.take(i + 1));
            assert(next.drop_last() =~= txs_view(txs@.take(i as int)));
            assert(data@.take(data@.len() as int) =~= data@);
            assert(out@ =~= response_bytes(next));
        }
        i = i + 1;
    }
    assert(txs@.take(txs@.len() as int) =~= txs@);
    out
}

} // verus!

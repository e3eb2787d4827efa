//! Consensus items, the outcome of an epoch, and the hash-chained epoch
//! history.
use std::rc::Rc;

use vstd::prelude::*;

use crate::codec::{be_u16, be_u64, enc_bytes, put_bytes, put_u16, put_u64};
use crate::module_types::{enc_dyn, DynModuleConsensusItem};
use crate::transaction::{enc_tx, sha256, sha256_of, Transaction, TransactionView};

verus! {

/// One peer's share of the threshold signature on the previous epoch.
#[derive(Debug)]
pub struct EpochSignatureShare(pub Vec<u8>);

/// What a peer contributes to an epoch.
#[derive(Debug)]
pub enum ConsensusItem {
    EpochInfo(EpochSignatureShare),
    Transaction(Rc<Transaction>),
    Module(DynModuleConsensusItem),
}

pub enum ConsensusItemView {
    EpochInfo(Seq<u8>),
    Transaction(TransactionView),
    Module((u16, Seq<u8>)),
}

impl View for ConsensusItem {
    type V = ConsensusItemView;

    open spec fn view(&self) -> ConsensusItemView {
        match self {
            ConsensusItem::EpochInfo(s) => ConsensusItemView::EpochInfo(s.0@),
            ConsensusItem::Transaction(t) => ConsensusItemView::Transaction((**t)@),
            ConsensusItem::Module(d) => ConsensusItemView::Module(d@),
        }
    }
}

pub open spec fn item_views(s: Seq<ConsensusItem>) -> Seq<ConsensusItemView> {
    s.map_values(|i: ConsensusItem| i@)
}

/// The result of one epoch: each contributing peer, in ascending order,
/// with the items it contributed.
#[derive(Debug)]
pub struct ConsensusOutcome {
    pub epoch: u64,
    pub contributions: Vec<(u16, Vec<ConsensusItem>)>,
}

pub struct ConsensusOutcomeView {
    pub epoch: u64,
    pub contributions: Seq<(u16, Seq<ConsensusItemView>)>,
}

impl View for ConsensusOutcome {
    type V = ConsensusOutcomeView;

    open spec fn view(&self) -> ConsensusOutcomeView {
        ConsensusOutcomeView {
            epoch: self.epoch,
            contributions: self.contributions@.map_values(
                |c: (u16, Vec<ConsensusItem>)| (c.0, item_views(c.1@)),
            ),
        }
    }
}

impl ConsensusOutcome {
    /// The peers are strictly ascending.
    pub open spec fn wf(&self) -> bool {
        forall|i: int, j: int|
            0 <= i < j < self.contributions@.len() ==> self.contributions@[i].0
                < self.contributions@[j].0
    }

    /// The peers that contributed.
    pub open spec fn peers(&self) -> Seq<u16> {
        self.contributions@.map_values(|c: (u16, Vec<ConsensusItem>)| c.0)
    }

    pub fn peer_ids(&self) -> (r: Vec<u16>)
        ensures
            r@ == self.peers(),
    {
        let mut r: Vec<u16> = Vec::new();
        let mut i: usize = 0;
        while i < self.contributions.len()
            invariant
                i <= self.contributions@.len(),
                r@ == self.peers().take(i as int),
            decreases self.contributions@.len() - i,
        {
            r.push(self.contributions[i].0);
            i += 1;
            assert(r@ =~= self.peers().take(i as int));
        }
        assert(r@ =~= self.peers());
        r
    }
}

pub open spec fn enc_item(i: ConsensusItemView) -> Seq<u8> {
    match i {
        ConsensusItemView::EpochInfo(s) => seq![0u8] + enc_bytes(s),
        ConsensusItemView::Transaction(t) => seq![1u8] + enc_tx(t),
        ConsensusItemView::Module(d) => seq![2u8] + enc_dyn(d),
    }
}

pub open spec fn enc_items(s: Seq<ConsensusItemView>) -> Seq<u8>
    decreases s.len(),
{
    if s.len() == 0 {
        Seq::empty()
    } else {
        enc_items(s.drop_last()) + enc_item(s.last())
    }
}

pub open spec fn enc_contributions(s: Seq<(u16, Seq<ConsensusItemView>)>) -> Seq<u8>
    decreases s.len(),
{
    if s.len() == 0 {
        Seq::empty()
    } else {
        enc_contributions(s.drop_last()) + be_u16(s.last().0) + be_u64(s.last().1.len() as u64)
            + enc_items(s.last().1)
    }
}

/// The encoding of an outcome: the epoch, the number of peers, then each
/// peer with its items.
pub open spec fn enc_outcome(o: ConsensusOutcomeView) -> Seq<u8> {
    be_u64(o.epoch) + be_u64(o.contributions.len() as u64) + enc_contributions(o.contributions)
}

/// The hash of an epoch: the digest of its outcome followed by the hash of
/// the epoch before it.
pub open spec fn epoch_hash_of(o: ConsensusOutcomeView, previous_hash: Seq<u8>) -> Seq<u8> {
    sha256_of(enc_outcome(o) + previous_hash)
}

pub fn put_item(buf: &mut Vec<u8>, item: &ConsensusItem)
    ensures
        final(buf)@ == old(buf)@ + enc_item(item@),
{
    match item {
        ConsensusItem::EpochInfo(s) => {
            buf.push(0u8);
            put_bytes(buf, s.0.as_slice());
        },
        ConsensusItem::Transaction(t) => {
            buf.push(1u8);
            t.consensus_encode(buf);
        },
        ConsensusItem::Module(d) => {
            buf.push(2u8);
            d.consensus_encode(buf);
        },
    }
    assert(buf@ =~= old(buf)@ + enc_item(item@));
}

pub fn put_items(buf: &mut Vec<u8>, items: &Vec<ConsensusItem>)
    ensures
        final(buf)@ == old(buf)@ + enc_items(item_views(items@)),
{
    let mut i: usize = 0;
    while i < items.len()
        invariant
            i <= items@.len(),
            buf@ == old(buf)@ + enc_items(item_views(items@.take(i as int))),
        decreases items@.len() - i,
    {
        put_item(buf, &items[i]);
        proof {
            let t = item_views(items@.take(i + 1));
            assert(t.drop_last() =~= item_views(items@.take(i as int)));
            assert(t.last() == items@[i as int]@);
        }
        i += 1;
        assert(buf@ =~= old(buf)@ + enc_items(item_views(items@.take(i as int))));
    }
    assert(items@.take(items@.len() as int) =~= items@);
}

impl ConsensusOutcome {
    pub fn consensus_encode(&self, buf: &mut Vec<u8>)
        ensures
            final(buf)@ == old(buf)@ + enc_outcome(self@),
    {
        let ghost cs = self@.contributions;
        put_u64(buf, self.epoch);
        put_u64(buf, self.contributions.len() as u64);
        let ghost start = buf@;
        let mut i: usize = 0;
        while i < self.contributions.len()
            invariant
                cs == self@.contributions,
                i <= self.contributions@.len(),
                buf@ == start + enc_contributions(cs.take(i as int)),
            decreases self.contributions@.len() - i,
        {
            let c = &self.contributions[i];
            put_u16(buf, c.0);
            put_u64(buf, c.1.len() as u64);
            put_items(buf, &c.1);
            proof {
                let t = cs.take(i + 1);
                assert(t.drop_last() =~= cs.take(i as int));
                assert(t.last() == (c.0, item_views(c.1@)));
            }
            i += 1;
            assert(buf@ =~= start + enc_contributions(cs.take(i as int)));
        }
        assert(cs.take(cs.len() as int) =~= cs);
        assert(buf@ =~= old(buf)@ + enc_outcome(self@));
    }
}

/// The record kept of an epoch.
#[derive(Debug)]
pub struct EpochHistory {
    pub outcome: Rc<ConsensusOutcome>,
    pub hash: [u8; 32],
    pub previous_hash: [u8; 32],
    /// The threshold signature on `hash`, attached when the next epoch is
    /// processed.
    pub last_signature: Option<Vec<u8>>,
}

impl EpochHistory {
    /// The record of a new epoch, chained to the record of the one before
    /// it, or to 32 zero bytes.
    pub fn new(outcome: Rc<ConsensusOutcome>, previous: Option<&EpochHistory>) -> (r: Self)
        ensures
            r.outcome == outcome,
            r.previous_hash@ == match previous {
                Some(p) => p.hash@,
                None => Seq::new(32, |i: int| 0u8),
            },
            r.hash@ == epoch_hash_of(outcome@, r.previous_hash@),
            r.last_signature is None,
    {
        let previous_hash: [u8; 32] = match previous {
            Some(p) => p.hash,
            None => [0u8; 32],
        };
        proof {
            if previous is None {
                assert(previous_hash@ =~= Seq::new(32, |i: int| 0u8));
            }
        }
        let mut buf: Vec<u8> = Vec::new();
        outcome.consensus_encode(&mut buf);
        let mut i: usize = 0;
        let ghost enc = buf@;
        while i < 32
            invariant
                i <= 32,
                buf@ == enc + previous_hash@.take(i as int),
            decreases 32 - i,
        {
            buf.push(previous_hash[i]);
            i += 1;
            assert(buf@ =~= enc + previous_hash@.take(i as int));
        }
        assert(previous_hash@.take(32) =~= previous_hash@);
        let hash = sha256(buf.as_slice());
        EpochHistory { outcome, hash, previous_hash, last_signature: None }
    }

    /// The same record with `signature` attached.
    pub fn with_signature(&self, signature: Vec<u8>) -> (r: Self)
        ensures
            r.outcome == self.outcome,
            r.hash == self.hash,
            r.previous_hash == self.previous_hash,
            r.last_signature == Some(signature),
    {
        EpochHistory {
            outcome: self.outcome.clone(),
            hash: self.hash,
            previous_hash: self.previous_hash,
            last_signature: Some(signature),
        }
    }
}


/// The signature shares among `items`, each with `peer`, in order.
pub open spec fn item_shares(peer: u16, items: Seq<ConsensusItemView>) -> Seq<(u16, Seq<u8>)>
    decreases items.len(),
{
    if items.len() == 0 {
        Seq::empty()
    } else {
        item_shares(peer, items.drop_last()) + match items.last() {
            ConsensusItemView::EpochInfo(s) => seq![(peer, s)],
            _ => Seq::empty(),
        }
    }
}

/// The signature shares of an outcome, each with its peer, in delivery
/// order.
pub open spec fn outcome_shares(cs: Seq<(u16, Seq<ConsensusItemView>)>) -> Seq<(u16, Seq<u8>)>
    decreases cs.len(),
{
    if cs.len() == 0 {
        Seq::empty()
    } else {
        outcome_shares(cs.drop_last()) + item_shares(cs.last().0, cs.last().1)
    }
}

pub open spec fn share_views(s: Seq<(u16, Vec<u8>)>) -> Seq<(u16, Seq<u8>)> {
    s.map_values(|e: (u16, Vec<u8>)| (e.0, e.1@))
}

impl ConsensusOutcome {
    /// The epoch signature shares of the outcome, each with the peer that
    /// contributed it: what is combined into the signature on the previous
    /// epoch.
    pub fn epoch_signature_shares(&self) -> (r: Vec<(u16, Vec<u8>)>)
        ensures
            share_views(r@) == outcome_shares(self@.contributions),
    {
        let ghost cs = self@.contributions;
        let mut out: Vec<(u16, Vec<u8>)> = Vec::new();
        let mut p: usize = 0;
        while p < self.contributions.len()
            invariant
                cs == self@.contributions,
                p <= cs.len(),
                share_views(out@) == outcome_shares(cs.take(p as int)),
            decreases cs.len() - p,
        {
            let peer = self.contributions[p].0;
            let items = &self.contributions[p].1;
            let ghost iv = cs[p as int].1;
            let ghost before = out@;
            let mut j: usize = 0;
            while j < items.len()
                invariant
                    iv == item_views(items@),
                    j <= items@.len(),
                    share_views(out@) == share_views(before) + item_shares(peer, iv.take(j as int)),
                decreases items@.len() - j,
            {
                proof {
                    assert(iv.take(j + 1).drop_last() =~= iv.take(j as int));
                    assert(iv.take(j + 1).last() == items@[j as int]@);
                }
                let ghost mid = out@;
                match &items[j] {
                    ConsensusItem::EpochInfo(share) => {
                        out.push((peer, crate::bytes::copy_bytes(share.0.as_slice())));
                        assert(share_views(out@) =~= share_views(mid).push((peer, share.0@)));
                    },
                    _ => {},
                }
                j += 1;
                assert(share_views(out@) =~= share_views(before) + item_shares(peer, iv.take(j as int)));
            }
            proof {
                assert(iv.take(iv.len() as int) =~= iv);
                assert(cs.take(p + 1).drop_last() =~= cs.take(p as int));
                assert(cs.take(p + 1).last() == cs[p as int]);
                assert(cs[p as int].0 == peer);
            }
            p += 1;
            assert(share_views(out@) =~= outcome_shares(cs.take(p as int)));
        }
        assert(cs.take(cs.len() as int) =~= cs);
        out
    }
}

} // verus!

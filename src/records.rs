//! Typed database keys: a prefix byte followed by the key's fields, and
//! the prefixes that select a group of them.
use vstd::prelude::*;
use vstd::string::StringSliceAdditionalSpecFns;

use crate::bytes::is_prefix_of;
use crate::codec::{be_u16, be_u64, put_u16, put_u64};

verus! {

pub const DB_PREFIX_API_ANNOUNCEMENT: u8 = 7;

pub const DB_PREFIX_USER_BET_KEY: u8 = 80;

pub const DB_PREFIX_BET_RESOLUTION_KEY: u8 = 81;

pub const DB_PREFIX_BET_RESOLUTION_PROPOSAL_KEY: u8 = 82;

/// The signed API announcement of a peer.
#[derive(Clone, Copy, Debug, PartialEq, Eq, Structural)]
pub struct AnnouncementKey(pub u16);

/// All API announcements.
#[derive(Clone, Copy, Debug, PartialEq, Eq, Structural)]
pub struct AnnouncementPrefix;

/// A user's bet: the height at which it resolves and the price the user
/// expects (sats per USD).
#[derive(Clone, Copy, Debug, PartialEq, Eq, Structural, Hash)]
pub struct UserBetKey {
    pub resolve_consensus_height: u64,
    pub moscow_time: u64,
}

/// The bets that resolve at one height.
#[derive(Clone, Copy, Debug, PartialEq, Eq, Structural, Hash)]
pub struct UserBetKeyPrefix {
    resolve_consensus_height: u64,
}

/// The winner of a resolved bet.
#[derive(Clone, Copy, Debug, PartialEq, Eq, Structural, Hash)]
pub struct BetResolutionKey {
    pub resolve_consensus_height: u64,
}

/// All resolved bets.
#[derive(Clone, Copy, Debug, PartialEq, Eq, Structural, Hash)]
pub struct BetResolutionKeyPrefix;

/// The outcome of a bet.
#[derive(Clone, Copy, Debug, PartialEq, Eq, Hash)]
pub struct ResolvedBet {
    /// The winner's x-only public key.
    pub winner: [u8; 32],
    pub user_moscow_time: u64,
    pub consensus_moscow_time: u64,
    /// The prize, in millisatoshis.
    pub prize: u64,
    pub paid_out: bool,
}

/// One peer's proposal for resolving the bets of a height.
#[derive(Clone, Copy, Debug, PartialEq, Eq, Structural, Hash)]
pub struct BetResolutionProposalKey {
    pub resolve_consensus_height: u64,
    pub peer: u16,
}

/// The proposals for resolving the bets of one height.
#[derive(Clone, Copy, Debug, PartialEq, Eq, Structural)]
pub struct BetResolutionProposalKeyPrefix {
    pub resolve_consensus_height: u64,
}

pub open spec fn announcement_key_bytes(peer: u16) -> Seq<u8> {
    seq![DB_PREFIX_API_ANNOUNCEMENT] + be_u16(peer)
}

pub open spec fn user_bet_key_bytes(height: u64, moscow_time: u64) -> Seq<u8> {
    seq![DB_PREFIX_USER_BET_KEY] + be_u64(height) + be_u64(moscow_time)
}

pub open spec fn user_bet_prefix_bytes(height: u64) -> Seq<u8> {
    seq![DB_PREFIX_USER_BET_KEY] + be_u64(height)
}

pub open spec fn bet_resolution_key_bytes(height: u64) -> Seq<u8> {
    seq![DB_PREFIX_BET_RESOLUTION_KEY] + be_u64(height)
}

impl AnnouncementKey {
    pub fn to_bytes(&self) -> (r: Vec<u8>)
        ensures
            r@ == announcement_key_bytes(self.0),
    {
        let mut r: Vec<u8> = vec![DB_PREFIX_API_ANNOUNCEMENT];
        put_u16(&mut r, self.0);
        assert(r@ =~= announcement_key_bytes(self.0));
        r
    }
}

impl AnnouncementPrefix {
    pub fn to_bytes(&self) -> (r: Vec<u8>)
        ensures
            r@ == seq![DB_PREFIX_API_ANNOUNCEMENT],
    {
        let r: Vec<u8> = vec![DB_PREFIX_API_ANNOUNCEMENT];
        assert(r@ =~= seq![DB_PREFIX_API_ANNOUNCEMENT]);
        r
    }
}

impl UserBetKey {
    pub fn to_bytes(&self) -> (r: Vec<u8>)
        ensures
            r@ == user_bet_key_bytes(self.resolve_consensus_height, self.moscow_time),
    {
        let mut r: Vec<u8> = vec![DB_PREFIX_USER_BET_KEY];
        put_u64(&mut r, self.resolve_consensus_height);
        put_u64(&mut r, self.moscow_time);
        assert(r@ =~= user_bet_key_bytes(self.resolve_consensus_height, self.moscow_time));
        r
    }
}

impl UserBetKeyPrefix {
    pub fn new(resolve_consensus_height: u64) -> (r: Self)
        ensures
            r.height() == resolve_consensus_height,
    {
        UserBetKeyPrefix { resolve_consensus_height }
    }

    pub closed spec fn height(&self) -> u64 {
        self.resolve_consensus_height
    }

    pub fn to_bytes(&self) -> (r: Vec<u8>)
        ensures
            r@ == user_bet_prefix_bytes(self.height()),
    {
        let mut r: Vec<u8> = vec![DB_PREFIX_USER_BET_KEY];
        put_u64(&mut r, self.resolve_consensus_height);
        assert(r@ =~= user_bet_prefix_bytes(self.height()));
        r
    }
}

impl BetResolutionKey {
    pub fn to_bytes(&self) -> (r: Vec<u8>)
        ensures
            r@ == bet_resolution_key_bytes(self.resolve_consensus_height),
    {
        let mut r: Vec<u8> = vec![DB_PREFIX_BET_RESOLUTION_KEY];
        put_u64(&mut r, self.resolve_consensus_height);
        assert(r@ =~= bet_resolution_key_bytes(self.resolve_consensus_height));
        r
    }
}

impl BetResolutionKeyPrefix {
    pub fn to_bytes(&self) -> (r: Vec<u8>)
        ensures
            r@ == seq![DB_PREFIX_BET_RESOLUTION_KEY],
    {
        let r: Vec<u8> = vec![DB_PREFIX_BET_RESOLUTION_KEY];
        assert(r@ =~= seq![DB_PREFIX_BET_RESOLUTION_KEY]);
        r
    }
}

impl BetResolutionProposalKey {
    pub fn to_bytes(&self) -> (r: Vec<u8>)
        ensures
            r@ == seq![DB_PREFIX_BET_RESOLUTION_PROPOSAL_KEY] + be_u64(self.resolve_consensus_height)
                + be_u16(self.peer),
    {
        let mut r: Vec<u8> = vec![DB_PREFIX_BET_RESOLUTION_PROPOSAL_KEY];
        put_u64(&mut r, self.resolve_consensus_height);
        put_u16(&mut r, self.peer);
        assert(r@ =~= seq![DB_PREFIX_BET_RESOLUTION_PROPOSAL_KEY] + be_u64(self.resolve_consensus_height)
            + be_u16(self.peer));
        r
    }
}

impl BetResolutionProposalKeyPrefix {
    pub fn to_bytes(&self) -> (r: Vec<u8>)
        ensures
            r@ == seq![DB_PREFIX_BET_RESOLUTION_PROPOSAL_KEY] + be_u64(self.resolve_consensus_height),
    {
        let mut r: Vec<u8> = vec![DB_PREFIX_BET_RESOLUTION_PROPOSAL_KEY];
        put_u64(&mut r, self.resolve_consensus_height);
        assert(r@ =~= seq![DB_PREFIX_BET_RESOLUTION_PROPOSAL_KEY] + be_u64(self.resolve_consensus_height));
        r
    }
}

/// A prefix selects exactly the keys of its group: every bet of a height
/// starts with that height's prefix, and no bet of another height does.
pub proof fn lemma_user_bet_prefix_selects(height: u64, moscow_time: u64, other: u64)
    requires
        other != height,
    ensures
        is_prefix_of(user_bet_prefix_bytes(height), user_bet_key_bytes(height, moscow_time)),
        !is_prefix_of(user_bet_prefix_bytes(other), user_bet_key_bytes(height, moscow_time)),
{
    let k = user_bet_key_bytes(height, moscow_time);
    let p = user_bet_prefix_bytes(other);
    if is_prefix_of(p, k) {
        assert(p.subrange(1, 9) =~= be_u64(other));
        assert(k.subrange(1, 9) =~= be_u64(height));
        assert(p.subrange(1, 9) =~= k.subrange(1, 9));
        crate::codec::lemma_u64_round_trip(height);
        crate::codec::lemma_u64_round_trip(other);
    }
}

/// Every proposal for a height starts with that height's prefix.
pub proof fn lemma_bet_proposal_prefix_selects(height: u64, peer: u16)
    ensures
        is_prefix_of(
            seq![DB_PREFIX_BET_RESOLUTION_PROPOSAL_KEY] + be_u64(height),
            seq![DB_PREFIX_BET_RESOLUTION_PROPOSAL_KEY] + be_u64(height) + be_u16(peer),
        ),
{
}

/// Every announcement key starts with the announcement prefix.
pub proof fn lemma_announcement_prefix_selects(peer: u16)
    ensures
        is_prefix_of(seq![DB_PREFIX_API_ANNOUNCEMENT], announcement_key_bytes(peer)),
{
}


/// The bytes an API announcement signs: the URL, the guardian's identity,
/// and a zero nonce.
pub open spec fn api_announcement_bytes(url: Seq<u8>, identity: u16) -> Seq<u8> {
    url + be_u16(identity) + be_u64(0)
}

/// The digest an API announcement's signature is made over.
pub fn api_announcement_message(url: &str, identity: u16) -> (r: [u8; 32])
    ensures
        r@ == crate::transaction::sha256_of(api_announcement_bytes(url.spec_bytes(), identity)),
{
    let mut bytes = url.as_bytes_vec();
    put_u16(&mut bytes, identity);
    put_u64(&mut bytes, 0);
    crate::transaction::sha256(bytes.as_slice())
}

/// What is stored for a signed announcement: the signature, then the URL.
pub fn signed_announcement(signature: &[u8; 64], url: &str) -> (r: Vec<u8>)
    ensures
        r@ == signature@ + url.spec_bytes(),
{
    let mut r: Vec<u8> = Vec::new();
    crate::codec::put_raw(&mut r, signature.as_slice());
    let u = url.as_bytes_vec();
    crate::codec::put_raw(&mut r, u.as_slice());
    assert(r@ =~= signature@ + url.spec_bytes());
    r
}

} // verus!

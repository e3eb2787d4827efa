//! Transactions: their encoding and hash, the signature check, and the
//! funding balance.
use bitcoin_hashes::Hash as HashTrait;
use vstd::prelude::*;

use crate::codec::{be_u64, enc_bytes, put_bytes, put_u64};
use crate::module_types::{enc_dyn, DynInput, DynOutput, DynValue};
use crate::text::{decimal, push_decimal};

verus! {

/// An amount in millisatoshis.
pub type Amount = u64;

pub type PeerId = u16;

/// The hash of a transaction.
pub type TransactionId = [u8; 32];

/// The SHA-256 digest of a byte string.
pub uninterp spec fn sha256_of(b: Seq<u8>) -> Seq<u8>;

/// Relies on `bitcoin_hashes::sha256::Hash::hash`: the SHA-256 digest of
/// the bytes, which depends on them alone.
#[verifier::external_body]
pub(crate) fn sha256(b: &[u8]) -> (r: [u8; 32])
    ensures
        r@ == sha256_of(b@),
{
    <bitcoin_hashes::sha256::Hash as HashTrait>::hash(b).into_inner()
}

/// The x-only sum of 32-byte x-only public keys (each read with even
/// parity), or none when the list is empty, a key does not parse, or the
/// sum is not a point.
pub uninterp spec fn aggregate_key_of(keys: Seq<Seq<u8>>) -> Option<Seq<u8>>;

/// Relies on secp256k1's `PublicKey::combine_keys`, with each key read by
/// `XOnlyPublicKey::from_slice` and `public_key(Parity::Even)`, and the sum
/// written by `x_only_public_key` and `serialize`. The sum depends on the
/// keys alone.
#[verifier::external_body]
fn aggregate_keys(keys: &Vec<Vec<u8>>) -> (r: Option<[u8; 32]>)
    ensures
        aggregate_key_of(keys@.map_values(|k: Vec<u8>| k@)) == match r {
            Some(a) => Some(a@),
            None => None::<Seq<u8>>,
        },
{
    let mut parsed = Vec::new();
    for k in keys {
        let x = secp256k1::XOnlyPublicKey::from_slice(k).ok()?;
        parsed.push(x.public_key(secp256k1::Parity::Even));
    }
    let refs: Vec<&secp256k1::PublicKey> = parsed.iter().collect();
    let sum = secp256k1::PublicKey::combine_keys(&refs).ok()?;
    Some(sum.x_only_public_key().0.serialize())
}

/// Whether `sig` is a valid BIP-340 signature of the 32-byte `msg` under
/// the x-only key `key`.
pub uninterp spec fn schnorr_valid(key: Seq<u8>, msg: Seq<u8>, sig: Seq<u8>) -> bool;

/// Relies on secp256k1's `Secp256k1::verify_schnorr`, with the signature,
/// message and key read by their `from_slice`; a part that does not parse
/// gives false. The answer depends on the three alone.
#[verifier::external_body]
fn verify_schnorr(key: &[u8; 32], msg: &[u8; 32], sig: &[u8]) -> (r: bool)
    ensures
        r == schnorr_valid(key@, msg@, sig@),
{
    let secp = secp256k1::Secp256k1::verification_only();
    let k = secp256k1::XOnlyPublicKey::from_slice(key);
    let m = secp256k1::Message::from_slice(msg);
    let s = secp256k1::schnorr::Signature::from_slice(sig);
    match (k, m, s) {
        (Ok(k), Ok(m), Ok(s)) => secp.verify_schnorr(&s, &m, &k).is_ok(),
        _ => false,
    }
}

/// An atomic transfer: inputs and outputs of modules, and a signature of
/// its hash by the keys that the inputs name.
#[derive(Debug)]
pub struct Transaction {
    pub inputs: Vec<DynInput>,
    pub outputs: Vec<DynOutput>,
    pub signature: Option<Vec<u8>>,
}

pub struct TransactionView {
    pub inputs: Seq<(u16, Seq<u8>)>,
    pub outputs: Seq<(u16, Seq<u8>)>,
    pub signature: Option<Seq<u8>>,
}

pub open spec fn dyn_views(s: Seq<DynValue>) -> Seq<(u16, Seq<u8>)> {
    s.map_values(|d: DynValue| d@)
}

impl View for Transaction {
    type V = TransactionView;

    open spec fn view(&self) -> TransactionView {
        TransactionView {
            inputs: dyn_views(self.inputs@),
            outputs: dyn_views(self.outputs@),
            signature: match self.signature {
                Some(s) => Some(s@),
                None => None,
            },
        }
    }
}

pub open spec fn enc_dyn_seq(s: Seq<(u16, Seq<u8>)>) -> Seq<u8>
    decreases s.len(),
{
    if s.len() == 0 {
        Seq::empty()
    } else {
        enc_dyn_seq(s.drop_last()) + enc_dyn(s.last())
    }
}

/// A list of type-erased values: its length, then each value.
pub open spec fn enc_dyn_list(s: Seq<(u16, Seq<u8>)>) -> Seq<u8> {
    be_u64(s.len() as u64) + enc_dyn_seq(s)
}

/// The part of a transaction that its hash covers.
pub open spec fn enc_tx_body(t: TransactionView) -> Seq<u8> {
    enc_dyn_list(t.inputs) + enc_dyn_list(t.outputs)
}

pub open spec fn enc_option_bytes(o: Option<Seq<u8>>) -> Seq<u8> {
    match o {
        None => seq![0u8],
        Some(b) => seq![1u8] + enc_bytes(b),
    }
}

/// The full encoding of a transaction, signature included.
pub open spec fn enc_tx(t: TransactionView) -> Seq<u8> {
    enc_tx_body(t) + enc_option_bytes(t.signature)
}

/// The identifier of a transaction: the digest of its inputs and outputs.
pub open spec fn tx_hash_of(t: TransactionView) -> Seq<u8> {
    sha256_of(enc_tx_body(t))
}

pub fn put_dyn_list(buf: &mut Vec<u8>, s: &Vec<DynValue>)
    ensures
        final(buf)@ == old(buf)@ + enc_dyn_list(dyn_views(s@)),
{
    put_u64(buf, s.len() as u64);
    let ghost start = buf@;
    let mut i: usize = 0;
    while i < s.len()
        invariant
            i <= s@.len(),
            buf@ == start + enc_dyn_seq(dyn_views(s@.take(i as int))),
        decreases s@.len() - i,
    {
        s[i].consensus_encode(buf);
        proof {
            let t = dyn_views(s@.take(i + 1));
            assert(t.drop_last() =~= dyn_views(s@.take(i as int)));
            assert(t.last() == s@[i as int]@);
        }
        i += 1;
        assert(buf@ =~= start + enc_dyn_seq(dyn_views(s@.take(i as int))));
    }
    assert(s@.take(s@.len() as int) =~= s@);
    assert(buf@ =~= old(buf)@ + enc_dyn_list(dyn_views(s@)));
}

/// Why a transaction is refused.
#[derive(Debug, Clone, Copy, PartialEq, Eq, Structural)]
pub enum TransactionError {
    /// The inputs do not pay for the outputs and the fees exactly.
    UnbalancedTransaction { inputs: u64, outputs: u64, fee: u64 },
    InvalidSignature,
    MissingSignature,
    /// A sum of amounts does not fit in 64 bits.
    AmountOverflow,
}

/// The message that names a transaction error.
pub open spec fn transaction_error_text(e: TransactionError) -> Seq<char> {
    match e {
        TransactionError::UnbalancedTransaction { inputs, outputs, fee } => "UnbalancedTransaction { inputs: "@
            + decimal(inputs as nat) + ", outputs: "@ + decimal(outputs as nat) + ", fee: "@ + decimal(
            fee as nat,
        ) + " }"@,
        TransactionError::InvalidSignature => "InvalidSignature"@,
        TransactionError::MissingSignature => "MissingSignature"@,
        TransactionError::AmountOverflow => "AmountOverflow"@,
    }
}

impl TransactionError {
    /// Appends the message that names the error.
    pub fn describe_into(&self, s: &mut String)
        ensures
            final(s)@ == old(s)@ + transaction_error_text(*self),
    {
        match self {
            TransactionError::UnbalancedTransaction { inputs, outputs, fee } => {
                s.append("UnbalancedTransaction { inputs: ");
                push_decimal(s, *inputs);
                s.append(", outputs: ");
                push_decimal(s, *outputs);
                s.append(", fee: ");
                push_decimal(s, *fee);
                s.append(" }");
            },
            TransactionError::InvalidSignature => s.append("InvalidSignature"),
            TransactionError::MissingSignature => s.append("MissingSignature"),
            TransactionError::AmountOverflow => s.append("AmountOverflow"),
        }
        assert(s@ =~= old(s)@ + transaction_error_text(*self));
    }
}

impl Transaction {
    /// Appends the part of the encoding that the hash covers.
    pub fn encode_body(&self, buf: &mut Vec<u8>)
        ensures
            final(buf)@ == old(buf)@ + enc_tx_body(self@),
    {
        put_dyn_list(buf, &self.inputs);
        put_dyn_list(buf, &self.outputs);
        assert(buf@ =~= old(buf)@ + enc_tx_body(self@));
    }

    /// Appends the full encoding.
    pub fn consensus_encode(&self, buf: &mut Vec<u8>)
        ensures
            final(buf)@ == old(buf)@ + enc_tx(self@),
    {
        self.encode_body(buf);
        match &self.signature {
            None => {
                buf.push(0u8);
            },
            Some(s) => {
                buf.push(1u8);
                put_bytes(buf, s.as_slice());
            },
        }
        assert(buf@ =~= old(buf)@ + enc_tx(self@));
    }

    pub fn tx_hash(&self) -> (r: TransactionId)
        ensures
            r@ == tx_hash_of(self@),
    {
        let mut buf: Vec<u8> = Vec::new();
        self.encode_body(&mut buf);
        assert(buf@ =~= enc_tx_body(self@));
        sha256(buf.as_slice())
    }

    /// Checks the signature against the keys that the inputs named. With
    /// no keys there is nothing to protect and no signature is needed.
    pub fn validate_signature(&self, pub_keys: &Vec<Vec<u8>>) -> (r: Result<(), TransactionError>)
        ensures
            r == signature_verdict(self@, pub_keys@.map_values(|k: Vec<u8>| k@)),
    {
        if pub_keys.len() == 0 {
            return Ok(());
        }
        let sig = match &self.signature {
            None => {
                return Err(TransactionError::MissingSignature);
            },
            Some(s) => s,
        };
        let key = match aggregate_keys(pub_keys) {
            None => {
                return Err(TransactionError::InvalidSignature);
            },
            Some(k) => k,
        };
        let msg = self.tx_hash();
        if verify_schnorr(&key, &msg, sig.as_slice()) {
            Ok(())
        } else {
            Err(TransactionError::InvalidSignature)
        }
    }
}

/// What the signature check finds for a transaction and the keys of its
/// inputs.
pub open spec fn signature_verdict(t: TransactionView, keys: Seq<Seq<u8>>) -> Result<(), TransactionError> {
    if keys.len() == 0 {
        Ok(())
    } else {
        match t.signature {
            None => Err(TransactionError::MissingSignature),
            Some(sig) => match aggregate_key_of(keys) {
                Some(agg) => if schnorr_valid(agg, tx_hash_of(t), sig) {
                    Ok(())
                } else {
                    Err(TransactionError::InvalidSignature)
                },
                None => Err(TransactionError::InvalidSignature),
            },
        }
    }
}

/// What an input or output moves, and the fee it costs.
#[derive(Debug, Clone, Copy, PartialEq, Eq, Structural)]
pub struct TransactionItemAmount {
    pub amount: u64,
    pub fee: u64,
}

/// What a module reports of an input: its amount and fee, and the keys
/// that must sign the transaction.
#[derive(Debug)]
pub struct InputMeta {
    pub amount: TransactionItemAmount,
    pub pub_keys: Vec<Vec<u8>>,
}

/// A transaction without inputs and outputs moves nothing: its funding
/// check succeeds exactly when its fees are zero too.
pub proof fn lemma_empty_transaction_funding(fee: int)
    requires
        0 <= fee <= u64::MAX,
    ensures
        funding_verdict(0, 0, fee) is Ok <==> fee == 0,
        fee != 0 ==> funding_verdict(0, 0, fee) == Err::<(), TransactionError>(
            TransactionError::UnbalancedTransaction { inputs: 0, outputs: 0, fee: fee as u64 },
        ),
{
}

/// Sums the amounts of a transaction's inputs and outputs and their fees.
pub struct FundingVerifier {
    input_amount: u64,
    output_amount: u64,
    fee_amount: u64,
    overflow: bool,
    total_in: Ghost<int>,
    total_out: Ghost<int>,
    total_fee: Ghost<int>,
}

/// The outcome of the funding check for the given totals.
pub open spec fn funding_verdict(inputs: int, outputs: int, fee: int) -> Result<(), TransactionError> {
    if inputs > u64::MAX || outputs > u64::MAX || fee > u64::MAX {
        Err(TransactionError::AmountOverflow)
    } else if inputs == outputs + fee {
        Ok(())
    } else {
        Err(
            TransactionError::UnbalancedTransaction {
                inputs: inputs as u64,
                outputs: outputs as u64,
                fee: fee as u64,
            },
        )
    }
}

impl FundingVerifier {
    pub closed spec fn wf(&self) -> bool {
        &&& self.total_in@ >= 0
        &&& self.total_out@ >= 0
        &&& self.total_fee@ >= 0
        &&& self.overflow == (self.total_in@ > u64::MAX || self.total_out@ > u64::MAX
            || self.total_fee@ > u64::MAX)
        &&& !self.overflow ==> (self.input_amount == self.total_in@ && self.output_amount
            == self.total_out@ && self.fee_amount == self.total_fee@)
    }

    /// The sum of the input amounts so far.
    pub closed spec fn total_in(&self) -> int {
        self.total_in@
    }

    /// The sum of the output amounts so far.
    pub closed spec fn total_out(&self) -> int {
        self.total_out@
    }

    /// The sum of the fees so far.
    pub closed spec fn total_fee(&self) -> int {
        self.total_fee@
    }

    pub fn new() -> (r: Self)
        ensures
            r.wf(),
            r.total_in() == 0,
            r.total_out() == 0,
            r.total_fee() == 0,
    {
        FundingVerifier {
            input_amount: 0,
            output_amount: 0,
            fee_amount: 0,
            overflow: false,
            total_in: Ghost(0),
            total_out: Ghost(0),
            total_fee: Ghost(0),
        }
    }

    fn add_checked(a: u64, b: u64, overflow: bool) -> (r: (u64, bool))
        ensures
            !overflow && a + b <= u64::MAX ==> r.0 == a + b && !r.1,
            overflow || a + b > u64::MAX ==> r.1,
    {
        if overflow {
            (a, true)
        } else {
            match a.checked_add(b) {
                Some(s) => (s, false),
                None => (a, true),
            }
        }
    }

    pub fn add_input(&mut self, item: TransactionItemAmount)
        requires
            old(self).wf(),
        ensures
            final(self).wf(),
            final(self).total_in() == old(self).total_in() + item.amount,
            final(self).total_out() == old(self).total_out(),
            final(self).total_fee() == old(self).total_fee() + item.fee,
    {
        let (i, o1) = Self::add_checked(self.input_amount, item.amount, self.overflow);
        let (f, o2) = Self::add_checked(self.fee_amount, item.fee, o1);
        self.input_amount = i;
        self.fee_amount = f;
        self.overflow = o2;
        self.total_in = Ghost(self.total_in@ + item.amount);
        self.total_fee = Ghost(self.total_fee@ + item.fee);
    }

    pub fn add_output(&mut self, item: TransactionItemAmount)
        requires
            old(self).wf(),
        ensures
            final(self).wf(),
            final(self).total_in() == old(self).total_in(),
            final(self).total_out() == old(self).total_out() + item.amount,
            final(self).total_fee() == old(self).total_fee() + item.fee,
    {
        let (o, o1) = Self::add_checked(self.output_amount, item.amount, self.overflow);
        let (f, o2) = Self::add_checked(self.fee_amount, item.fee, o1);
        self.output_amount = o;
        self.fee_amount = f;
        self.overflow = o2;
        self.total_out = Ghost(self.total_out@ + item.amount);
        self.total_fee = Ghost(self.total_fee@ + item.fee);
    }

    /// Succeeds when the inputs pay exactly for the outputs and the fees.
    pub fn verify_funding(self) -> (r: Result<(), TransactionError>)
        requires
            self.wf(),
        ensures
            r == funding_verdict(self.total_in(), self.total_out(), self.total_fee()),
    {
        if self.overflow {
            Err(TransactionError::AmountOverflow)
        } else if self.input_amount as u128 == self.output_amount as u128 + self.fee_amount as u128 {
            Ok(())
        } else {
            Err(
                TransactionError::UnbalancedTransaction {
                    inputs: self.input_amount,
                    outputs: self.output_amount,
                    fee: self.fee_amount,
                },
            )
        }
    }
}

} // verus!

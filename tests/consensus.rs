use bitcoin_hashes::Hash as HashTrait;
use std::rc::Rc;

use fedimint_consensus::consensus::{
    first_named, has_endpoint, inputs_of_module, out_point_of, single_input, ApiError, Audit,
    ConsensusProposal, DbValue, EpochError, EpochSignatureOutcome, FedimintConsensus,
    FedimintInterconnect, ModuleError, OutPoint, ServerModule, TransactionStatus,
    TransactionSubmissionError,
};
use fedimint_consensus::db::{DbTx, MemDatabase};
use fedimint_consensus::epoch::{ConsensusItem, ConsensusOutcome, EpochSignatureShare};
use fedimint_consensus::module_types::{Decoder, DynInput, DynKind, DynModuleConsensusItem, DynOutput, DynOutputOutcome, DynValue};
use fedimint_consensus::transaction::{FundingVerifier, InputMeta, Transaction, TransactionError, TransactionItemAmount};

const MINT: u16 = 1;

/// Inputs and outputs carry an 8-byte amount and an 8-byte fee; an input
/// may add a 32-byte key. Spending marks the input under `s`, creating an
/// output records its amount under `o`.
struct TestModule {
    audit_offset: i64,
}

fn amounts(payload: &[u8]) -> TransactionItemAmount {
    let amount = u64::from_be_bytes(payload[0..8].try_into().unwrap());
    let fee = u64::from_be_bytes(payload[8..16].try_into().unwrap());
    TransactionItemAmount { amount, fee }
}

fn meta(input: &DynInput) -> InputMeta {
    let keys = if input.payload.len() == 48 { vec![input.payload[16..48].to_vec()] } else { vec![] };
    InputMeta { amount: amounts(&input.payload), pub_keys: keys }
}

fn spent_key(input: &DynInput) -> Vec<u8> {
    let mut k = vec![b's'];
    k.extend_from_slice(&input.payload);
    k
}

impl ServerModule for TestModule {
    type VerificationCache = usize;

    fn decoder(&self) -> Decoder {
        let mut b = Decoder::builder();
        b.with_decodable_type(DynKind::Input);
        b.with_decodable_type(DynKind::Output);
        b.build()
    }

    fn api_base_name(&self) -> String {
        "test".to_string()
    }

    fn api_endpoints(&self) -> Vec<String> {
        vec!["count".to_string()]
    }

    fn handle_api_call(&self, path: &str, dbtx: &DbTx<DbValue>, _data: serde_json::Value) -> Result<serde_json::Value, ApiError> {
        assert_eq!(path, "count");
        Ok(serde_json::Value::from(dbtx.find_by_prefix(&[b's']).len() as u64))
    }

    fn build_verification_cache(&self, inputs: &Vec<DynInput>) -> usize {
        inputs.len()
    }

    fn validate_input(&self, _interconnect: &FedimintInterconnect<'_, Self>, dbtx: &DbTx<DbValue>, _cache: &usize, input: &DynInput) -> Result<InputMeta, ModuleError> {
        if dbtx.get_bytes(&spent_key(input)).is_some() {
            return Err(ModuleError("already spent".to_string()));
        }
        Ok(meta(input))
    }

    fn apply_input(&self, interconnect: &FedimintInterconnect<'_, Self>, dbtx: &mut DbTx<DbValue>, input: &DynInput, _cache: &usize) -> Result<InputMeta, ModuleError> {
        if dbtx.get_bytes(&spent_key(input)).is_some() {
            return Err(ModuleError("already spent".to_string()));
        }
        match input.payload.get(16) {
            Some(0x60) => {
                if dbtx.find_by_prefix(&[b'o']).is_empty() {
                    return Err(ModuleError("no output yet".to_string()));
                }
            }
            Some(0xee) => {
                let seen = interconnect.call("test", "count", serde_json::Value::Null).map_err(|e| ModuleError(e.message))?;
                if seen != serde_json::Value::from(1u64) {
                    return Err(ModuleError(format!("saw {seen}")));
                }
            }
            Some(0xef) => match interconnect.call("test", "nope", serde_json::Value::Null) {
                Err(ApiError { code: 404, .. }) => {}
                _ => return Err(ModuleError("expected 404".to_string())),
            },
            Some(0xf0) => match interconnect.call("other", "count", serde_json::Value::Null) {
                Err(ApiError { code: 500, .. }) => {}
                _ => return Err(ModuleError("expected 500".to_string())),
            },
            _ => {}
        }
        dbtx.insert_bytes(&spent_key(input), Rc::new(DbValue::Bytes(vec![])));
        Ok(meta(input))
    }

    fn validate_output(&self, _dbtx: &DbTx<DbValue>, output: &DynOutput) -> Result<TransactionItemAmount, ModuleError> {
        Ok(amounts(&output.payload))
    }

    fn apply_output(&self, dbtx: &mut DbTx<DbValue>, output: &DynOutput, out_point: OutPoint) -> Result<TransactionItemAmount, ModuleError> {
        let mut k = vec![b'o'];
        k.extend_from_slice(&out_point.txid);
        k.extend_from_slice(&out_point.out_idx.to_be_bytes());
        dbtx.insert_bytes(&k, Rc::new(DbValue::Bytes(output.payload.clone())));
        Ok(amounts(&output.payload))
    }

    fn begin_consensus_epoch(&self, dbtx: &mut DbTx<DbValue>, items: Vec<(u16, DynModuleConsensusItem)>) {
        for (peer, item) in items {
            let mut k = vec![b'c'];
            k.extend_from_slice(&peer.to_be_bytes());
            dbtx.insert_bytes(&k, Rc::new(DbValue::Bytes(item.payload)));
        }
    }

    fn end_consensus_epoch(&self, _epoch_peers: &Vec<u16>, _dbtx: &mut DbTx<DbValue>) -> Vec<u16> {
        vec![]
    }

    fn consensus_proposal(&self, _dbtx: &DbTx<DbValue>) -> Vec<DynModuleConsensusItem> {
        vec![DynValue::new(MINT, vec![7])]
    }

    fn output_status(&self, _dbtx: &DbTx<DbValue>, out_point: OutPoint) -> Option<DynOutputOutcome> {
        Some(DynValue::new(MINT, out_point.out_idx.to_be_bytes().to_vec()))
    }

    fn audit(&self, dbtx: &DbTx<DbValue>, audit: &mut Audit) {
        let outputs = dbtx.find_by_prefix(&[b'o']);
        let mut total: i64 = self.audit_offset;
        for (_, v) in outputs {
            if let DbValue::Bytes(p) = &*v {
                total += amounts(p).amount as i64;
            }
        }
        audit.add_item(vec![b'm'], total);
    }
}

fn federation(audit_offset: i64) -> FedimintConsensus<TestModule> {
    let mut f = FedimintConsensus::new(MemDatabase::new());
    f.register_module(MINT, TestModule { audit_offset });
    f
}

fn item(amount: u64, fee: u64, tag: u8) -> DynValue {
    let mut p = amount.to_be_bytes().to_vec();
    p.extend_from_slice(&fee.to_be_bytes());
    p.push(tag);
    DynValue::new(MINT, p)
}

fn plain(amount: u64, fee: u64) -> DynValue {
    let mut p = amount.to_be_bytes().to_vec();
    p.extend_from_slice(&fee.to_be_bytes());
    DynValue::new(MINT, p)
}

fn tx(inputs: Vec<DynValue>, outputs: Vec<DynValue>) -> Transaction {
    Transaction { inputs, outputs, signature: None }
}

fn outcome(epoch: u64, contributions: Vec<(u16, Vec<ConsensusItem>)>) -> ConsensusOutcome {
    ConsensusOutcome { epoch, contributions }
}

fn no_sig() -> EpochSignatureOutcome {
    EpochSignatureOutcome::NotEnoughValidShares(vec![])
}

fn module_records(f: &FedimintConsensus<TestModule>, tag: u8) -> usize {
    let dbtx = f.database_transaction();
    dbtx.find_by_prefix(&[16, 0, 1, tag]).len()
}

fn queued_transactions(p: &ConsensusProposal) -> usize {
    p.items.iter().filter(|i| matches!(i, ConsensusItem::Transaction(_))).count()
}

#[test]
fn empty_epoch_on_fresh_store() {
    let mut f = federation(0);
    assert_eq!(f.process_consensus_outcome(outcome(0, vec![]), no_sig()), Ok(()));
    let h = f.epoch_history(0).unwrap();
    assert_eq!(h.previous_hash, [0u8; 32]);
    assert!(h.last_signature.is_none());
    assert_eq!(h.outcome.epoch, 0);
    assert_eq!(f.get_last_epoch(), Some(0));
    assert_eq!(f.last_epoch_hash(), Some(h.hash));
    let mut enc = vec![0u8; 16];
    enc.extend_from_slice(&[0u8; 32]);
    assert_eq!(h.hash, bitcoin_hashes::sha256::Hash::hash(&enc).into_inner());
}

#[test]
fn single_accepted_transaction() {
    let mut f = federation(0);
    let t = tx(vec![item(100, 0, 1)], vec![plain(100, 0)]);
    let h = t.tx_hash();
    assert!(f.submit_transaction(tx(vec![item(100, 0, 1)], vec![plain(100, 0)])).is_ok());
    assert_eq!(queued_transactions(&f.get_consensus_proposal(None)), 1);
    let o = outcome(1, vec![(0, vec![ConsensusItem::Transaction(Rc::new(t))])]);
    assert_eq!(f.process_consensus_outcome(o, no_sig()), Ok(()));
    match f.transaction_status(&h) {
        Some(TransactionStatus::Accepted { epoch, outputs }) => {
            assert_eq!(epoch, 1);
            assert_eq!(outputs.len(), 1);
            assert_eq!(outputs[0].as_ref().unwrap().payload, 0u64.to_be_bytes().to_vec());
        }
        other => panic!("unexpected {:?}", other),
    }
    assert_eq!(queued_transactions(&f.get_consensus_proposal(None)), 0);
    assert!(f.epoch_history(1).is_some());
    assert_eq!(module_records(&f, b's'), 1);
    assert_eq!(module_records(&f, b'o'), 1);
}

#[test]
fn unbalanced_transaction_is_rejected() {
    let mut f = federation(0);
    let t = tx(vec![item(100, 0, 1)], vec![plain(90, 0)]);
    let h = t.tx_hash();
    let o = outcome(1, vec![(0, vec![ConsensusItem::Transaction(Rc::new(t))])]);
    assert_eq!(f.process_consensus_outcome(o, no_sig()), Ok(()));
    match f.transaction_status(&h) {
        Some(TransactionStatus::Rejected(message)) => {
            assert_eq!(
                message,
                "TransactionError(UnbalancedTransaction { inputs: 100, outputs: 90, fee: 0 })"
            );
        }
        other => panic!("unexpected {:?}", other),
    }
    assert_eq!(module_records(&f, b's'), 0);
    assert_eq!(module_records(&f, b'o'), 0);
}

#[test]
fn duplicate_in_epoch_is_applied_once() {
    let mut f = federation(0);
    let t = Rc::new(tx(vec![item(50, 0, 2)], vec![plain(50, 0)]));
    let h = t.tx_hash();
    let o = outcome(
        1,
        vec![
            (0, vec![ConsensusItem::Transaction(t.clone())]),
            (1, vec![ConsensusItem::Transaction(t.clone())]),
        ],
    );
    assert_eq!(f.process_consensus_outcome(o, no_sig()), Ok(()));
    assert!(matches!(f.transaction_status(&h), Some(TransactionStatus::Accepted { epoch: 1, .. })));
    assert_eq!(module_records(&f, b's'), 1);
    assert_eq!(module_records(&f, b'o'), 1);
}

#[test]
fn signature_attached_to_previous_epoch() {
    let mut f = federation(0);
    assert_eq!(f.process_consensus_outcome(outcome(1, vec![]), no_sig()), Ok(()));
    let first = f.epoch_history(1).unwrap();
    let shares = vec![
        (0, vec![ConsensusItem::EpochInfo(EpochSignatureShare(vec![1]))]),
        (1, vec![ConsensusItem::EpochInfo(EpochSignatureShare(vec![2]))]),
        (2, vec![ConsensusItem::EpochInfo(EpochSignatureShare(vec![3]))]),
    ];
    let aggregate = vec![0xaa; 96];
    assert_eq!(
        f.process_consensus_outcome(outcome(2, shares), EpochSignatureOutcome::Signed(aggregate.clone(), vec![0, 1, 2])),
        Ok(())
    );
    let signed = f.epoch_history(1).unwrap();
    assert_eq!(signed.last_signature, Some(aggregate));
    assert_eq!(signed.hash, first.hash);
    let second = f.epoch_history(2).unwrap();
    assert_eq!(second.previous_hash, first.hash);
    assert!(second.last_signature.is_none());
    assert_eq!(f.get_last_epoch(), Some(2));
}

#[test]
fn peer_without_share_is_dropped() {
    let mut f = federation(0);
    assert_eq!(f.process_consensus_outcome(outcome(1, vec![]), no_sig()), Ok(()));
    let contributions = vec![
        (0, vec![ConsensusItem::EpochInfo(EpochSignatureShare(vec![1]))]),
        (1, vec![ConsensusItem::EpochInfo(EpochSignatureShare(vec![2]))]),
        (2, vec![]),
    ];
    assert_eq!(
        f.process_consensus_outcome(
            outcome(2, contributions),
            EpochSignatureOutcome::NotEnoughValidShares(vec![0, 1])
        ),
        Ok(())
    );
    assert_eq!(f.get_consensus_proposal(None).drop_peers, vec![2]);
    assert!(f.epoch_history(1).unwrap().last_signature.is_none());
}

#[test]
fn first_epoch_drops_nobody() {
    let mut f = federation(0);
    let o = outcome(0, vec![(3, vec![])]);
    assert_eq!(f.process_consensus_outcome(o, EpochSignatureOutcome::NotEnoughValidShares(vec![])), Ok(()));
    assert!(f.get_consensus_proposal(None).drop_peers.is_empty());
}

#[test]
fn submitting_twice_keeps_one_record() {
    let mut f = federation(0);
    let make = || tx(vec![item(10, 0, 3)], vec![plain(10, 0)]);
    assert!(f.submit_transaction(make()).is_ok());
    assert!(f.submit_transaction(make()).is_ok());
    assert_eq!(queued_transactions(&f.get_consensus_proposal(None)), 1);
}

#[test]
fn submitting_a_decided_transaction_succeeds() {
    let mut f = federation(0);
    let t = tx(vec![item(10, 0, 4)], vec![plain(9, 0)]);
    let o = outcome(1, vec![(0, vec![ConsensusItem::Transaction(Rc::new(t))])]);
    f.process_consensus_outcome(o, no_sig()).unwrap();
    assert!(f.submit_transaction(tx(vec![item(10, 0, 4)], vec![plain(9, 0)])).is_ok());
    assert_eq!(queued_transactions(&f.get_consensus_proposal(None)), 0);
}

#[test]
fn submission_errors() {
    let mut f = federation(0);
    let unbalanced = f.submit_transaction(tx(vec![item(10, 0, 5)], vec![plain(11, 0)]));
    assert!(matches!(
        unbalanced,
        Err(TransactionSubmissionError::TransactionError(TransactionError::UnbalancedTransaction {
            inputs: 10,
            outputs: 11,
            fee: 0
        }))
    ));
    let unknown = f.submit_transaction(tx(vec![DynValue::new(9, vec![0; 16])], vec![]));
    assert!(matches!(unknown, Err(TransactionSubmissionError::UnknownModule(_, 9))));
    let mut key_input = item(10, 0, 6).payload;
    key_input.truncate(16);
    key_input.extend_from_slice(&[7u8; 32]);
    let missing = f.submit_transaction(tx(vec![DynValue::new(MINT, key_input.clone())], vec![plain(10, 0)]));
    assert!(matches!(
        missing,
        Err(TransactionSubmissionError::TransactionError(TransactionError::MissingSignature))
    ));
    let bad = Transaction {
        inputs: vec![DynValue::new(MINT, key_input)],
        outputs: vec![plain(10, 0)],
        signature: Some(vec![0; 64]),
    };
    assert!(matches!(
        f.submit_transaction(bad),
        Err(TransactionSubmissionError::TransactionError(TransactionError::InvalidSignature))
    ));
    assert_eq!(queued_transactions(&f.get_consensus_proposal(None)), 0);
}

#[test]
fn double_spend_is_a_module_error() {
    let mut f = federation(0);
    let t = tx(vec![item(10, 0, 7)], vec![plain(10, 0)]);
    let o = outcome(1, vec![(0, vec![ConsensusItem::Transaction(Rc::new(t))])]);
    f.process_consensus_outcome(o, no_sig()).unwrap();
    let again = tx(vec![item(10, 0, 7)], vec![plain(5, 5)]);
    assert!(matches!(f.submit_transaction(again), Err(TransactionSubmissionError::ModuleError(_, _))));
}

#[test]
fn signed_transaction_is_accepted() {
    let secp = secp256k1::Secp256k1::new();
    let keypair = secp256k1::KeyPair::from_seckey_slice(&secp, &[0x11; 32]).unwrap();
    let (xonly, _) = keypair.x_only_public_key();
    let mut payload = item(10, 0, 8).payload;
    payload.truncate(16);
    payload.extend_from_slice(&xonly.serialize());
    let mut t = tx(vec![DynValue::new(MINT, payload)], vec![plain(10, 0)]);
    let msg = secp256k1::Message::from_slice(&t.tx_hash()).unwrap();
    let sig = secp.sign_schnorr_no_aux_rand(&msg, &keypair);
    t.signature = Some(sig.as_ref().to_vec());
    let mut f = federation(0);
    assert!(f.submit_transaction(t).is_ok());
    assert_eq!(queued_transactions(&f.get_consensus_proposal(None)), 1);
}

#[test]
fn negative_balance_sheet_fails_the_epoch() {
    let mut f = federation(-5);
    assert_eq!(
        f.process_consensus_outcome(outcome(0, vec![]), no_sig()),
        Err(EpochError::NegativeBalanceSheet(-5))
    );
}

#[test]
fn module_items_reach_the_module_before_transactions() {
    let mut f = federation(0);
    let o = outcome(
        1,
        vec![(4, vec![ConsensusItem::Module(DynValue::new(MINT, vec![1, 2]))])],
    );
    f.process_consensus_outcome(o, no_sig()).unwrap();
    assert_eq!(module_records(&f, b'c'), 1);
}

#[test]
fn proposal_contents() {
    let mut f = federation(0);
    f.submit_transaction(tx(vec![item(1, 0, 9)], vec![plain(1, 0)])).unwrap();
    let p = f.get_consensus_proposal(Some(EpochSignatureShare(vec![5])));
    assert_eq!(p.items.len(), 2);
    assert!(matches!(p.items[0], ConsensusItem::Transaction(_)));
    assert!(matches!(p.items[1], ConsensusItem::Module(_)));
    f.process_consensus_outcome(outcome(0, vec![]), no_sig()).unwrap();
    let p = f.get_consensus_proposal(Some(EpochSignatureShare(vec![5])));
    assert!(matches!(p.items.last(), Some(ConsensusItem::EpochInfo(EpochSignatureShare(s))) if s == &vec![5]));
}

#[test]
fn unknown_transaction_has_no_status() {
    let f = federation(0);
    assert!(f.transaction_status(&[0u8; 32]).is_none());
    assert!(f.epoch_history(3).is_none());
    assert!(f.get_last_epoch().is_none());
}

#[test]
fn empty_transaction_funding() {
    assert_eq!(FundingVerifier::new().verify_funding(), Ok(()));
    let mut v = FundingVerifier::new();
    v.add_output(TransactionItemAmount { amount: 0, fee: 3 });
    assert_eq!(
        v.verify_funding(),
        Err(TransactionError::UnbalancedTransaction { inputs: 0, outputs: 0, fee: 3 })
    );
}

#[test]
fn funding_counts_fees_and_overflow() {
    let mut v = FundingVerifier::new();
    v.add_input(TransactionItemAmount { amount: 100, fee: 1 });
    v.add_output(TransactionItemAmount { amount: 98, fee: 1 });
    assert_eq!(v.verify_funding(), Ok(()));
    let mut v = FundingVerifier::new();
    v.add_input(TransactionItemAmount { amount: u64::MAX, fee: 0 });
    v.add_input(TransactionItemAmount { amount: 1, fee: 0 });
    assert_eq!(v.verify_funding(), Err(TransactionError::AmountOverflow));
}

#[test]
fn decoders_cover_registered_modules() {
    let f = federation(0);
    let r = f.decoders();
    assert!(r.contains(MINT));
    assert!(!r.contains(2));
    assert!(f.has_module(MINT));
}

#[test]
fn interconnect_reads_the_epoch_transaction() {
    let mut f = federation(0);
    let first = Rc::new(tx(vec![item(10, 0, 1)], vec![plain(10, 0)]));
    let second = Rc::new(tx(vec![item(10, 0, 0xee)], vec![plain(10, 0)]));
    let missing = Rc::new(tx(vec![item(10, 0, 0xef)], vec![plain(10, 0)]));
    let unknown = Rc::new(tx(vec![item(10, 0, 0xf0)], vec![plain(10, 0)]));
    let hashes = [second.tx_hash(), missing.tx_hash(), unknown.tx_hash()];
    let o = outcome(
        1,
        vec![(
            0,
            vec![
                ConsensusItem::Transaction(first),
                ConsensusItem::Transaction(second),
                ConsensusItem::Transaction(missing),
                ConsensusItem::Transaction(unknown),
            ],
        )],
    );
    f.process_consensus_outcome(o, no_sig()).unwrap();
    for h in hashes {
        assert!(matches!(f.transaction_status(&h), Some(TransactionStatus::Accepted { .. })));
    }
}

#[test]
fn error_messages() {
    assert_eq!(
        TransactionSubmissionError::UnknownModule([0xab; 32], 9).describe(),
        format!("UnknownModule({}, 9)", "ab".repeat(32))
    );
    assert_eq!(
        TransactionSubmissionError::ModuleError([1; 32], ModuleError("spent".to_string())).describe(),
        format!("ModuleError({}, spent)", "01".repeat(32))
    );
    assert_eq!(TransactionSubmissionError::TransactionConflictError.describe(), "TransactionConflictError");
    assert_eq!(
        TransactionSubmissionError::TransactionError(TransactionError::MissingSignature).describe(),
        "TransactionError(MissingSignature)"
    );
    assert_eq!(
        TransactionSubmissionError::TransactionError(TransactionError::UnbalancedTransaction {
            inputs: 18446744073709551615,
            outputs: 10,
            fee: 7
        })
        .describe(),
        "TransactionError(UnbalancedTransaction { inputs: 18446744073709551615, outputs: 10, fee: 7 })"
    );
}

#[test]
fn api_announcement_is_stored_once() {
    let mut f = federation(0);
    assert!(f.sign_api_announcement_if_not_present(2, vec![1, 2, 3]));
    assert!(!f.sign_api_announcement_if_not_present(2, vec![9]));
    let dbtx = f.database_transaction();
    match dbtx.get_bytes(&[7, 0, 2]).as_deref() {
        Some(DbValue::Bytes(b)) => assert_eq!(b, &vec![1, 2, 3]),
        other => panic!("unexpected {:?}", other),
    }
    assert!(f.sign_api_announcement_if_not_present(3, vec![4]));
}

#[test]
fn empty_transaction_is_funded() {
    let mut f = federation(0);
    assert!(f.submit_transaction(tx(vec![], vec![])).is_ok());
    assert_eq!(queued_transactions(&f.get_consensus_proposal(None)), 1);
    let t = tx(vec![], vec![]);
    let h = t.tx_hash();
    f.process_consensus_outcome(outcome(0, vec![(0, vec![ConsensusItem::Transaction(Rc::new(t))])]), no_sig())
        .unwrap();
    assert!(matches!(f.transaction_status(&h), Some(TransactionStatus::Accepted { epoch: 0, .. })));
}

#[test]
fn acceptance_clears_an_earlier_rejection() {
    let mut f = federation(0);
    let t = Rc::new(tx(vec![item(5, 0, 0x60)], vec![plain(5, 0)]));
    let h = t.tx_hash();
    f.process_consensus_outcome(outcome(1, vec![(0, vec![ConsensusItem::Transaction(t.clone())])]), no_sig())
        .unwrap();
    assert!(matches!(f.transaction_status(&h), Some(TransactionStatus::Rejected(_))));
    let maker = Rc::new(tx(vec![item(2, 0, 0x61)], vec![plain(2, 0)]));
    f.process_consensus_outcome(
        outcome(2, vec![(0, vec![ConsensusItem::Transaction(maker), ConsensusItem::Transaction(t)])]),
        no_sig(),
    )
    .unwrap();
    assert!(matches!(f.transaction_status(&h), Some(TransactionStatus::Accepted { epoch: 2, .. })));
    let dbtx = f.database_transaction();
    let mut rk = vec![2u8];
    rk.extend_from_slice(&h);
    assert!(dbtx.get_bytes(&rk).is_none());
}

#[test]
fn accepted_record_survives_a_replay() {
    let mut f = federation(0);
    let t = Rc::new(tx(vec![item(3, 0, 0x41)], vec![plain(3, 0)]));
    let h = t.tx_hash();
    f.process_consensus_outcome(outcome(1, vec![(0, vec![ConsensusItem::Transaction(t.clone())])]), no_sig())
        .unwrap();
    f.process_consensus_outcome(outcome(2, vec![(0, vec![ConsensusItem::Transaction(t)])]), no_sig())
        .unwrap();
    assert!(matches!(f.transaction_status(&h), Some(TransactionStatus::Accepted { epoch: 1, .. })));
    assert_eq!(module_records(&f, b's'), 1);
}

#[test]
fn drop_peers_come_in_ascending_order() {
    let mut f = federation(0);
    f.process_consensus_outcome(outcome(1, vec![]), no_sig()).unwrap();
    let contributions = vec![(0, vec![]), (3, vec![]), (300, vec![]), (7, vec![])];
    f.process_consensus_outcome(
        outcome(2, contributions),
        EpochSignatureOutcome::NotEnoughValidShares(vec![3]),
    )
    .unwrap();
    assert_eq!(f.get_consensus_proposal(None).drop_peers, vec![0, 7, 300]);
}

#[test]
fn proposal_without_epoch_has_no_share() {
    let f = federation(0);
    let p = f.get_consensus_proposal(Some(EpochSignatureShare(vec![1])));
    assert!(p.items.iter().all(|i| !matches!(i, ConsensusItem::EpochInfo(_))));
}

#[test]
fn cache_inputs_are_the_modules_inputs_in_order() {
    let a = Rc::new(tx(vec![item(1, 0, 1), DynValue::new(2, vec![9])], vec![]));
    let b = Rc::new(tx(vec![item(2, 0, 2)], vec![]));
    let o = outcome(
        1,
        vec![
            (0, vec![ConsensusItem::Transaction(a), ConsensusItem::Module(DynValue::new(MINT, vec![]))]),
            (1, vec![ConsensusItem::Transaction(b)]),
        ],
    );
    let mint = inputs_of_module(&o, MINT);
    assert_eq!(mint.len(), 2);
    assert_eq!(mint[0].payload, item(1, 0, 1).payload);
    assert_eq!(mint[1].payload, item(2, 0, 2).payload);
    let other = inputs_of_module(&o, 2);
    assert_eq!(other.len(), 1);
    assert_eq!(other[0].payload, vec![9]);
    assert!(inputs_of_module(&o, 5).is_empty());
}

#[test]
fn small_helpers() {
    let one = single_input(&DynValue::new(4, vec![1]));
    assert_eq!(one.len(), 1);
    assert_eq!(one[0].module_instance_id, 4);
    let op = out_point_of(&[3; 32], 7);
    assert_eq!(op.txid, [3; 32]);
    assert_eq!(op.out_idx, 7);
    let names = vec!["mint".to_string(), "ln".to_string(), "mint".to_string()];
    assert_eq!(first_named(&names, "mint"), Some(0));
    assert_eq!(first_named(&names, "ln"), Some(1));
    assert_eq!(first_named(&names, "wallet"), None);
    assert!(has_endpoint(&names, "ln"));
    assert!(!has_endpoint(&names, "x"));
}

#[test]
fn module_error_carries_the_hash() {
    let mut f = federation(0);
    let t = tx(vec![item(10, 0, 0x51)], vec![plain(10, 0)]);
    f.process_consensus_outcome(outcome(1, vec![(0, vec![ConsensusItem::Transaction(Rc::new(tx(vec![item(10, 0, 0x51)], vec![plain(10, 0)])))])]), no_sig()).unwrap();
    let again = tx(vec![item(10, 0, 0x51)], vec![plain(4, 6)]);
    let h = again.tx_hash();
    assert_ne!(h, t.tx_hash());
    match f.submit_transaction(again) {
        Err(TransactionSubmissionError::ModuleError(eh, ModuleError(m))) => {
            assert_eq!(eh, h);
            assert_eq!(m, "already spent");
        }
        other => panic!("unexpected {:?}", other),
    }
}

#[test]
fn peer_without_share_is_dropped_even_when_signed() {
    let mut f = federation(0);
    f.process_consensus_outcome(outcome(1, vec![]), no_sig()).unwrap();
    let contributions = vec![
        (0, vec![ConsensusItem::EpochInfo(EpochSignatureShare(vec![1]))]),
        (1, vec![ConsensusItem::EpochInfo(EpochSignatureShare(vec![2]))]),
        (2, vec![]),
    ];
    let o = outcome(2, contributions);
    let shares = o.epoch_signature_shares();
    assert_eq!(shares, vec![(0, vec![1]), (1, vec![2])]);
    f.process_consensus_outcome(o, EpochSignatureOutcome::Signed(vec![7; 96], vec![0, 1])).unwrap();
    assert_eq!(f.get_consensus_proposal(None).drop_peers, vec![2]);
    assert_eq!(f.epoch_history(1).unwrap().last_signature, Some(vec![7; 96]));
}

#[test]
fn announcement_message_is_the_digest_of_its_bytes() {
    let mut bytes = b"wss://a.example".to_vec();
    bytes.extend_from_slice(&[0, 3, 0, 0, 0, 0, 0, 0, 0, 0]);
    let expected = bitcoin_hashes::sha256::Hash::hash(&bytes).into_inner();
    assert_eq!(fedimint_consensus::records::api_announcement_message("wss://a.example", 3), expected);
    let stored = fedimint_consensus::records::signed_announcement(&[9; 64], "u");
    assert_eq!(stored.len(), 65);
    assert_eq!(stored[64], b'u');
}

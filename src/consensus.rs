//! The consensus core: module registry, transaction submission, epoch
//! processing, proposals and queries, over one transactional store.
use std::rc::Rc;

use vstd::prelude::*;

use crate::bytes::is_prefix_of;
use crate::codec::{be_u16, be_u64, put_u16, put_u64};
use crate::db::{apply_writes, conflicts, same_outside, DbTx, MemDatabase};
use crate::kv::is_prefix_listing;
use crate::epoch::{ConsensusItem, ConsensusOutcome, EpochHistory, EpochSignatureShare};
use crate::module_types::{
    Decoder, DynInput, DynModuleConsensusItem, DynOutput, DynOutputOutcome, DynValue,
    ModuleDecoderRegistry,
};
use crate::hex::{hex_encoded, to_hex};
use crate::text::{decimal, push_decimal};
use crate::transaction::{
    transaction_error_text, FundingVerifier, InputMeta, Transaction, TransactionError, TransactionId, TransactionItemAmount,
    tx_hash_of,
};

verus! {

pub const ACCEPTED_TRANSACTION_PREFIX: u8 = 1;

pub const REJECTED_TRANSACTION_PREFIX: u8 = 2;

pub const PROPOSED_TRANSACTION_PREFIX: u8 = 3;

pub const DROP_PEER_PREFIX: u8 = 4;

pub const EPOCH_HISTORY_PREFIX: u8 = 5;

pub const LAST_EPOCH_PREFIX: u8 = 6;

/// The first byte of every module's subspace; the instance id follows it.
pub const MODULE_PREFIX: u8 = 16;

pub open spec fn accepted_key(h: Seq<u8>) -> Seq<u8> {
    seq![ACCEPTED_TRANSACTION_PREFIX] + h
}

pub open spec fn rejected_key(h: Seq<u8>) -> Seq<u8> {
    seq![REJECTED_TRANSACTION_PREFIX] + h
}

pub open spec fn proposed_key(h: Seq<u8>) -> Seq<u8> {
    seq![PROPOSED_TRANSACTION_PREFIX] + h
}

pub open spec fn drop_peer_key(p: u16) -> Seq<u8> {
    seq![DROP_PEER_PREFIX] + be_u16(p)
}

pub open spec fn epoch_key(n: u64) -> Seq<u8> {
    seq![EPOCH_HISTORY_PREFIX] + be_u64(n)
}

pub open spec fn last_epoch_key() -> Seq<u8> {
    seq![LAST_EPOCH_PREFIX]
}

pub open spec fn module_prefix(id: u16) -> Seq<u8> {
    seq![MODULE_PREFIX] + be_u16(id)
}

fn key_with_hash(tag: u8, h: &[u8; 32]) -> (r: Vec<u8>)
    ensures
        r@ == seq![tag] + h@,
{
    let mut r: Vec<u8> = Vec::with_capacity(33);
    r.push(tag);
    crate::codec::put_raw(&mut r, h.as_slice());
    assert(r@ =~= seq![tag] + h@);
    r
}

pub fn accepted_transaction_key(h: &TransactionId) -> (r: Vec<u8>)
    ensures
        r@ == accepted_key(h@),
{
    key_with_hash(ACCEPTED_TRANSACTION_PREFIX, h)
}

pub fn rejected_transaction_key(h: &TransactionId) -> (r: Vec<u8>)
    ensures
        r@ == rejected_key(h@),
{
    key_with_hash(REJECTED_TRANSACTION_PREFIX, h)
}

pub fn proposed_transaction_key(h: &TransactionId) -> (r: Vec<u8>)
    ensures
        r@ == proposed_key(h@),
{
    key_with_hash(PROPOSED_TRANSACTION_PREFIX, h)
}

pub fn drop_peer_db_key(p: u16) -> (r: Vec<u8>)
    ensures
        r@ == drop_peer_key(p),
{
    let mut r: Vec<u8> = Vec::with_capacity(3);
    r.push(DROP_PEER_PREFIX);
    put_u16(&mut r, p);
    assert(r@ =~= drop_peer_key(p));
    r
}

pub fn epoch_history_key(n: u64) -> (r: Vec<u8>)
    ensures
        r@ == epoch_key(n),
{
    let mut r: Vec<u8> = Vec::with_capacity(9);
    r.push(EPOCH_HISTORY_PREFIX);
    put_u64(&mut r, n);
    assert(r@ =~= epoch_key(n));
    r
}

pub fn last_epoch_db_key() -> (r: Vec<u8>)
    ensures
        r@ == last_epoch_key(),
{
    let mut r: Vec<u8> = Vec::with_capacity(1);
    r.push(LAST_EPOCH_PREFIX);
    assert(r@ =~= last_epoch_key());
    r
}

pub fn module_db_prefix(id: u16) -> (r: Vec<u8>)
    ensures
        r@ == module_prefix(id),
{
    let mut r: Vec<u8> = Vec::with_capacity(3);
    r.push(MODULE_PREFIX);
    put_u16(&mut r, id);
    assert(r@ =~= module_prefix(id));
    r
}

/// A JSON value, carried between modules as it is.
#[verifier::external_type_specification]
#[verifier::external_body]
pub struct ExJsonValue(serde_json::Value);

/// An error of a module's API endpoint.
#[derive(Debug)]
pub struct ApiError {
    pub code: i32,
    pub message: String,
}

/// An error a module reports on an input or output.
#[derive(Debug)]
pub struct ModuleError(pub String);

/// Why a transaction was refused.
#[derive(Debug)]
pub enum TransactionSubmissionError {
    TransactionError(TransactionError),
    /// A module refused an input or an output of the transaction.
    ModuleError(TransactionId, ModuleError),
    /// An input or output names a module instance that is not registered.
    UnknownModule(TransactionId, u16),
    /// Another transaction wrote the same record first; retry.
    TransactionConflictError,
}

/// The message stored for a rejected transaction.
pub open spec fn submission_error_text(e: TransactionSubmissionError) -> Seq<char> {
    match e {
        TransactionSubmissionError::TransactionError(t) => "TransactionError("@ + transaction_error_text(t)
            + ")"@,
        TransactionSubmissionError::ModuleError(h, m) => "ModuleError("@ + hex_encoded(h@) + ", "@ + m.0@
            + ")"@,
        TransactionSubmissionError::UnknownModule(h, id) => "UnknownModule("@ + hex_encoded(h@) + ", "@
            + decimal(id as nat) + ")"@,
        TransactionSubmissionError::TransactionConflictError => "TransactionConflictError"@,
    }
}

impl TransactionSubmissionError {
    /// A human-readable message naming the error.
    pub fn describe(&self) -> (r: String)
        ensures
            r@ == submission_error_text(*self),
    {
        let mut s = String::new();
        match self {
            TransactionSubmissionError::TransactionError(t) => {
                s.append("TransactionError(");
                t.describe_into(&mut s);
                s.append(")");
            },
            TransactionSubmissionError::ModuleError(h, m) => {
                s.append("ModuleError(");
                let hx = to_hex(h.as_slice());
                s.append(hx.as_str());
                s.append(", ");
                s.append(m.0.as_str());
                s.append(")");
            },
            TransactionSubmissionError::UnknownModule(h, id) => {
                s.append("UnknownModule(");
                let hx = to_hex(h.as_slice());
                s.append(hx.as_str());
                s.append(", ");
                push_decimal(&mut s, *id as u64);
                s.append(")");
            },
            TransactionSubmissionError::TransactionConflictError => {
                s.append("TransactionConflictError");
            },
        }
        assert(s@ =~= submission_error_text(*self));
        s
    }
}

/// A transaction accepted in an epoch.
#[derive(Debug)]
pub struct AcceptedTransaction {
    pub epoch: u64,
    pub transaction: Rc<Transaction>,
}

/// A value of the store.
#[derive(Debug)]
pub enum DbValue {
    /// A submitted transaction that waits for consensus.
    Proposed(Rc<Transaction>),
    Accepted(AcceptedTransaction),
    /// The message of the error that rejected a transaction.
    Rejected(String),
    /// A peer to drop.
    DropPeer,
    Epoch(Rc<EpochHistory>),
    /// The number of the last processed epoch.
    LastEpoch(u64),
    /// A record of a module.
    Bytes(Vec<u8>),
}

/// Which output of which transaction.
#[derive(Debug, Clone, Copy)]
pub struct OutPoint {
    pub txid: TransactionId,
    pub out_idx: u64,
}

/// One module's contribution to the balance sheet.
#[derive(Debug)]
pub struct AuditItem {
    pub key: Vec<u8>,
    pub milli_sat: i64,
}

/// The federation's balance sheet, summed over the modules.
#[derive(Debug)]
pub struct Audit {
    pub items: Vec<AuditItem>,
}

pub open spec fn audit_total(items: Seq<AuditItem>) -> int
    decreases items.len(),
{
    if items.len() == 0 {
        0
    } else {
        audit_total(items.drop_last()) + items.last().milli_sat
    }
}

/// Every running sum of the items fits in 128 bits.
pub open spec fn audit_fits(items: Seq<AuditItem>) -> bool {
    forall|n: int| 0 <= n <= items.len() ==> i128::MIN <= #[trigger] audit_total(items.take(n)) <= i128::MAX
}

impl Audit {
    pub fn new() -> (r: Self)
        ensures
            r.items@.len() == 0,
    {
        Audit { items: Vec::new() }
    }

    pub fn add_item(&mut self, key: Vec<u8>, milli_sat: i64)
        ensures
            final(self).items@ == old(self).items@.push(AuditItem { key, milli_sat }),
    {
        self.items.push(AuditItem { key, milli_sat });
    }

    /// The sum of the items, or none where it does not fit in 128 bits.
    pub fn sum(&self) -> (r: Option<i128>)
        ensures
            r.is_some() == audit_fits(self.items@),
            r.is_some() ==> r.unwrap() == audit_total(self.items@),
    {
        let mut total: i128 = 0;
        let mut i: usize = 0;
        while i < self.items.len()
            invariant
                i <= self.items@.len(),
                total == audit_total(self.items@.take(i as int)),
                forall|n: int| 0 <= n <= i ==> i128::MIN <= #[trigger] audit_total(self.items@.take(n)) <= i128::MAX,
            decreases self.items@.len() - i,
        {
            proof {
                assert(self.items@.take(i + 1).drop_last() =~= self.items@.take(i as int));
            }
            match total.checked_add(self.items[i].milli_sat as i128) {
                Some(t) => {
                    total = t;
                },
                None => {
                    assert(!(i128::MIN <= audit_total(self.items@.take(i + 1)) <= i128::MAX));
                    assert(!audit_fits(self.items@));
                    return None;
                },
            }
            i += 1;
        }
        assert(self.items@.take(self.items@.len() as int) =~= self.items@);
        Some(total)
    }
}

/// The contract a module implements to take part in consensus. Each call
/// gets a transaction over the module's own subspace only.
pub trait ServerModule: Sized {
    /// What the module precomputes over the inputs of one epoch.
    type VerificationCache;

    fn decoder(&self) -> Decoder;

    /// The name under which other modules reach the module's endpoints.
    fn api_base_name(&self) -> String;

    /// The paths of the module's endpoints.
    fn api_endpoints(&self) -> Vec<String>;

    /// Answers a call of one of the module's endpoints, reading `dbtx`.
    fn handle_api_call(&self, path: &str, dbtx: &DbTx<DbValue>, data: serde_json::Value) -> Result<
        serde_json::Value,
        ApiError,
    >;

    fn build_verification_cache(&self, inputs: &Vec<DynInput>) -> Self::VerificationCache;

    /// Checks an input against the current state, without changing it.
    fn validate_input(
        &self,
        interconnect: &FedimintInterconnect<'_, Self>,
        dbtx: &DbTx<DbValue>,
        cache: &Self::VerificationCache,
        input: &DynInput,
    ) -> Result<InputMeta, ModuleError>;

    /// Consumes an input.
    fn apply_input(
        &self,
        interconnect: &FedimintInterconnect<'_, Self>,
        dbtx: &mut DbTx<DbValue>,
        input: &DynInput,
        cache: &Self::VerificationCache,
    ) -> Result<InputMeta, ModuleError>;

    /// Checks an output against the current state, without changing it.
    fn validate_output(&self, dbtx: &DbTx<DbValue>, output: &DynOutput) -> Result<
        TransactionItemAmount,
        ModuleError,
    >;

    /// Creates an output.
    fn apply_output(
        &self,
        dbtx: &mut DbTx<DbValue>,
        output: &DynOutput,
        out_point: OutPoint,
    ) -> Result<TransactionItemAmount, ModuleError>;

    /// Processes the module's consensus items of an epoch, before its
    /// transactions.
    fn begin_consensus_epoch(&self, dbtx: &mut DbTx<DbValue>, items: Vec<(u16, DynModuleConsensusItem)>);

    /// Finishes an epoch; returns the peers the module wants dropped.
    fn end_consensus_epoch(&self, epoch_peers: &Vec<u16>, dbtx: &mut DbTx<DbValue>) -> Vec<u16>;

    /// The items the module wants in the next epoch.
    fn consensus_proposal(&self, dbtx: &DbTx<DbValue>) -> Vec<DynModuleConsensusItem>;

    fn output_status(&self, dbtx: &DbTx<DbValue>, out_point: OutPoint) -> Option<DynOutputOutcome>;

    /// Adds the module's assets and liabilities to `audit`.
    fn audit(&self, dbtx: &DbTx<DbValue>, audit: &mut Audit);
}

/// Lets a module call another module's read-only endpoints, over the state
/// of the transaction it is working in. It gives no way to write.
pub struct FedimintInterconnect<'a, M: ServerModule> {
    modules: &'a Vec<(u16, M)>,
    dbtx: &'a DbTx<DbValue>,
}

/// The index of the first name equal to `name`: where an interconnect call
/// goes, given the modules' API names in order.
pub fn first_named(names: &Vec<String>, name: &str) -> (r: Option<usize>)
    ensures
        r is None <==> forall|i: int| 0 <= i < names@.len() ==> names@[i]@ != name@,
        r is Some ==> r->Some_0 < names@.len() && names@[r->Some_0 as int]@ == name@ && forall|j: int|
            0 <= j < r->Some_0 ==> names@[j]@ != name@,
{
    let wanted = String::from_str(name);
    let mut i: usize = 0;
    while i < names.len()
        invariant
            wanted@ == name@,
            i <= names@.len(),
            forall|j: int| 0 <= j < i ==> names@[j]@ != name@,
        decreases names@.len() - i,
    {
        if names[i] == wanted {
            return Some(i);
        }
        i += 1;
    }
    None
}

/// Whether `path` is among a module's endpoint paths.
pub fn has_endpoint(endpoints: &Vec<String>, path: &str) -> (r: bool)
    ensures
        r == exists|i: int| 0 <= i < endpoints@.len() && endpoints@[i]@ == path@,
{
    let wanted = String::from_str(path);
    let mut j: usize = 0;
    while j < endpoints.len()
        invariant
            wanted@ == path@,
            j <= endpoints@.len(),
            forall|k: int| 0 <= k < j ==> endpoints@[k]@ != path@,
        decreases endpoints@.len() - j,
    {
        if endpoints[j] == wanted {
            return true;
        }
        j += 1;
    }
    false
}

impl<'a, M: ServerModule> FedimintInterconnect<'a, M> {
    pub closed spec fn dbtx(&self) -> DbTx<DbValue> {
        *self.dbtx
    }

    /// The number of registered modules.
    pub closed spec fn module_count(&self) -> nat {
        self.modules@.len()
    }

    /// Calls endpoint `path` of the first module named `module_name`, over
    /// that module's subspace of the transaction. Fails with 404 when the
    /// module has no such endpoint, and with 500 when no module has that
    /// name. The names and endpoints come from the modules; the routing on
    /// them is `first_named` and `has_endpoint`.
    pub fn call(&self, module_name: &str, path: &str, data: serde_json::Value) -> (r: Result<
        serde_json::Value,
        ApiError,
    >)
        requires
            self.dbtx().wf(),
        ensures
            self.module_count() == 0 ==> r is Err && r->Err_0.code == 500 && r->Err_0.message@
                == "Module not registered"@,
    {
        let mut names: Vec<String> = Vec::new();
        let mut i: usize = 0;
        while i < self.modules.len()
            invariant
                i <= self.modules@.len(),
                names@.len() == i,
            decreases self.modules@.len() - i,
        {
            names.push(self.modules[i].1.api_base_name());
            i += 1;
        }
        match first_named(&names, module_name) {
            None => Err(ApiError { code: 500, message: String::from_str("Module not registered") }),
            Some(i) => {
                let module = &self.modules[i].1;
                if has_endpoint(&module.api_endpoints(), path) {
                    let prefix = module_db_prefix(self.modules[i].0);
                    let view = self.dbtx.module_view(prefix.as_slice());
                    module.handle_api_call(path, &view, data)
                } else {
                    Err(ApiError { code: 404, message: String::from_str("Method not found") })
                }
            },
        }
    }
}

/// A key outside every module's subspace.
pub open spec fn outside_modules(k: Seq<u8>) -> bool {
    k.len() == 0 || k[0] != MODULE_PREFIX
}

/// `a` and `b` agree on every key outside the modules' subspaces.
pub open spec fn same_core<V>(a: Map<Seq<u8>, V>, b: Map<Seq<u8>, V>) -> bool {
    forall|k: Seq<u8>|
        outside_modules(k) ==> (a.contains_key(k) == b.contains_key(k) && (a.contains_key(k)
            ==> a[k] == b[k]))
}

pub proof fn lemma_module_writes_keep_core<V>(a: Map<Seq<u8>, V>, b: Map<Seq<u8>, V>, c: Map<Seq<u8>, V>, id: u16)
    requires
        same_core(a, b),
        same_outside(c, b, module_prefix(id)),
    ensures
        same_core(a, c),
{
    assert forall|k: Seq<u8>| outside_modules(k) implies !is_prefix_of(module_prefix(id), k) by {
        if is_prefix_of(module_prefix(id), k) {
            assert(k[0] == module_prefix(id)[0]);
        }
    }
}

/// The consensus core of one guardian.
pub struct FedimintConsensus<M: ServerModule> {
    /// The registered modules, by ascending instance id.
    modules: Vec<(u16, M)>,
    /// The store into which all state is persisted.
    db: MemDatabase<DbValue>,
}

impl<M: ServerModule> FedimintConsensus<M> {
    pub closed spec fn module_ids(&self) -> Seq<u16> {
        self.modules@.map_values(|m: (u16, M)| m.0)
    }

    pub closed spec fn db(&self) -> MemDatabase<DbValue> {
        self.db
    }

    /// The committed state.
    pub open spec fn state(&self) -> Map<Seq<u8>, DbValue> {
        self.db().view()
    }

    pub closed spec fn wf(&self) -> bool {
        &&& self.db.wf()
        &&& forall|i: int, j: int|
            0 <= i < j < self.modules@.len() ==> self.modules@[i].0 < self.modules@[j].0
    }

    pub fn new(db: MemDatabase<DbValue>) -> (r: Self)
        requires
            db.wf(),
        ensures
            r.wf(),
            r.db() == db,
            r.module_ids() == Seq::<u16>::empty(),
    {
        let r = FedimintConsensus { modules: Vec::new(), db };
        assert(r.module_ids() =~= Seq::<u16>::empty());
        r
    }

    /// The number of commits the store has taken so far.
    pub fn commit_count(&self) -> (r: u64)
        ensures
            r == self.db().version(),
    {
        self.db.current_version()
    }

    pub fn has_module(&self, id: u16) -> (r: bool)
        ensures
            r == self.module_ids().contains(id),
    {
        self.module_index(id).is_some()
    }

    fn module_index(&self, id: u16) -> (r: Option<usize>)
        ensures
            r.is_some() <==> self.module_ids().contains(id),
            r.is_some() ==> r.unwrap() < self.modules@.len() && self.modules@[r.unwrap() as int].0
                == id,
    {
        let mut i: usize = 0;
        while i < self.modules.len()
            invariant
                i <= self.modules@.len(),
                forall|j: int| 0 <= j < i ==> self.modules@[j].0 != id,
            decreases self.modules@.len() - i,
        {
            if self.modules[i].0 == id {
                assert(self.module_ids()[i as int] == id);
                return Some(i);
            }
            i += 1;
        }
        proof {
            if self.module_ids().contains(id) {
                let j = choose|j: int| 0 <= j < self.module_ids().len() && self.module_ids()[j] == id;
                assert(self.modules@[j].0 == id);
            }
        }
        None
    }

    /// Adds a module under an instance id. Registering one id twice is a
    /// programming error.
    pub fn register_module(&mut self, id: u16, module: M)
        requires
            old(self).wf(),
            !old(self).module_ids().contains(id),
        ensures
            final(self).wf(),
            final(self).db() == old(self).db(),
            final(self).module_ids().to_set() == old(self).module_ids().to_set().insert(id),
    {
        let mut i: usize = 0;
        while i < self.modules.len() && self.modules[i].0 < id
            invariant
                i <= self.modules@.len(),
                forall|j: int| 0 <= j < i ==> self.modules@[j].0 < id,
            decreases self.modules@.len() - i,
        {
            i += 1;
        }
        let ghost old_ids = self.module_ids();
        let ghost old_mods = self.modules@;
        proof {
            assert forall|j: int| i <= j < old_mods.len() implies old_mods[j].0 > id by {
                assert(old_ids[j] == old_mods[j].0);
                if old_mods[j].0 == id {
                    assert(old_ids.contains(id));
                }
                if j > i {
                    assert(old_mods[i as int].0 < old_mods[j].0);
                }
            }
        }
        self.modules.insert(i, (id, module));
        proof {
            assert(self.module_ids() =~= old_ids.insert(i as int, id));
            assert(self.module_ids().to_set() =~= old_ids.to_set().insert(id)) by {
                assert forall|x: u16| self.module_ids().contains(x) == old_ids.to_set().insert(id).contains(x) by {
                    if old_ids.contains(x) {
                        let j = choose|j: int| 0 <= j < old_ids.len() && old_ids[j] == x;
                        if j < i {
                            assert(self.module_ids()[j] == x);
                        } else {
                            assert(self.module_ids()[j + 1] == x);
                        }
                    }
                    if x == id {
                        assert(self.module_ids()[i as int] == x);
                    }
                    if self.module_ids().contains(x) {
                        let j = choose|j: int| 0 <= j < self.module_ids().len() && self.module_ids()[j] == x;
                        if j < i {
                            assert(old_ids[j] == x);
                        } else if j > i {
                            assert(old_ids[j - 1] == x);
                        }
                    }
                }
            }
            assert forall|a: int, b: int| 0 <= a < b < self.modules@.len() implies self.modules@[a].0 < self.modules@[b].0 by {
                if b < i {
                } else if a < i && b == i {
                } else if a < i {
                    assert(self.modules@[b] == old_mods[b - 1]);
                } else if a == i {
                    assert(self.modules@[b] == old_mods[b - 1]);
                } else {
                    assert(self.modules@[a] == old_mods[a - 1]);
                    assert(self.modules@[b] == old_mods[b - 1]);
                }
            }
        }
    }

    /// The decoders of the registered modules.
    pub fn decoders(&self) -> (r: ModuleDecoderRegistry)
        requires
            self.wf(),
        ensures
            r.wf(),
            r.view().dom() == self.module_ids().to_set(),
    {
        let mut reg = ModuleDecoderRegistry::new();
        let mut i: usize = 0;
        while i < self.modules.len()
            invariant
                self.wf(),
                i <= self.modules@.len(),
                reg.wf(),
                reg.view().dom() == self.module_ids().take(i as int).to_set(),
            decreases self.modules@.len() - i,
        {
            let ghost ids = self.module_ids();
            proof {
                assert(ids.take(i + 1) =~= ids.take(i as int).push(ids[i as int]));
                assert(!ids.take(i as int).contains(ids[i as int])) by {
                    if ids.take(i as int).contains(ids[i as int]) {
                        let j = choose|j: int| 0 <= j < i && ids.take(i as int)[j] == ids[i as int];
                        assert(self.modules@[j].0 < self.modules@[i as int].0);
                    }
                }
                assert(ids.take(i + 1).to_set() =~= ids.take(i as int).to_set().insert(ids[i as int])) by {
                    ids.take(i as int).lemma_push_to_set_commute(ids[i as int]);
                }
                assert(ids[i as int] == self.modules@[i as int].0);
            }
            reg.register(self.modules[i].0, self.modules[i].1.decoder());
            i += 1;
            proof {
                assert(reg.view().dom() =~= ids.take(i as int).to_set());
            }
        }
        assert(self.module_ids().take(self.modules@.len() as int) =~= self.module_ids());
        reg
    }

    /// A transaction over the whole store.
    pub fn database_transaction(&self) -> (r: DbTx<DbValue>)
        requires
            self.wf(),
        ensures
            r.wf(),
            r.view() == self.state(),
            r.snapshot() == self.state(),
            r.start() == self.db().version(),
            r.log() == Seq::<(Seq<u8>, Option<DbValue>)>::empty(),
            r.savepoint() is None,
    {
        self.db.begin_transaction()
    }
}

} // verus!

verus! {

/// The transaction was accepted or rejected.
pub open spec fn is_processed(s: Map<Seq<u8>, DbValue>, h: Seq<u8>) -> bool {
    s.contains_key(accepted_key(h)) || s.contains_key(rejected_key(h))
}

/// Exactly one record of the transaction is present: queued, accepted or
/// rejected.
pub open spec fn exactly_one_record(s: Map<Seq<u8>, DbValue>, h: Seq<u8>) -> bool {
    (if s.contains_key(proposed_key(h)) { 1int } else { 0int }) + (if s.contains_key(accepted_key(h)) {
        1int
    } else {
        0int
    }) + (if s.contains_key(rejected_key(h)) { 1int } else { 0int }) == 1
}

/// The transaction has left the queue of proposed ones and has a verdict.
pub open spec fn tx_decided(s: Map<Seq<u8>, DbValue>, h: Seq<u8>) -> bool {
    !s.contains_key(proposed_key(h)) && is_processed(s, h)
}

pub open spec fn is_tx_record_key(k: Seq<u8>) -> bool {
    k.len() > 0 && (k[0] == ACCEPTED_TRANSACTION_PREFIX || k[0] == REJECTED_TRANSACTION_PREFIX || k[0]
        == PROPOSED_TRANSACTION_PREFIX)
}

/// `a` and `b` agree on every key outside the modules' subspaces that is
/// not a transaction record.
pub open spec fn same_epoch_records<V>(a: Map<Seq<u8>, V>, b: Map<Seq<u8>, V>) -> bool {
    forall|k: Seq<u8>|
        outside_modules(k) && !is_tx_record_key(k) ==> (a.contains_key(k) == b.contains_key(k) && (
        a.contains_key(k) ==> a[k] == b[k]))
}

/// `a` and `b` agree on every transaction record.
pub open spec fn same_tx_records<V>(a: Map<Seq<u8>, V>, b: Map<Seq<u8>, V>) -> bool {
    forall|k: Seq<u8>|
        is_tx_record_key(k) ==> (a.contains_key(k) == b.contains_key(k) && (a.contains_key(k)
            ==> a[k] == b[k]))
}

/// Every transaction item of `cs` before position `(p, j)` is decided.
pub open spec fn decided_before(
    s: Map<Seq<u8>, DbValue>,
    cs: Seq<(u16, Seq<crate::epoch::ConsensusItemView>)>,
    p: int,
    j: int,
) -> bool {
    forall|a: int, b: int|
        0 <= a < cs.len() && 0 <= b < cs[a].1.len() && (a < p || (a == p && b < j)) && (
        #[trigger] cs[a].1[b]) is Transaction ==> tx_decided(
            s,
            tx_hash_of(cs[a].1[b]->Transaction_0),
        )
}

/// Every transaction item of `cs` before position `(p, j)` that has no
/// inputs and no outputs is accepted.
pub open spec fn empty_accepted_before(
    s: Map<Seq<u8>, DbValue>,
    cs: Seq<(u16, Seq<crate::epoch::ConsensusItemView>)>,
    p: int,
    j: int,
) -> bool {
    forall|a: int, b: int|
        0 <= a < cs.len() && 0 <= b < cs[a].1.len() && (a < p || (a == p && b < j)) && (
        #[trigger] cs[a].1[b]) is Transaction && cs[a].1[b]->Transaction_0.inputs.len() == 0
            && cs[a].1[b]->Transaction_0.outputs.len() == 0 ==> s.contains_key(
            accepted_key(tx_hash_of(cs[a].1[b]->Transaction_0)),
        )
}

/// Every transaction item of `cs` without inputs and outputs is accepted.
pub open spec fn empty_accepted(
    s: Map<Seq<u8>, DbValue>,
    cs: Seq<(u16, Seq<crate::epoch::ConsensusItemView>)>,
) -> bool {
    empty_accepted_before(s, cs, cs.len() as int, 0)
}

/// Every transaction item of `cs` is decided.
pub open spec fn all_decided(
    s: Map<Seq<u8>, DbValue>,
    cs: Seq<(u16, Seq<crate::epoch::ConsensusItemView>)>,
) -> bool {
    decided_before(s, cs, cs.len() as int, 0)
}

pub proof fn lemma_key_tags()
    ensures
        forall|h1: Seq<u8>, h2: Seq<u8>| #[trigger] accepted_key(h1) != #[trigger] proposed_key(h2),
        forall|h1: Seq<u8>, h2: Seq<u8>| #[trigger] rejected_key(h1) != #[trigger] proposed_key(h2),
        forall|h: Seq<u8>| is_tx_record_key(#[trigger] accepted_key(h)) && outside_modules(accepted_key(h)),
        forall|h: Seq<u8>| is_tx_record_key(#[trigger] rejected_key(h)) && outside_modules(rejected_key(h)),
        forall|h: Seq<u8>| is_tx_record_key(#[trigger] proposed_key(h)) && outside_modules(proposed_key(h)),
        forall|p: u16| !is_tx_record_key(#[trigger] drop_peer_key(p)) && outside_modules(drop_peer_key(p)),
        forall|n: u64| !is_tx_record_key(#[trigger] epoch_key(n)) && outside_modules(epoch_key(n)),
        !is_tx_record_key(last_epoch_key()) && outside_modules(last_epoch_key()),
{
    assert forall|h1: Seq<u8>, h2: Seq<u8>| #[trigger] accepted_key(h1) != #[trigger] proposed_key(h2) by {
        assert(accepted_key(h1)[0] != proposed_key(h2)[0]);
    }
    assert forall|h1: Seq<u8>, h2: Seq<u8>| #[trigger] rejected_key(h1) != #[trigger] proposed_key(h2) by {
        assert(rejected_key(h1)[0] != proposed_key(h2)[0]);
    }
    assert forall|h: Seq<u8>| is_tx_record_key(#[trigger] accepted_key(h)) && outside_modules(accepted_key(h)) by {
        assert(accepted_key(h)[0] == ACCEPTED_TRANSACTION_PREFIX);
    }
    assert forall|h: Seq<u8>| is_tx_record_key(#[trigger] rejected_key(h)) && outside_modules(rejected_key(h)) by {
        assert(rejected_key(h)[0] == REJECTED_TRANSACTION_PREFIX);
    }
    assert forall|h: Seq<u8>| is_tx_record_key(#[trigger] proposed_key(h)) && outside_modules(proposed_key(h)) by {
        assert(proposed_key(h)[0] == PROPOSED_TRANSACTION_PREFIX);
    }
    assert forall|p: u16| !is_tx_record_key(#[trigger] drop_peer_key(p)) && outside_modules(drop_peer_key(p)) by {
        assert(drop_peer_key(p)[0] == DROP_PEER_PREFIX);
    }
    assert forall|n: u64| !is_tx_record_key(#[trigger] epoch_key(n)) && outside_modules(epoch_key(n)) by {
        assert(epoch_key(n)[0] == EPOCH_HISTORY_PREFIX);
    }
    assert(last_epoch_key()[0] == LAST_EPOCH_PREFIX);
}

/// What a module answered for one input.
pub type InputResult = Result<InputMeta, ModuleError>;

/// What a module answered for one output.
pub type OutputResult = Result<TransactionItemAmount, ModuleError>;

/// The keys of the accepted inputs among `ins`, in order.
pub open spec fn keys_of(ins: Seq<InputResult>) -> Seq<Seq<u8>>
    decreases ins.len(),
{
    if ins.len() == 0 {
        Seq::empty()
    } else {
        keys_of(ins.drop_last()) + match ins.last() {
            Ok(m) => m.pub_keys@.map_values(|k: Vec<u8>| k@),
            Err(_) => Seq::empty(),
        }
    }
}

/// The sums of the amounts and of the fees of the accepted inputs.
pub open spec fn input_sums(ins: Seq<InputResult>) -> (int, int)
    decreases ins.len(),
{
    if ins.len() == 0 {
        (0, 0)
    } else {
        let p = input_sums(ins.drop_last());
        match ins.last() {
            Ok(m) => (p.0 + m.amount.amount, p.1 + m.amount.fee),
            Err(_) => p,
        }
    }
}

/// The sums of the amounts and of the fees of the accepted outputs.
pub open spec fn output_sums(outs: Seq<OutputResult>) -> (int, int)
    decreases outs.len(),
{
    if outs.len() == 0 {
        (0, 0)
    } else {
        let p = output_sums(outs.drop_last());
        match outs.last() {
            Ok(a) => (p.0 + a.amount, p.1 + a.fee),
            Err(_) => p,
        }
    }
}

/// Input `i` names a registered module, which accepted it.
pub open spec fn input_good(t: crate::transaction::TransactionView, ids: Seq<u16>, ins: Seq<InputResult>, i: int) -> bool {
    ids.contains(t.inputs[i].0) && i < ins.len() && ins[i] is Ok
}

/// Output `j` names a registered module, which accepted it.
pub open spec fn output_good(t: crate::transaction::TransactionView, ids: Seq<u16>, outs: Seq<OutputResult>, j: int) -> bool {
    ids.contains(t.outputs[j].0) && j < outs.len() && outs[j] is Ok
}

/// The first input from `i` on that is not good.
pub open spec fn first_bad_input(t: crate::transaction::TransactionView, ids: Seq<u16>, ins: Seq<InputResult>, i: int) -> Option<int>
    decreases t.inputs.len() - i,
{
    if i < 0 || i >= t.inputs.len() {
        None
    } else if !input_good(t, ids, ins, i) {
        Some(i)
    } else {
        first_bad_input(t, ids, ins, i + 1)
    }
}

/// The first output from `j` on that is not good.
pub open spec fn first_bad_output(t: crate::transaction::TransactionView, ids: Seq<u16>, outs: Seq<OutputResult>, j: int) -> Option<int>
    decreases t.outputs.len() - j,
{
    if j < 0 || j >= t.outputs.len() {
        None
    } else if !output_good(t, ids, outs, j) {
        Some(j)
    } else {
        first_bad_output(t, ids, outs, j + 1)
    }
}

/// Why input `i` failed: its module is not registered, or refused it.
pub open spec fn input_error(t: crate::transaction::TransactionView, h: TransactionId, ids: Seq<u16>, ins: Seq<InputResult>, i: int) -> TransactionSubmissionError {
    if ids.contains(t.inputs[i].0) && i < ins.len() && ins[i] is Err {
        TransactionSubmissionError::ModuleError(h, ins[i]->Err_0)
    } else {
        TransactionSubmissionError::UnknownModule(h, t.inputs[i].0)
    }
}

/// Why output `j` failed: its module is not registered, or refused it.
pub open spec fn output_error(t: crate::transaction::TransactionView, h: TransactionId, ids: Seq<u16>, outs: Seq<OutputResult>, j: int) -> TransactionSubmissionError {
    if ids.contains(t.outputs[j].0) && j < outs.len() && outs[j] is Err {
        TransactionSubmissionError::ModuleError(h, outs[j]->Err_0)
    } else {
        TransactionSubmissionError::UnknownModule(h, t.outputs[j].0)
    }
}

/// The verdict on transaction `t` (hash `h`), given the registered modules
/// `ids` and what the modules answered for its inputs and outputs: the
/// inputs in order, then the signature over their keys, then the outputs in
/// order, then the funding balance; the first step that fails gives the
/// error.
pub open spec fn transaction_verdict(
    t: crate::transaction::TransactionView,
    h: TransactionId,
    ids: Seq<u16>,
    ins: Seq<InputResult>,
    outs: Seq<OutputResult>,
) -> Result<(), TransactionSubmissionError> {
    match first_bad_input(t, ids, ins, 0) {
        Some(i) => Err(input_error(t, h, ids, ins, i)),
        None => match crate::transaction::signature_verdict(t, keys_of(ins)) {
            Err(e) => Err(TransactionSubmissionError::TransactionError(e)),
            Ok(()) => match first_bad_output(t, ids, outs, 0) {
                Some(j) => Err(output_error(t, h, ids, outs, j)),
                None => match crate::transaction::funding_verdict(
                    input_sums(ins).0,
                    output_sums(outs).0,
                    input_sums(ins).1 + output_sums(outs).1,
                ) {
                    Ok(()) => Ok(()),
                    Err(e) => Err(TransactionSubmissionError::TransactionError(e)),
                },
            },
        },
    }
}

proof fn lemma_first_bad_input(t: crate::transaction::TransactionView, ids: Seq<u16>, ins: Seq<InputResult>, k: int, i: int)
    requires
        0 <= k <= i <= t.inputs.len(),
        forall|j: int| k <= j < i ==> input_good(t, ids, ins, j),
    ensures
        first_bad_input(t, ids, ins, k) == first_bad_input(t, ids, ins, i),
    decreases i - k,
{
    if k < i {
        lemma_first_bad_input(t, ids, ins, k + 1, i);
    }
}

proof fn lemma_first_bad_output(t: crate::transaction::TransactionView, ids: Seq<u16>, outs: Seq<OutputResult>, k: int, j: int)
    requires
        0 <= k <= j <= t.outputs.len(),
        forall|x: int| k <= x < j ==> output_good(t, ids, outs, x),
    ensures
        first_bad_output(t, ids, outs, k) == first_bad_output(t, ids, outs, j),
    decreases j - k,
{
    if k < j {
        lemma_first_bad_output(t, ids, outs, k + 1, j);
    }
}

/// A transaction without inputs and outputs is accepted, whatever the
/// modules: there is nothing to refuse, no key to sign for, no amount.
pub proof fn lemma_empty_transaction_accepted(
    t: crate::transaction::TransactionView,
    h: TransactionId,
    ids: Seq<u16>,
    ins: Seq<InputResult>,
    outs: Seq<OutputResult>,
)
    requires
        t.inputs.len() == 0,
        t.outputs.len() == 0,
        ins.len() == 0,
        outs.len() == 0,
    ensures
        transaction_verdict(t, h, ids, ins, outs) == Ok::<(), TransactionSubmissionError>(()),
{
}

/// A transaction whose first input names an unregistered module is
/// refused with `UnknownModule`, whatever the modules answer.
pub proof fn lemma_unregistered_first_input(
    t: crate::transaction::TransactionView,
    h: TransactionId,
    ids: Seq<u16>,
    ins: Seq<InputResult>,
    outs: Seq<OutputResult>,
)
    requires
        t.inputs.len() > 0,
        !ids.contains(t.inputs[0].0),
    ensures
        transaction_verdict(t, h, ids, ins, outs) == Err::<(), TransactionSubmissionError>(
            TransactionSubmissionError::UnknownModule(h, t.inputs[0].0),
        ),
{
}

/// A transaction without inputs whose first output names an unregistered
/// module is refused with `UnknownModule`, whatever the modules answer.
pub proof fn lemma_unregistered_first_output(
    t: crate::transaction::TransactionView,
    h: TransactionId,
    ids: Seq<u16>,
    ins: Seq<InputResult>,
    outs: Seq<OutputResult>,
)
    requires
        t.inputs.len() == 0,
        ins.len() == 0,
        t.outputs.len() > 0,
        !ids.contains(t.outputs[0].0),
    ensures
        transaction_verdict(t, h, ids, ins, outs) == Err::<(), TransactionSubmissionError>(
            TransactionSubmissionError::UnknownModule(h, t.outputs[0].0),
        ),
{
}

proof fn lemma_no_bad_input(t: crate::transaction::TransactionView, ids: Seq<u16>, ins: Seq<InputResult>, k: int)
    requires
        0 <= k <= t.inputs.len(),
        first_bad_input(t, ids, ins, k) is None,
    ensures
        forall|i: int| k <= i < t.inputs.len() ==> input_good(t, ids, ins, i),
    decreases t.inputs.len() - k,
{
    if k < t.inputs.len() {
        lemma_no_bad_input(t, ids, ins, k + 1);
    }
}

proof fn lemma_no_bad_output(t: crate::transaction::TransactionView, ids: Seq<u16>, outs: Seq<OutputResult>, k: int)
    requires
        0 <= k <= t.outputs.len(),
        first_bad_output(t, ids, outs, k) is None,
    ensures
        forall|j: int| k <= j < t.outputs.len() ==> output_good(t, ids, outs, j),
    decreases t.outputs.len() - k,
{
    if k < t.outputs.len() {
        lemma_no_bad_output(t, ids, outs, k + 1);
    }
}

/// A transaction is accepted only if every input and output names a
/// registered module that accepted it.
pub proof fn lemma_accepted_modules_registered(
    t: crate::transaction::TransactionView,
    h: TransactionId,
    ids: Seq<u16>,
    ins: Seq<InputResult>,
    outs: Seq<OutputResult>,
)
    requires
        transaction_verdict(t, h, ids, ins, outs) is Ok,
    ensures
        forall|i: int| 0 <= i < t.inputs.len() ==> ids.contains(#[trigger] t.inputs[i].0) && ins[i] is Ok,
        forall|j: int| 0 <= j < t.outputs.len() ==> ids.contains(#[trigger] t.outputs[j].0) && outs[j] is Ok,
{
    lemma_no_bad_input(t, ids, ins, 0);
    lemma_no_bad_output(t, ids, outs, 0);
    assert forall|i: int| 0 <= i < t.inputs.len() implies ids.contains(#[trigger] t.inputs[i].0) && ins[i] is Ok by {
        assert(input_good(t, ids, ins, i));
    }
    assert forall|j: int| 0 <= j < t.outputs.len() implies ids.contains(#[trigger] t.outputs[j].0) && outs[j] is Ok by {
        assert(output_good(t, ids, outs, j));
    }
}

/// The errors that the transaction checks can give for `t`: a signature
/// verdict for some keys, or a funding verdict for some totals.
pub open spec fn is_check_error(t: crate::transaction::TransactionView, e: TransactionError) -> bool {
    (exists|keys: Seq<Seq<u8>>| crate::transaction::signature_verdict(t, keys) == Err::<(), TransactionError>(e))
        || (exists|i: int, o: int, f: int| crate::transaction::funding_verdict(i, o, f) == Err::<(), TransactionError>(e))
}

/// What a submission or application error says of transaction `h` and the
/// registered modules `ids`.
pub open spec fn error_fits(r: Result<(), TransactionSubmissionError>, t: crate::transaction::TransactionView, ids: Seq<u16>) -> bool {
    match r {
        Ok(()) => true,
        Err(TransactionSubmissionError::TransactionError(e)) => is_check_error(t, e),
        Err(TransactionSubmissionError::ModuleError(h, _)) => h@ == tx_hash_of(t),
        Err(TransactionSubmissionError::UnknownModule(h, id)) => h@ == tx_hash_of(t) && !ids.contains(id),
        Err(TransactionSubmissionError::TransactionConflictError) => false,
    }
}

/// The inputs of one transaction input's verification cache: that input.
pub fn single_input(input: &DynInput) -> (r: Vec<DynInput>)
    ensures
        r@.len() == 1,
        r@[0]@ == input@,
{
    let mut v: Vec<DynInput> = Vec::new();
    v.push(input.copy());
    v
}

/// The out point of output `idx` of transaction `txid`.
pub fn out_point_of(txid: &TransactionId, idx: usize) -> (r: OutPoint)
    ensures
        r.txid == *txid,
        r.out_idx == idx as u64,
{
    OutPoint { txid: *txid, out_idx: idx as u64 }
}

/// Submitting a transaction a second time, after the first submission
/// queued it, leaves the store as the first submission left it: one record.
pub proof fn lemma_resubmission_keeps_state(
    queued: Map<Seq<u8>, DbValue>,
    again: Map<Seq<u8>, DbValue>,
    t: Transaction,
)
    requires
        ({
            let k = proposed_key(tx_hash_of(t@));
            &&& queued.contains_key(k)
            &&& queued[k] is Proposed
            &&& queued[k]->Proposed_0 == t
            &&& again.contains_key(k)
            &&& again[k] is Proposed
            &&& again[k]->Proposed_0 == t
            &&& again == queued.insert(k, again[k])
        }),
    ensures
        again == queued,
{
    let k = proposed_key(tx_hash_of(t@));
    assert(again[k] == queued[k]);
    assert(again =~= queued);
}

impl<M: ServerModule> FedimintConsensus<M> {
    /// Validates a transaction against the committed state and queues it
    /// for consensus. A transaction that already has a verdict is not
    /// looked at again.
    pub fn submit_transaction(&mut self, transaction: Transaction) -> (r: Result<(), TransactionSubmissionError>)
        requires
            old(self).wf(),
            old(self).db().version() < u64::MAX,
        ensures
            final(self).wf(),
            final(self).module_ids() == old(self).module_ids(),
            is_processed(old(self).state(), tx_hash_of(transaction@)) ==> r.is_ok() && final(self).db()
                == old(self).db(),
            r.is_err() ==> final(self).db() == old(self).db(),
            r.is_ok() && !is_processed(old(self).state(), tx_hash_of(transaction@)) ==> ({
                let k = proposed_key(tx_hash_of(transaction@));
                &&& final(self).state().contains_key(k)
                &&& final(self).state()[k] is Proposed
                &&& final(self).state()[k]->Proposed_0 == transaction
                &&& final(self).state() == old(self).state().insert(k, final(self).state()[k])
                &&& exactly_one_record(final(self).state(), tx_hash_of(transaction@))
            }),
            error_fits(r, transaction@, old(self).module_ids()),
            !is_processed(old(self).state(), tx_hash_of(transaction@)) ==> verdict_for_view(
                transaction@,
                old(self).module_ids(),
                r,
            ),
            r is Ok && !is_processed(old(self).state(), tx_hash_of(transaction@)) ==> final(self).db().version()
                == old(self).db().version() + 1,
            !is_processed(old(self).state(), tx_hash_of(transaction@)) && transaction.inputs@.len() == 0
                && transaction.outputs@.len() == 0 ==> r is Ok,
            !is_processed(old(self).state(), tx_hash_of(transaction@)) && transaction.inputs@.len() == 0
                && transaction.outputs@.len() > 0 && !old(self).module_ids().contains(
                transaction.outputs@[0].module_instance_id,
            ) ==> r is Err && r->Err_0 is UnknownModule && r->Err_0->UnknownModule_1
                == transaction.outputs@[0].module_instance_id,
            !is_processed(old(self).state(), tx_hash_of(transaction@)) && transaction.inputs@.len() > 0
                && !old(self).module_ids().contains(transaction.inputs@[0].module_instance_id) ==> r is Err
                && r->Err_0 is UnknownModule && r->Err_0->UnknownModule_1
                == transaction.inputs@[0].module_instance_id,
    {
        let tx_hash = transaction.tx_hash();
        let ak = accepted_transaction_key(&tx_hash);
        let rk = rejected_transaction_key(&tx_hash);
        if self.db.get(ak.as_slice()).is_some() || self.db.get(rk.as_slice()).is_some() {
            return Ok(());
        }
        assert(!is_processed(old(self).state(), tx_hash_of(transaction@)));
        let mut dbtx = self.db.begin_transaction();
        let (res, answers) = self.validate_transaction(&dbtx, &transaction, &tx_hash);
        proof {
            assert(verdict_for_view(transaction@, old(self).module_ids(), res)) by {
                assert(res == transaction_verdict(transaction@, tx_hash, self.module_ids(), answers@.0, answers@.1));
            }
        }
        match res {
            Err(e) => {
                return Err(e);
            },
            Ok(()) => {},
        }
        let pk = proposed_transaction_key(&tx_hash);
        let value = Rc::new(DbValue::Proposed(Rc::new(transaction)));
        let ghost v = crate::kv::spec_deref(&value);
        dbtx.insert_bytes(pk.as_slice(), value);
        let ghost old_state = self.state();
        proof {
            self.db.lemma_wf();
            let log = dbtx.log();
            assert(log =~= Seq::<(Seq<u8>, Option<DbValue>)>::empty().push((pk@, Some(v))));
            assert(log.drop_last() =~= Seq::<(Seq<u8>, Option<DbValue>)>::empty());
            assert(apply_writes(old_state, log.drop_last()) == old_state);
            assert(apply_writes(old_state, log) == old_state.insert(pk@, v));
            assert(!conflicts(self.db().written(), dbtx.start(), log));
        }
        match dbtx.commit(&mut self.db) {
            Ok(()) => {
                assert(self.state() == old_state.insert(pk@, v));
                proof {
                    lemma_key_tags();
                    assert(accepted_key(tx_hash@) != pk@);
                    assert(rejected_key(tx_hash@) != pk@);
                }
                Ok(())
            },
            Err(_) => Err(TransactionSubmissionError::TransactionConflictError),
        }
    }

    /// Stores this guardian's signed API announcement, unless one is stored
    /// already. The announcement is signed by the caller, which holds the
    /// key. Returns whether it was stored.
    pub fn sign_api_announcement_if_not_present(&mut self, identity: u16, signed_announcement: Vec<u8>) -> (r: bool)
        requires
            old(self).wf(),
            old(self).db().version() < u64::MAX,
        ensures
            final(self).wf(),
            final(self).module_ids() == old(self).module_ids(),
            r == !old(self).state().contains_key(crate::records::announcement_key_bytes(identity)),
            r ==> final(self).db().version() == old(self).db().version() + 1,
            !r ==> final(self).db() == old(self).db(),
            r ==> final(self).state() == old(self).state().insert(
                crate::records::announcement_key_bytes(identity),
                DbValue::Bytes(signed_announcement),
            ),
    {
        let key = crate::records::AnnouncementKey(identity).to_bytes();
        if self.db.get(key.as_slice()).is_some() {
            return false;
        }
        let mut dbtx = self.db.begin_transaction();
        let value = Rc::new(DbValue::Bytes(signed_announcement));
        let ghost v = crate::kv::spec_deref(&value);
        dbtx.insert_bytes(key.as_slice(), value);
        let ghost old_state = self.state();
        proof {
            self.db.lemma_wf();
            let log = dbtx.log();
            assert(log =~= Seq::<(Seq<u8>, Option<DbValue>)>::empty().push((key@, Some(v))));
            assert(log.drop_last() =~= Seq::<(Seq<u8>, Option<DbValue>)>::empty());
            assert(apply_writes(old_state, log.drop_last()) == old_state);
            assert(!conflicts(self.db().written(), dbtx.start(), log));
        }
        let committed = dbtx.commit(&mut self.db);
        assert(committed.is_ok());
        true
    }

    /// Applies one transaction: its inputs, the signature check, its
    /// outputs, and the funding check. Modules write only their own
    /// subspaces; the caller rolls back on failure.
    /// Checks a transaction against `dbtx` without changing it: the inputs
    /// in order (each with a cache of its own), the signature, the outputs,
    /// the funding. Returns the verdict, and the modules' answers it rests
    /// on.
    fn validate_transaction(
        &self,
        dbtx: &DbTx<DbValue>,
        transaction: &Transaction,
        tx_hash: &TransactionId,
    ) -> (r: (Result<(), TransactionSubmissionError>, Ghost<(Seq<InputResult>, Seq<OutputResult>)>))
        requires
            dbtx.wf(),
            tx_hash@ == tx_hash_of(transaction@),
        ensures
            r.0 == transaction_verdict(transaction@, *tx_hash, self.module_ids(), r.1@.0, r.1@.1),
            r.1@.0.len() <= transaction.inputs@.len(),
            r.1@.1.len() <= transaction.outputs@.len(),
            error_fits(r.0, transaction@, self.module_ids()),
            transaction.inputs@.len() == 0 && transaction.outputs@.len() == 0 ==> r.0 is Ok,
    {
        let ghost t = transaction@;
        let ghost ids = self.module_ids();
        let ghost mut ins: Seq<InputResult> = Seq::empty();
        let ghost mut outs: Seq<OutputResult> = Seq::empty();
        let mut funding = FundingVerifier::new();
        let mut pub_keys: Vec<Vec<u8>> = Vec::new();
        let mut i: usize = 0;
        while i < transaction.inputs.len()
            invariant
                dbtx.wf(),
                funding.wf(),
                tx_hash@ == tx_hash_of(transaction@),
                t == transaction@,
                ids == self.module_ids(),
                outs.len() == 0,
                i <= transaction.inputs@.len(),
                ins.len() == i,
                forall|j: int| 0 <= j < i ==> input_good(t, ids, ins, j),
                pub_keys@.map_values(|k: Vec<u8>| k@) == keys_of(ins),
                funding.total_in() == input_sums(ins).0,
                funding.total_fee() == input_sums(ins).1,
                funding.total_out() == 0,
            decreases transaction.inputs@.len() - i,
        {
            let input = &transaction.inputs[i];
            let id = input.module_instance_id;
            assert(t.inputs[i as int].0 == id);
            let idx = match self.module_index(id) {
                None => {
                    proof {
                        lemma_first_bad_input(t, ids, ins, 0, i as int);
                    }
                    return (Err(TransactionSubmissionError::UnknownModule(*tx_hash, id)), Ghost((ins, outs)));
                },
                Some(idx) => idx,
            };
            let module = &self.modules[idx].1;
            let cache = module.build_verification_cache(&single_input(input));
            let prefix = module_db_prefix(id);
            let view = dbtx.module_view(prefix.as_slice());
            let res = {
                let interconnect = FedimintInterconnect { modules: &self.modules, dbtx };
                module.validate_input(&interconnect, &view, &cache, input)
            };
            let ghost old_ins = ins;
            proof {
                ins = ins.push(crate::kv::spec_deref_ref(&res));
                assert forall|j: int| 0 <= j < i implies input_good(t, ids, ins, j) by {
                    assert(input_good(t, ids, old_ins, j));
                    assert(ins[j] == old_ins[j]);
                }
                assert(ins.drop_last() =~= old_ins);
            }
            match res {
                Err(e) => {
                    proof {
                        lemma_first_bad_input(t, ids, ins, 0, i as int);
                    }
                    return (Err(TransactionSubmissionError::ModuleError(*tx_hash, e)), Ghost((ins, outs)));
                },
                Ok(meta) => {
                    let ghost old_keys = pub_keys@;
                    let mut keys = meta.pub_keys;
                    let ghost kview = keys@;
                    pub_keys.append(&mut keys);
                    proof {
                        assert(pub_keys@ == old_keys + kview);
                        assert(pub_keys@.map_values(|k: Vec<u8>| k@) =~= old_keys.map_values(|k: Vec<u8>| k@)
                            + kview.map_values(|k: Vec<u8>| k@));
                    }
                    funding.add_input(meta.amount);
                },
            }
            i += 1;
        }
        proof {
            lemma_first_bad_input(t, ids, ins, 0, t.inputs.len() as int);
        }
        match transaction.validate_signature(&pub_keys) {
            Err(e) => {
                return (Err(TransactionSubmissionError::TransactionError(e)), Ghost((ins, outs)));
            },
            Ok(()) => {},
        }
        let mut i: usize = 0;
        while i < transaction.outputs.len()
            invariant
                dbtx.wf(),
                funding.wf(),
                tx_hash@ == tx_hash_of(transaction@),
                t == transaction@,
                ids == self.module_ids(),
                first_bad_input(t, ids, ins, 0) is None,
                ins.len() == transaction.inputs@.len(),
                crate::transaction::signature_verdict(t, keys_of(ins)) is Ok,
                i <= transaction.outputs@.len(),
                outs.len() == i,
                forall|j: int| 0 <= j < i ==> output_good(t, ids, outs, j),
                funding.total_in() == input_sums(ins).0,
                funding.total_out() == output_sums(outs).0,
                funding.total_fee() == input_sums(ins).1 + output_sums(outs).1,
            decreases transaction.outputs@.len() - i,
        {
            let output = &transaction.outputs[i];
            let id = output.module_instance_id;
            assert(t.outputs[i as int].0 == id);
            let idx = match self.module_index(id) {
                None => {
                    proof {
                        lemma_first_bad_output(t, ids, outs, 0, i as int);
                    }
                    return (Err(TransactionSubmissionError::UnknownModule(*tx_hash, id)), Ghost((ins, outs)));
                },
                Some(idx) => idx,
            };
            let prefix = module_db_prefix(id);
            let view = dbtx.module_view(prefix.as_slice());
            let res = self.modules[idx].1.validate_output(&view, output);
            let ghost old_outs = outs;
            proof {
                outs = outs.push(crate::kv::spec_deref_ref(&res));
                assert forall|j: int| 0 <= j < i implies output_good(t, ids, outs, j) by {
                    assert(output_good(t, ids, old_outs, j));
                    assert(outs[j] == old_outs[j]);
                }
                assert(outs.drop_last() =~= old_outs);
            }
            match res {
                Err(e) => {
                    proof {
                        lemma_first_bad_output(t, ids, outs, 0, i as int);
                    }
                    return (Err(TransactionSubmissionError::ModuleError(*tx_hash, e)), Ghost((ins, outs)));
                },
                Ok(amount) => {
                    funding.add_output(amount);
                },
            }
            i += 1;
        }
        proof {
            lemma_first_bad_output(t, ids, outs, 0, t.outputs.len() as int);
        }
        let ghost totals = (funding.total_in(), funding.total_out(), funding.total_fee());
        match funding.verify_funding() {
            Err(e) => {
                assert(crate::transaction::funding_verdict(totals.0, totals.1, totals.2) == Err::<(), TransactionError>(e));
                (Err(TransactionSubmissionError::TransactionError(e)), Ghost((ins, outs)))
            },
            Ok(()) => (Ok(()), Ghost((ins, outs))),
        }
    }

    fn process_transaction(
        &self,
        dbtx: &mut DbTx<DbValue>,
        transaction: &Transaction,
        tx_hash: &TransactionId,
        caches: &Vec<M::VerificationCache>,
    ) -> (r: (Result<(), TransactionSubmissionError>, Ghost<(Seq<InputResult>, Seq<OutputResult>)>))
        requires
            old(dbtx).wf(),
            caches@.len() == self.modules@.len(),
            tx_hash@ == tx_hash_of(transaction@),
        ensures
            r.0 == transaction_verdict(transaction@, *tx_hash, self.module_ids(), r.1@.0, r.1@.1),
            r.1@.0.len() <= transaction.inputs@.len(),
            r.1@.1.len() <= transaction.outputs@.len(),
            error_fits(r.0, transaction@, self.module_ids()),
            transaction.inputs@.len() == 0 && transaction.outputs@.len() == 0 ==> r.0 is Ok,
            final(dbtx).wf(),
            same_core(old(dbtx).view(), final(dbtx).view()),
            final(dbtx).savepoint() == old(dbtx).savepoint(),
            final(dbtx).start() == old(dbtx).start(),
            final(dbtx).snapshot() == old(dbtx).snapshot(),
    {
        let ghost v0 = dbtx.view();
        let ghost t = transaction@;
        let ghost ids = self.module_ids();
        let ghost mut ins: Seq<InputResult> = Seq::empty();
        let ghost mut outs: Seq<OutputResult> = Seq::empty();
        let mut funding = FundingVerifier::new();
        let mut pub_keys: Vec<Vec<u8>> = Vec::new();
        let mut i: usize = 0;
        while i < transaction.inputs.len()
            invariant
                dbtx.wf(),
                v0 == old(dbtx).view(),
                same_core(v0, dbtx.view()),
                dbtx.savepoint() == old(dbtx).savepoint(),
                dbtx.start() == old(dbtx).start(),
                dbtx.snapshot() == old(dbtx).snapshot(),
                caches@.len() == self.modules@.len(),
                funding.wf(),
                tx_hash@ == tx_hash_of(transaction@),
                t == transaction@,
                ids == self.module_ids(),
                outs.len() == 0,
                i <= transaction.inputs@.len(),
                ins.len() == i,
                forall|j: int| 0 <= j < i ==> input_good(t, ids, ins, j),
                pub_keys@.map_values(|k: Vec<u8>| k@) == keys_of(ins),
                funding.total_in() == input_sums(ins).0,
                funding.total_fee() == input_sums(ins).1,
                funding.total_out() == 0,
            decreases transaction.inputs@.len() - i,
        {
            let input = &transaction.inputs[i];
            let id = input.module_instance_id;
            assert(t.inputs[i as int].0 == id);
            let idx = match self.module_index(id) {
                None => {
                    proof {
                        lemma_first_bad_input(t, ids, ins, 0, i as int);
                    }
                    return (Err(TransactionSubmissionError::UnknownModule(*tx_hash, id)), Ghost((ins, outs)));
                },
                Some(idx) => idx,
            };
            let prefix = module_db_prefix(id);
            let mut sub = dbtx.module_view(prefix.as_slice());
            let res = {
                let interconnect = FedimintInterconnect { modules: &self.modules, dbtx: &*dbtx };
                self.modules[idx].1.apply_input(&interconnect, &mut sub, input, &caches[idx])
            };
            let ghost old_ins = ins;
            proof {
                ins = ins.push(crate::kv::spec_deref_ref(&res));
                assert forall|j: int| 0 <= j < i implies input_good(t, ids, ins, j) by {
                    assert(input_good(t, ids, old_ins, j));
                    assert(ins[j] == old_ins[j]);
                }
                assert(ins.drop_last() =~= old_ins);
            }
            let ghost before = dbtx.view();
            dbtx.apply_module_writes(prefix.as_slice(), &sub);
            proof {
                lemma_module_writes_keep_core(v0, before, dbtx.view(), id);
            }
            match res {
                Err(e) => {
                    proof {
                        lemma_first_bad_input(t, ids, ins, 0, i as int);
                    }
                    return (Err(TransactionSubmissionError::ModuleError(*tx_hash, e)), Ghost((ins, outs)));
                },
                Ok(meta) => {
                    let ghost old_keys = pub_keys@;
                    let mut keys = meta.pub_keys;
                    let ghost kview = keys@;
                    pub_keys.append(&mut keys);
                    proof {
                        assert(pub_keys@ == old_keys + kview);
                        assert(pub_keys@.map_values(|k: Vec<u8>| k@) =~= old_keys.map_values(|k: Vec<u8>| k@)
                            + kview.map_values(|k: Vec<u8>| k@));
                    }
                    funding.add_input(meta.amount);
                },
            }
            i += 1;
        }
        proof {
            lemma_first_bad_input(t, ids, ins, 0, t.inputs.len() as int);
        }
        match transaction.validate_signature(&pub_keys) {
            Err(e) => {
                return (Err(TransactionSubmissionError::TransactionError(e)), Ghost((ins, outs)));
            },
            Ok(()) => {},
        }
        let mut i: usize = 0;
        while i < transaction.outputs.len()
            invariant
                dbtx.wf(),
                v0 == old(dbtx).view(),
                same_core(v0, dbtx.view()),
                dbtx.savepoint() == old(dbtx).savepoint(),
                dbtx.start() == old(dbtx).start(),
                dbtx.snapshot() == old(dbtx).snapshot(),
                funding.wf(),
                tx_hash@ == tx_hash_of(transaction@),
                t == transaction@,
                ids == self.module_ids(),
                first_bad_input(t, ids, ins, 0) is None,
                ins.len() == transaction.inputs@.len(),
                crate::transaction::signature_verdict(t, keys_of(ins)) is Ok,
                i <= transaction.outputs@.len(),
                outs.len() == i,
                forall|j: int| 0 <= j < i ==> output_good(t, ids, outs, j),
                funding.total_in() == input_sums(ins).0,
                funding.total_out() == output_sums(outs).0,
                funding.total_fee() == input_sums(ins).1 + output_sums(outs).1,
            decreases transaction.outputs@.len() - i,
        {
            let output = &transaction.outputs[i];
            let id = output.module_instance_id;
            assert(t.outputs[i as int].0 == id);
            let idx = match self.module_index(id) {
                None => {
                    proof {
                        lemma_first_bad_output(t, ids, outs, 0, i as int);
                    }
                    return (Err(TransactionSubmissionError::UnknownModule(*tx_hash, id)), Ghost((ins, outs)));
                },
                Some(idx) => idx,
            };
            let prefix = module_db_prefix(id);
            let mut sub = dbtx.module_view(prefix.as_slice());
            let out_point = out_point_of(tx_hash, i);
            let res = self.modules[idx].1.apply_output(&mut sub, output, out_point);
            let ghost old_outs = outs;
            proof {
                outs = outs.push(crate::kv::spec_deref_ref(&res));
                assert forall|j: int| 0 <= j < i implies output_good(t, ids, outs, j) by {
                    assert(output_good(t, ids, old_outs, j));
                    assert(outs[j] == old_outs[j]);
                }
                assert(outs.drop_last() =~= old_outs);
            }
            let ghost before = dbtx.view();
            dbtx.apply_module_writes(prefix.as_slice(), &sub);
            proof {
                lemma_module_writes_keep_core(v0, before, dbtx.view(), id);
            }
            match res {
                Err(e) => {
                    proof {
                        lemma_first_bad_output(t, ids, outs, 0, i as int);
                    }
                    return (Err(TransactionSubmissionError::ModuleError(*tx_hash, e)), Ghost((ins, outs)));
                },
                Ok(amount) => {
                    funding.add_output(amount);
                },
            }
            i += 1;
        }
        proof {
            lemma_first_bad_output(t, ids, outs, 0, t.outputs.len() as int);
        }
        let ghost totals = (funding.total_in(), funding.total_out(), funding.total_fee());
        match funding.verify_funding() {
            Err(e) => {
                assert(crate::transaction::funding_verdict(totals.0, totals.1, totals.2) == Err::<(), TransactionError>(e));
                (Err(TransactionSubmissionError::TransactionError(e)), Ghost((ins, outs)))
            },
            Ok(()) => (Ok(()), Ghost((ins, outs))),
        }
    }
}

} // verus!

verus! {

/// Every decision in `a` is still there in `b`.
pub open spec fn decisions_kept(a: Map<Seq<u8>, DbValue>, b: Map<Seq<u8>, DbValue>) -> bool {
    forall|h: Seq<u8>| tx_decided(a, h) ==> #[trigger] tx_decided(b, h)
}

proof fn lemma_same_core_keeps_records(a: Map<Seq<u8>, DbValue>, b: Map<Seq<u8>, DbValue>)
    requires
        same_core(a, b),
    ensures
        decisions_kept(a, b),
        same_epoch_records(a, b),
        same_tx_records(a, b),
{
    lemma_key_tags();
    assert forall|k: Seq<u8>| is_tx_record_key(k) implies outside_modules(k) by {}
}

proof fn lemma_remove_proposed_keeps(s: Map<Seq<u8>, DbValue>, h0: Seq<u8>)
    ensures
        decisions_kept(s, s.remove(proposed_key(h0))),
        same_epoch_records(s, s.remove(proposed_key(h0))),
{
    lemma_key_tags();
}

proof fn lemma_insert_verdict_keeps(s: Map<Seq<u8>, DbValue>, k: Seq<u8>, v: DbValue)
    requires
        k[0] == ACCEPTED_TRANSACTION_PREFIX || k[0] == REJECTED_TRANSACTION_PREFIX,
        k.len() > 0,
    ensures
        decisions_kept(s, s.insert(k, v)),
        same_epoch_records(s, s.insert(k, v)),
{
    lemma_key_tags();
    assert forall|h: Seq<u8>| k != proposed_key(h) by {
        assert(proposed_key(h)[0] == PROPOSED_TRANSACTION_PREFIX);
    }
}

proof fn lemma_decided_step(
    a: Map<Seq<u8>, DbValue>,
    b: Map<Seq<u8>, DbValue>,
    cs: Seq<(u16, Seq<crate::epoch::ConsensusItemView>)>,
    p: int,
    j: int,
)
    requires
        0 <= p < cs.len(),
        0 <= j < cs[p].1.len(),
        decided_before(a, cs, p, j),
        decisions_kept(a, b),
        cs[p].1[j] is Transaction ==> tx_decided(b, tx_hash_of(cs[p].1[j]->Transaction_0)),
    ensures
        decided_before(b, cs, p, j + 1),
{
}

/// The peers' threshold signature on the previous epoch, as combined from
/// the shares of this epoch's contributions.
#[derive(Debug)]
pub enum EpochSignatureOutcome {
    /// Enough valid shares: the combined signature, and the peers whose
    /// shares were valid.
    Signed(Vec<u8>, Vec<u16>),
    /// Too few valid shares: the peers whose shares were valid.
    NotEnoughValidShares(Vec<u16>),
}

/// Why an epoch could not be completed.
#[derive(Debug, Clone, Copy, PartialEq, Eq, Structural)]
pub enum EpochError {
    /// The federation's balance sheet went negative.
    NegativeBalanceSheet(i128),
    /// The balance sheet does not fit in 128 bits.
    AuditOverflow,
}

/// What the balance sheet says of an epoch.
pub open spec fn audit_verdict(items: Seq<AuditItem>) -> Result<(), EpochError> {
    if !audit_fits(items) {
        Err(EpochError::AuditOverflow)
    } else if audit_total(items) < 0 {
        Err(EpochError::NegativeBalanceSheet(audit_total(items) as i128))
    } else {
        Ok(())
    }
}

/// An epoch completes only on a balance sheet whose sum is not negative.
pub proof fn lemma_completed_epoch_balance(items: Seq<AuditItem>)
    requires
        audit_verdict(items) is Ok,
    ensures
        audit_fits(items),
        audit_total(items) >= 0,
{
}

/// Fails when the balance sheet is negative: the federation would owe more
/// than it holds.
pub fn check_balance_sheet(audit: &Audit) -> (r: Result<(), EpochError>)
    ensures
        r == audit_verdict(audit.items@),
        r is Err ==> r == Err::<(), EpochError>(EpochError::AuditOverflow) || (r->Err_0 is NegativeBalanceSheet
            && r->Err_0->NegativeBalanceSheet_0 < 0),
{
    match audit.sum() {
        None => Err(EpochError::AuditOverflow),
        Some(total) => {
            if total < 0 {
                Err(EpochError::NegativeBalanceSheet(total))
            } else {
                Ok(())
            }
        },
    }
}

/// `v` is the verdict on `t` for some answers of the modules: what
/// `transaction_verdict` gives, with `t`'s hash, for the registered modules
/// `ids`.
pub open spec fn verdict_for(t: Rc<Transaction>, ids: Seq<u16>, v: Result<(), TransactionSubmissionError>) -> bool {
    verdict_for_view((*t)@, ids, v)
}

/// `v` is the verdict on the transaction `t` for some answers of the
/// modules, at most one per input and per output.
pub open spec fn verdict_for_view(
    t: crate::transaction::TransactionView,
    ids: Seq<u16>,
    v: Result<(), TransactionSubmissionError>,
) -> bool {
    exists|h: TransactionId, ins: Seq<InputResult>, outs: Seq<OutputResult>|
        h@ == tx_hash_of(t) && ins.len() <= t.inputs.len() && outs.len() <= t.outputs.len() && v
            == #[trigger] transaction_verdict(t, h, ids, ins, outs)
}

/// `a` and `b` agree outside the modules' subspaces, but maybe on `x` and `y`.
pub open spec fn same_core_except(a: Map<Seq<u8>, DbValue>, b: Map<Seq<u8>, DbValue>, x: Seq<u8>, y: Seq<u8>) -> bool {
    forall|k: Seq<u8>|
        outside_modules(k) && k != x && k != y ==> (a.contains_key(k) == b.contains_key(k) && (a.contains_key(k)
            ==> a[k] == b[k]))
}

/// What deciding transaction `t` in epoch `epoch`, with verdict `v`, does
/// to the state `sa`, giving `s`: it leaves the queue; if accepted before,
/// nothing else; otherwise, on an error, it is rejected with the message
/// of that error and nothing else changes (the writes of its modules are
/// undone); on success it is accepted with `{epoch, t}`, any rejected
/// record of it goes, and besides only module subspaces change.
pub open spec fn decided_shape(
    sa: Map<Seq<u8>, DbValue>,
    s: Map<Seq<u8>, DbValue>,
    t: Rc<Transaction>,
    epoch: u64,
    v: Result<(), TransactionSubmissionError>,
) -> bool {
    let h = tx_hash_of((*t)@);
    let s1 = sa.remove(proposed_key(h));
    let ak = accepted_key(h);
    let rk = rejected_key(h);
    &&& s1.contains_key(ak) ==> s == s1
    &&& (!s1.contains_key(ak) && v is Err) ==> s == s1.insert(rk, s[rk]) && s[rk] is Rejected
        && s[rk]->Rejected_0@ == submission_error_text(v->Err_0)
    &&& (!s1.contains_key(ak) && v is Ok) ==> s.contains_key(ak) && s[ak] == DbValue::Accepted(
        AcceptedTransaction { epoch, transaction: t },
    ) && !s.contains_key(rk) && same_core_except(s1, s, ak, rk)
}

/// `t` is one of the transaction items of `o`.
pub open spec fn tx_in_outcome(o: &ConsensusOutcome, t: Rc<Transaction>) -> bool {
    exists|p: int, j: int|
        0 <= p < o.contributions@.len() && 0 <= j < o.contributions@[p].1@.len()
            && o.contributions@[p].1@[j] == ConsensusItem::Transaction(t)
}

/// `k` is a record key of a transaction of `o`.
pub open spec fn is_outcome_tx_key(o: &ConsensusOutcome, k: Seq<u8>) -> bool {
    exists|t: Rc<Transaction>|
        tx_in_outcome(o, t) && (k == accepted_key(tx_hash_of((*t)@)) || k == rejected_key(
            tx_hash_of((*t)@),
        ) || k == proposed_key(tx_hash_of((*t)@)))
}

/// How the transaction records of `s` relate to those of `s0` after some
/// transactions of `o` were decided in `epoch` with registered modules
/// `ids`: records of other transactions are unchanged; an accepted record
/// stays as it was; a new accepted record holds `{epoch, t}` for a
/// transaction `t` of `o` whose verdict was success; a new or changed
/// rejected record holds the message of the verdict on such a `t`; a
/// rejected record goes only for an accepted transaction; and no
/// transaction gains a second record.
pub open spec fn records_since(
    s0: Map<Seq<u8>, DbValue>,
    s: Map<Seq<u8>, DbValue>,
    o: &ConsensusOutcome,
    epoch: u64,
    ids: Seq<u16>,
) -> bool {
    &&& forall|k: Seq<u8>|
        is_tx_record_key(k) && !is_outcome_tx_key(o, k) ==> (s0.contains_key(k) == s.contains_key(k)
            && (s0.contains_key(k) ==> s0[k] == s[k]))
    &&& forall|h: Seq<u8>|
        s0.contains_key(#[trigger] accepted_key(h)) ==> s.contains_key(accepted_key(h)) && s[accepted_key(h)]
            == s0[accepted_key(h)]
    &&& forall|h: Seq<u8>|
        s.contains_key(#[trigger] accepted_key(h)) && !s0.contains_key(accepted_key(h)) ==> exists|
            t: Rc<Transaction>,
        |
            tx_in_outcome(o, t) && tx_hash_of((*t)@) == h && s[accepted_key(h)] == DbValue::Accepted(
                AcceptedTransaction { epoch, transaction: t },
            ) && verdict_for(t, ids, Ok(()))
    &&& forall|h: Seq<u8>|
        s.contains_key(#[trigger] rejected_key(h)) && !(s0.contains_key(rejected_key(h))
            && s0[rejected_key(h)] == s[rejected_key(h)]) ==> s[rejected_key(h)] is Rejected && exists|
            t: Rc<Transaction>,
            v: Result<(), TransactionSubmissionError>,
        |
            tx_in_outcome(o, t) && tx_hash_of((*t)@) == h && verdict_for(t, ids, v) && v is Err
                && s[rejected_key(h)]->Rejected_0@ == submission_error_text(v->Err_0)
    &&& forall|h: Seq<u8>|
        s0.contains_key(#[trigger] rejected_key(h)) && !s.contains_key(rejected_key(h)) ==> s.contains_key(
            accepted_key(h),
        )
    &&& forall|h: Seq<u8>|
        s.contains_key(#[trigger] accepted_key(h)) && s.contains_key(rejected_key(h)) ==> s0.contains_key(
            accepted_key(h),
        ) && s0.contains_key(rejected_key(h))
}

proof fn lemma_accepted_key_injective(a: Seq<u8>, b: Seq<u8>)
    ensures
        (accepted_key(a) == accepted_key(b)) == (a == b),
        (rejected_key(a) == rejected_key(b)) == (a == b),
        (proposed_key(a) == proposed_key(b)) == (a == b),
{
    if accepted_key(a) == accepted_key(b) {
        assert(a =~= accepted_key(a).subrange(1, accepted_key(a).len() as int));
        assert(b =~= accepted_key(b).subrange(1, accepted_key(b).len() as int));
    }
    if rejected_key(a) == rejected_key(b) {
        assert(a =~= rejected_key(a).subrange(1, rejected_key(a).len() as int));
        assert(b =~= rejected_key(b).subrange(1, rejected_key(b).len() as int));
    }
    if proposed_key(a) == proposed_key(b) {
        assert(a =~= proposed_key(a).subrange(1, proposed_key(a).len() as int));
        assert(b =~= proposed_key(b).subrange(1, proposed_key(b).len() as int));
    }
}

/// One decided transaction keeps the record relation, and decides it.
proof fn lemma_records_step(
    s0: Map<Seq<u8>, DbValue>,
    sa: Map<Seq<u8>, DbValue>,
    sb: Map<Seq<u8>, DbValue>,
    o: &ConsensusOutcome,
    epoch: u64,
    ids: Seq<u16>,
    t: Rc<Transaction>,
    v: Result<(), TransactionSubmissionError>,
)
    requires
        records_since(s0, sa, o, epoch, ids),
        same_epoch_records(s0, sa),
        decided_shape(sa, sb, t, epoch, v),
        verdict_for(t, ids, v),
        tx_in_outcome(o, t),
    ensures
        records_since(s0, sb, o, epoch, ids),
        same_epoch_records(s0, sb),
        decisions_kept(sa, sb),
        tx_decided(sb, tx_hash_of((*t)@)),
        forall|x: Seq<u8>| sa.contains_key(#[trigger] accepted_key(x)) ==> sb.contains_key(accepted_key(x)),
        (*t)@.inputs.len() == 0 && (*t)@.outputs.len() == 0 ==> sb.contains_key(accepted_key(tx_hash_of((*t)@))),
{
    let h = tx_hash_of((*t)@);
    let ak = accepted_key(h);
    let rk = rejected_key(h);
    let pk = proposed_key(h);
    let s1 = sa.remove(pk);
    lemma_key_tags();
    assert(ak != pk && rk != pk && ak != rk) by {
        assert(ak[0] != rk[0]);
    }
    assert(outside_modules(ak) && outside_modules(rk) && outside_modules(pk));
    assert(is_outcome_tx_key(o, ak) && is_outcome_tx_key(o, rk) && is_outcome_tx_key(o, pk));
    let c1 = s1.contains_key(ak);
    // every core key other than those of h is unchanged
    assert forall|k: Seq<u8>| outside_modules(k) && k != ak && k != rk && k != pk implies (sa.contains_key(k)
        == sb.contains_key(k) && (sa.contains_key(k) ==> sa[k] == sb[k])) by {
        if !c1 && v is Ok {
            assert(s1.contains_key(k) == sa.contains_key(k));
        }
    }
    assert forall|k: Seq<u8>| is_tx_record_key(k) && !is_outcome_tx_key(o, k) implies (s0.contains_key(k)
        == sb.contains_key(k) && (s0.contains_key(k) ==> s0[k] == sb[k])) by {
        assert(outside_modules(k));
    }
    assert forall|x: Seq<u8>| s0.contains_key(#[trigger] accepted_key(x)) implies sb.contains_key(accepted_key(x))
        && sb[accepted_key(x)] == s0[accepted_key(x)] by {
        lemma_accepted_key_injective(x, h);
        if x == h {
            assert(s1.contains_key(ak));
        } else {
            assert(accepted_key(x) != rk && accepted_key(x) != pk);
            assert(outside_modules(accepted_key(x)));
        }
    }
    assert forall|x: Seq<u8>| sb.contains_key(#[trigger] accepted_key(x)) && !s0.contains_key(accepted_key(x)) implies exists|
        u: Rc<Transaction>,
    |
        tx_in_outcome(o, u) && tx_hash_of((*u)@) == x && sb[accepted_key(x)] == DbValue::Accepted(
            AcceptedTransaction { epoch, transaction: u },
        ) && verdict_for(u, ids, Ok(())) by {
        lemma_accepted_key_injective(x, h);
        if x == h {
            if c1 {
                assert(sa.contains_key(ak));
            } else if v is Ok {
                assert(v == Ok::<(), TransactionSubmissionError>(()));
            } else {
                assert(!sb.contains_key(ak));
            }
        } else {
            assert(accepted_key(x) != rk && accepted_key(x) != pk);
            assert(outside_modules(accepted_key(x)));
        }
    }
    assert forall|x: Seq<u8>| sb.contains_key(#[trigger] rejected_key(x)) && !(s0.contains_key(rejected_key(x))
        && s0[rejected_key(x)] == sb[rejected_key(x)]) implies sb[rejected_key(x)] is Rejected && exists|
        u: Rc<Transaction>,
        w: Result<(), TransactionSubmissionError>,
    |
        tx_in_outcome(o, u) && tx_hash_of((*u)@) == x && verdict_for(u, ids, w) && w is Err
            && sb[rejected_key(x)]->Rejected_0@ == submission_error_text(w->Err_0) by {
        lemma_accepted_key_injective(x, h);
        if x != h {
            assert(rejected_key(x) != ak && rejected_key(x) != pk);
            assert(outside_modules(rejected_key(x)));
        } else if c1 {
            assert(sb[rk] == sa[rk]);
        } else if v is Err {
        } else {
            assert(!sb.contains_key(rk));
        }
    }
    assert forall|x: Seq<u8>| s0.contains_key(#[trigger] rejected_key(x)) && !sb.contains_key(rejected_key(x)) implies sb.contains_key(
        accepted_key(x),
    ) by {
        lemma_accepted_key_injective(x, h);
        if x != h {
            assert(rejected_key(x) != ak && rejected_key(x) != pk);
            assert(accepted_key(x) != rk && accepted_key(x) != pk);
            assert(outside_modules(rejected_key(x)) && outside_modules(accepted_key(x)));
        } else if c1 {
            assert(sa.contains_key(ak));
        }
    }
    assert forall|x: Seq<u8>| sb.contains_key(#[trigger] accepted_key(x)) && sb.contains_key(rejected_key(x)) implies s0.contains_key(
        accepted_key(x),
    ) && s0.contains_key(rejected_key(x)) by {
        lemma_accepted_key_injective(x, h);
        if x != h {
            assert(rejected_key(x) != ak && rejected_key(x) != pk);
            assert(accepted_key(x) != rk && accepted_key(x) != pk);
            assert(outside_modules(rejected_key(x)) && outside_modules(accepted_key(x)));
        } else if c1 {
            assert(sa.contains_key(ak) && sa.contains_key(rk));
        }
    }
    assert forall|k: Seq<u8>| outside_modules(k) && !is_tx_record_key(k) implies (s0.contains_key(k) == sb.contains_key(k)
        && (s0.contains_key(k) ==> s0[k] == sb[k])) by {}
    assert forall|x: Seq<u8>| tx_decided(sa, x) implies #[trigger] tx_decided(sb, x) by {
        lemma_accepted_key_injective(x, h);
        assert(outside_modules(accepted_key(x)) && outside_modules(rejected_key(x)) && outside_modules(proposed_key(x)));
        if x != h {
            assert(accepted_key(x) != rk && accepted_key(x) != pk && rejected_key(x) != ak && rejected_key(x) != pk);
            assert(proposed_key(x) != ak && proposed_key(x) != rk);
        }
    }
    assert(tx_decided(sb, h));
    assert forall|x: Seq<u8>| sa.contains_key(#[trigger] accepted_key(x)) implies sb.contains_key(accepted_key(x)) by {
        lemma_accepted_key_injective(x, h);
        if x != h {
            assert(accepted_key(x) != rk && accepted_key(x) != pk);
            assert(outside_modules(accepted_key(x)));
        } else {
            assert(s1.contains_key(ak));
        }
    }
    if (*t)@.inputs.len() == 0 && (*t)@.outputs.len() == 0 && !c1 {
        let (hh, ins, outs) = choose|hh: TransactionId, ins: Seq<InputResult>, outs: Seq<OutputResult>|
            hh@ == tx_hash_of((*t)@) && ins.len() <= (*t)@.inputs.len() && outs.len() <= (*t)@.outputs.len()
                && v == #[trigger] transaction_verdict((*t)@, hh, ids, ins, outs);
        lemma_empty_transaction_accepted((*t)@, hh, ids, ins, outs);
    }
}

/// The inputs of the transaction items among `items`, in order.
pub open spec fn items_inputs(items: Seq<crate::epoch::ConsensusItemView>) -> Seq<(u16, Seq<u8>)>
    decreases items.len(),
{
    if items.len() == 0 {
        Seq::empty()
    } else {
        items_inputs(items.drop_last()) + match items.last() {
            crate::epoch::ConsensusItemView::Transaction(t) => t.inputs,
            _ => Seq::empty(),
        }
    }
}

/// The inputs of all transaction items of an outcome, in delivery order.
pub open spec fn outcome_inputs(cs: Seq<(u16, Seq<crate::epoch::ConsensusItemView>)>) -> Seq<(u16, Seq<u8>)>
    decreases cs.len(),
{
    if cs.len() == 0 {
        Seq::empty()
    } else {
        outcome_inputs(cs.drop_last()) + items_inputs(cs.last().1)
    }
}

/// The inputs of the outcome that belong to module `id`, in delivery order.
pub open spec fn module_inputs(cs: Seq<(u16, Seq<crate::epoch::ConsensusItemView>)>, id: u16) -> Seq<(u16, Seq<u8>)> {
    outcome_inputs(cs).filter(of_module(id))
}

/// Whether a type-erased value belongs to module `id`.
pub open spec fn of_module(id: u16) -> spec_fn((u16, Seq<u8>)) -> bool {
    |d: (u16, Seq<u8>)| d.0 == id
}

/// The inputs of module `id` in all transactions of `outcome`: what the
/// module's verification cache for the epoch is built from.
pub fn inputs_of_module(outcome: &ConsensusOutcome, id: u16) -> (r: Vec<DynInput>)
    ensures
        crate::transaction::dyn_views(r@) == module_inputs(outcome@.contributions, id),
{
    let ghost cs = outcome@.contributions;
    let ghost pred = of_module(id);
    let mut out: Vec<DynInput> = Vec::new();
    let mut p: usize = 0;
    while p < outcome.contributions.len()
        invariant
            cs == outcome@.contributions,
            pred == of_module(id),
            p <= cs.len(),
            crate::transaction::dyn_views(out@) == outcome_inputs(cs.take(p as int)).filter(pred),
        decreases cs.len() - p,
    {
        let items = &outcome.contributions[p].1;
        let ghost iv = cs[p as int].1;
        let ghost before = out@;
        assert(iv == crate::epoch::item_views(items@));
        let mut j: usize = 0;
        while j < items.len()
            invariant
                iv == crate::epoch::item_views(items@),
                pred == of_module(id),
                j <= items@.len(),
                crate::transaction::dyn_views(out@) == crate::transaction::dyn_views(before) + items_inputs(iv.take(j as int)).filter(pred),
            decreases items@.len() - j,
        {
            let ghost mid = out@;
            proof {
                assert(iv.take(j + 1).drop_last() =~= iv.take(j as int));
                assert(iv.take(j + 1).last() == items@[j as int]@);
            }
            match &items[j] {
                ConsensusItem::Transaction(t) => {
                    let ghost tin = crate::transaction::dyn_views(t.inputs@);
                    let mut k: usize = 0;
                    while k < t.inputs.len()
                        invariant
                            tin == crate::transaction::dyn_views(t.inputs@),
                            pred == of_module(id),
                            k <= t.inputs@.len(),
                            crate::transaction::dyn_views(out@) == crate::transaction::dyn_views(mid) + tin.take(k as int).filter(pred),
                        decreases t.inputs@.len() - k,
                    {
                        proof {
                            reveal(Seq::filter);
                            assert(tin.take(k + 1).drop_last() =~= tin.take(k as int));
                            assert(tin.take(k + 1).last() == t.inputs@[k as int]@);
                        }
                        let ghost o2 = out@;
                        if t.inputs[k].module_instance_id == id {
                            out.push(t.inputs[k].copy());
                            assert(crate::transaction::dyn_views(out@) =~= crate::transaction::dyn_views(o2).push(t.inputs@[k as int]@));
                            assert(tin.take(k + 1).filter(pred) == tin.take(k as int).filter(pred).push(tin[k as int]));
                            assert(crate::transaction::dyn_views(out@) =~= crate::transaction::dyn_views(mid) + tin.take(k + 1).filter(pred));
                        } else {
                            assert(crate::transaction::dyn_views(out@) =~= crate::transaction::dyn_views(mid) + tin.take(k + 1).filter(pred));
                        }
                        k += 1;
                    }
                    proof {
                        assert(tin.take(tin.len() as int) =~= tin);
                        Seq::filter_distributes_over_add(items_inputs(iv.take(j as int)), tin, pred);
                        assert(crate::transaction::dyn_views(out@) =~= crate::transaction::dyn_views(before) + items_inputs(iv.take(j + 1)).filter(pred));
                    }
                },
                _ => {
                    proof {
                        assert(items_inputs(iv.take(j + 1)) =~= items_inputs(iv.take(j as int)) + Seq::<(u16, Seq<u8>)>::empty());
                        Seq::filter_distributes_over_add(items_inputs(iv.take(j as int)), Seq::<(u16, Seq<u8>)>::empty(), pred);
                        reveal(Seq::filter);
                        assert(Seq::<(u16, Seq<u8>)>::empty().filter(pred) =~= Seq::<(u16, Seq<u8>)>::empty());
                        assert(crate::transaction::dyn_views(out@) =~= crate::transaction::dyn_views(before) + items_inputs(iv.take(j + 1)).filter(pred));
                    }
                },
            }
            j += 1;
        }
        proof {
            assert(iv.take(iv.len() as int) =~= iv);
            assert(cs.take(p + 1).drop_last() =~= cs.take(p as int));
            assert(cs.take(p + 1).last() == cs[p as int]);
            Seq::filter_distributes_over_add(outcome_inputs(cs.take(p as int)), items_inputs(iv), pred);
            assert(crate::transaction::dyn_views(out@) =~= outcome_inputs(cs.take(p + 1)).filter(pred));
        }
        p += 1;
    }
    assert(cs.take(cs.len() as int) =~= cs);
    out
}

impl<M: ServerModule> FedimintConsensus<M> {
    /// One verification cache per module, built by the module from
    /// `inputs_of_module(outcome, id)`: its inputs in all the transactions of
    /// the outcome.
    fn build_verification_caches(&self, outcome: &ConsensusOutcome) -> (r: Vec<M::VerificationCache>)
        ensures
            r@.len() == self.modules@.len(),
    {
        let mut caches: Vec<M::VerificationCache> = Vec::new();
        let mut m: usize = 0;
        while m < self.modules.len()
            invariant
                m <= self.modules@.len(),
                caches@.len() == m,
            decreases self.modules@.len() - m,
        {
            let id = self.modules[m].0;
            let inputs = inputs_of_module(outcome, id);
            caches.push(self.modules[m].1.build_verification_cache(&inputs));
            m += 1;
        }
        caches
    }

    /// Hands each module the consensus items of the outcome that belong to
    /// it, before any transaction is processed.
    fn begin_epoch_phase(&mut self, outcome: &ConsensusOutcome)
        requires
            old(self).wf(),
            old(self).db().version() < u64::MAX,
        ensures
            final(self).wf(),
            final(self).modules@ == old(self).modules@,
            final(self).db().version() == old(self).db().version() + 1,
            same_core(old(self).state(), final(self).state()),
    {
        let mut dbtx = self.db.begin_transaction();
        let ghost s0 = self.state();
        let mut m: usize = 0;
        while m < self.modules.len()
            invariant
                self.wf(),
                self.db() == old(self).db(),
                self.modules@ == old(self).modules@,
                s0 == self.state(),
                dbtx.wf(),
                dbtx.snapshot() == s0,
                dbtx.start() == self.db().version(),
                same_core(s0, dbtx.view()),
                m <= self.modules@.len(),
            decreases self.modules@.len() - m,
        {
            let id = self.modules[m].0;
            let mut items: Vec<(u16, DynModuleConsensusItem)> = Vec::new();
            let mut p: usize = 0;
            while p < outcome.contributions.len()
                decreases outcome.contributions@.len() - p,
            {
                let peer = outcome.contributions[p].0;
                let cis = &outcome.contributions[p].1;
                let mut j: usize = 0;
                while j < cis.len()
                    decreases cis@.len() - j,
                {
                    match &cis[j] {
                        ConsensusItem::Module(d) => {
                            if d.module_instance_id == id {
                                items.push((peer, d.copy()));
                            }
                        },
                        _ => {},
                    }
                    j += 1;
                }
                p += 1;
            }
            if items.len() > 0 {
                let prefix = module_db_prefix(id);
                let mut sub = dbtx.module_view(prefix.as_slice());
                self.modules[m].1.begin_consensus_epoch(&mut sub, items);
                let ghost before = dbtx.view();
                dbtx.apply_module_writes(prefix.as_slice(), &sub);
                proof {
                    lemma_module_writes_keep_core(s0, before, dbtx.view(), id);
                }
            }
            m += 1;
        }
        proof {
            self.db.lemma_wf();
            dbtx.lemma_wf();
        }
        let r = dbtx.commit(&mut self.db);
        assert(r.is_ok());
    }

    /// Decides one delivered transaction: it leaves the queue; if it was
    /// accepted before it is skipped; otherwise it is applied under a
    /// savepoint and accepted, or its writes are rolled back and it is
    /// rejected with the message of the error that stopped it.
    fn decide_transaction(
        &self,
        dbtx: &mut DbTx<DbValue>,
        t: &Rc<Transaction>,
        epoch: u64,
        caches: &Vec<M::VerificationCache>,
    ) -> (v: Ghost<Result<(), TransactionSubmissionError>>)
        requires
            old(dbtx).wf(),
            caches@.len() == self.modules@.len(),
        ensures
            final(dbtx).wf(),
            final(dbtx).snapshot() == old(dbtx).snapshot(),
            final(dbtx).start() == old(dbtx).start(),
            decided_shape(old(dbtx).view(), final(dbtx).view(), *t, epoch, v@),
            verdict_for(*t, self.module_ids(), v@),
    {
        let ghost h = tx_hash_of((**t)@);
        let tx_hash = t.tx_hash();
        let pk = proposed_transaction_key(&tx_hash);
        let ak = accepted_transaction_key(&tx_hash);
        let rk = rejected_transaction_key(&tx_hash);
        dbtx.remove(pk.as_slice());
        let ghost s1 = dbtx.view();
        dbtx.set_savepoint();
        if dbtx.get_bytes(ak.as_slice()).is_some() {
            let ghost none_in: Seq<InputResult> = Seq::empty();
            let ghost none_out: Seq<OutputResult> = Seq::empty();
            let ghost w = transaction_verdict((**t)@, tx_hash, self.module_ids(), none_in, none_out);
            assert(verdict_for(*t, self.module_ids(), w));
            return Ghost(w);
        }
        let (res, answers) = self.process_transaction(dbtx, t, &tx_hash, caches);
        let ghost w = res;
        assert(verdict_for(*t, self.module_ids(), w)) by {
            assert(w == transaction_verdict((**t)@, tx_hash, self.module_ids(), answers@.0, answers@.1));
        }
        match res {
            Ok(()) => {
                let ghost s2 = dbtx.view();
                let accepted = AcceptedTransaction { epoch, transaction: t.clone() };
                dbtx.insert_bytes(ak.as_slice(), Rc::new(DbValue::Accepted(accepted)));
                dbtx.remove(rk.as_slice());
                proof {
                    lemma_key_tags();
                    assert(ak@ != rk@) by {
                        assert(ak@[0] != rk@[0]);
                    }
                    assert(dbtx.view() == s2.insert(ak@, dbtx.view()[ak@]).remove(rk@));
                }
            },
            Err(e) => {
                dbtx.rollback_to_savepoint();
                assert(dbtx.view() == s1);
                let message = e.describe();
                dbtx.insert_bytes(rk.as_slice(), Rc::new(DbValue::Rejected(message)));
                proof {
                    assert(dbtx.view() == s1.insert(rk@, dbtx.view()[rk@]));
                }
            },
        }
        Ghost(w)
    }

    /// Decides each transaction of the outcome, in order: it leaves the
    /// queue of proposed ones and is accepted, or rejected with the error
    /// that stopped it (its effects rolled back).
    fn transactions_phase(&mut self, outcome: &ConsensusOutcome)
        requires
            old(self).wf(),
            old(self).db().version() < u64::MAX,
        ensures
            final(self).wf(),
            final(self).modules@ == old(self).modules@,
            final(self).db().version() == old(self).db().version() + 1,
            all_decided(final(self).state(), outcome@.contributions),
            empty_accepted(final(self).state(), outcome@.contributions),
            same_epoch_records(old(self).state(), final(self).state()),
            records_since(old(self).state(), final(self).state(), outcome, outcome.epoch, old(self).module_ids()),
    {
        let epoch = outcome.epoch;
        let ghost cs = outcome@.contributions;
        let mut dbtx = self.db.begin_transaction();
        let ghost s0 = self.state();
        let caches = self.build_verification_caches(outcome);
        let mut p: usize = 0;
        while p < outcome.contributions.len()
            invariant
                self.wf(),
                self.db() == old(self).db(),
                self.modules@ == old(self).modules@,
                s0 == self.state(),
                cs == outcome@.contributions,
                caches@.len() == self.modules@.len(),
                dbtx.wf(),
                dbtx.snapshot() == s0,
                dbtx.start() == self.db().version(),
                same_epoch_records(s0, dbtx.view()),
                records_since(s0, dbtx.view(), outcome, epoch, self.module_ids()),
                epoch == outcome.epoch,
                p <= outcome.contributions@.len(),
                decided_before(dbtx.view(), cs, p as int, 0),
                empty_accepted_before(dbtx.view(), cs, p as int, 0),
            decreases outcome.contributions@.len() - p,
        {
            let cis = &outcome.contributions[p].1;
            let mut j: usize = 0;
            while j < cis.len()
                invariant
                    self.wf(),
                    self.db() == old(self).db(),
                    self.modules@ == old(self).modules@,
                    s0 == self.state(),
                    cs == outcome@.contributions,
                    cis == &outcome.contributions@[p as int].1,
                    p < cs.len(),
                    caches@.len() == self.modules@.len(),
                    dbtx.wf(),
                    dbtx.snapshot() == s0,
                    dbtx.start() == self.db().version(),
                    same_epoch_records(s0, dbtx.view()),
                    records_since(s0, dbtx.view(), outcome, epoch, self.module_ids()),
                    epoch == outcome.epoch,
                    j <= cis@.len(),
                    decided_before(dbtx.view(), cs, p as int, j as int),
                    empty_accepted_before(dbtx.view(), cs, p as int, j as int),
                decreases cis@.len() - j,
            {
                let ghost sa = dbtx.view();
                assert(cs[p as int].1[j as int] == cis@[j as int]@);
                match &cis[j] {
                    ConsensusItem::Transaction(t) => {
                        let ghost h = tx_hash_of((**t)@);
                        let v = self.decide_transaction(&mut dbtx, t, epoch, &caches);
                        proof {
                            assert(outcome.contributions@[p as int].1@[j as int] == ConsensusItem::Transaction(*t));
                            assert(tx_in_outcome(outcome, *t));
                            lemma_records_step(s0, sa, dbtx.view(), outcome, epoch, self.module_ids(), *t, v@);
                            lemma_decided_step(sa, dbtx.view(), cs, p as int, j as int);
                            assert(empty_accepted_before(dbtx.view(), cs, p as int, j + 1));
                        }
                    },
                    _ => {
                        proof {
                            lemma_decided_step(sa, sa, cs, p as int, j as int);
                        }
                    },
                }
                j += 1;
            }
            p += 1;
        }
        proof {
            self.db.lemma_wf();
            dbtx.lemma_wf();
        }
        let r = dbtx.commit(&mut self.db);
        assert(r.is_ok());
    }
}

} // verus!

verus! {

pub open spec fn zero_hash() -> Seq<u8> {
    Seq::new(32, |i: int| 0u8)
}

/// The record of the epoch before `epoch`, if there is one.
pub open spec fn previous_record(s: Map<Seq<u8>, DbValue>, epoch: u64) -> Option<Rc<EpochHistory>> {
    if epoch > 0 && s.contains_key(epoch_key((epoch - 1) as u64)) && s[epoch_key(
        (epoch - 1) as u64,
    )] is Epoch {
        Some(s[epoch_key((epoch - 1) as u64)]->Epoch_0)
    } else {
        None
    }
}

/// `s` holds the record of the epoch of `o`, chained to `prev`, and marks
/// it as the last epoch.
pub open spec fn epoch_recorded(s: Map<Seq<u8>, DbValue>, o: ConsensusOutcome, prev: Option<Rc<EpochHistory>>) -> bool {
    let k = epoch_key(o.epoch);
    &&& s.contains_key(k)
    &&& s[k] is Epoch
    &&& s[k]->Epoch_0.outcome == o
    &&& s[k]->Epoch_0.previous_hash@ == match prev {
        Some(p) => p.hash@,
        None => zero_hash(),
    }
    &&& s[k]->Epoch_0.hash@ == crate::epoch::epoch_hash_of(o@, s[k]->Epoch_0.previous_hash@)
    &&& s[k]->Epoch_0.last_signature is None
    &&& s.contains_key(last_epoch_key())
    &&& s[last_epoch_key()] == DbValue::LastEpoch(o.epoch)
}

/// The peers whose signature shares were valid.
pub open spec fn contributors(sig: EpochSignatureOutcome) -> Seq<u16> {
    match sig {
        EpochSignatureOutcome::Signed(_, c) => c@,
        EpochSignatureOutcome::NotEnoughValidShares(c) => c@,
    }
}

impl EpochSignatureOutcome {
    /// The peers whose signature shares were valid.
    pub fn contributors(&self) -> (r: &Vec<u16>)
        ensures
            r@ == contributors(*self),
    {
        match self {
            EpochSignatureOutcome::Signed(_, c) => c,
            EpochSignatureOutcome::NotEnoughValidShares(c) => c,
        }
    }
}

/// What became of the previous epoch's record: the peers without a valid
/// share are to be dropped, and the signature, if enough shares were
/// valid, is attached.
pub open spec fn previous_settled(
    s: Map<Seq<u8>, DbValue>,
    epoch: u64,
    peers: Seq<u16>,
    prev: Option<Rc<EpochHistory>>,
    sig: EpochSignatureOutcome,
) -> bool {
    match prev {
        None => true,
        Some(p) => {
            &&& forall|peer: u16|
                peers.contains(peer) && !contributors(sig).contains(peer) ==> s.contains_key(
                    #[trigger] drop_peer_key(peer),
                )
            &&& match sig {
                EpochSignatureOutcome::Signed(sg, _) => {
                    let k = epoch_key((epoch - 1) as u64);
                    &&& s.contains_key(k)
                    &&& s[k] is Epoch
                    &&& s[k]->Epoch_0.outcome == p.outcome
                    &&& s[k]->Epoch_0.hash == p.hash
                    &&& s[k]->Epoch_0.previous_hash == p.previous_hash
                    &&& s[k]->Epoch_0.last_signature == Some(sg)
                },
                EpochSignatureOutcome::NotEnoughValidShares(_) => true,
            }
        },
    }
}

/// The record of epoch `n` is chained to the record of epoch `n - 1`.
pub open spec fn epoch_chained(s: Map<Seq<u8>, DbValue>, n: u64) -> bool {
    let k = epoch_key(n);
    let kp = epoch_key((n - 1) as u64);
    &&& s.contains_key(k)
    &&& s[k] is Epoch
    &&& s.contains_key(kp)
    &&& s[kp] is Epoch
    &&& s[k]->Epoch_0.previous_hash@ == s[kp]->Epoch_0.hash@
}

/// The record of the previous epoch is still there, with its hash.
pub open spec fn previous_kept(s: Map<Seq<u8>, DbValue>, epoch: u64, prev: Option<Rc<EpochHistory>>) -> bool {
    match prev {
        None => true,
        Some(p) => {
            let k = epoch_key((epoch - 1) as u64);
            &&& s.contains_key(k)
            &&& s[k] is Epoch
            &&& s[k]->Epoch_0.hash == p.hash
        },
    }
}

pub proof fn lemma_epoch_key_injective(a: u64, b: u64)
    requires
        epoch_key(a) == epoch_key(b),
    ensures
        a == b,
{
    assert(epoch_key(a).subrange(1, 9) =~= be_u64(a));
    assert(epoch_key(b).subrange(1, 9) =~= be_u64(b));
    crate::codec::lemma_u64_round_trip(a);
    crate::codec::lemma_u64_round_trip(b);
}

fn contains_peer(v: &Vec<u16>, x: u16) -> (r: bool)
    ensures
        r == v@.contains(x),
{
    let mut i: usize = 0;
    while i < v.len()
        invariant
            i <= v@.len(),
            forall|j: int| 0 <= j < i ==> v@[j] != x,
        decreases v@.len() - i,
    {
        if v[i] == x {
            return true;
        }
        i += 1;
    }
    false
}

/// A drop-peer record key.
pub open spec fn is_drop_peer_key(k: Seq<u8>) -> bool {
    k.len() > 0 && k[0] == DROP_PEER_PREFIX
}

/// Recording epoch `epoch` took `a` to `b` writing, outside the modules'
/// subspaces and the transaction records, only the epoch's record, the
/// last-epoch key, the previous epoch's record when `prev_rewritten`, and
/// new drop-peer records: stored drop-peer records stay.
pub open spec fn epoch_writes_only(
    a: Map<Seq<u8>, DbValue>,
    b: Map<Seq<u8>, DbValue>,
    epoch: u64,
    prev_rewritten: bool,
) -> bool {
    &&& forall|k: Seq<u8>|
        outside_modules(k) && !is_tx_record_key(k) && !is_drop_peer_key(k) && k != epoch_key(epoch) && k
            != last_epoch_key() && !(prev_rewritten && k == epoch_key((epoch - 1) as u64)) ==> (
        a.contains_key(k) == b.contains_key(k) && (a.contains_key(k) ==> a[k] == b[k]))
    &&& forall|k: Seq<u8>| is_drop_peer_key(k) && a.contains_key(k) ==> b.contains_key(k)
}

/// The previous record is rewritten: there is one and it gets a signature.
pub open spec fn prev_rewritten(s: Map<Seq<u8>, DbValue>, epoch: u64, sig: EpochSignatureOutcome) -> bool {
    previous_record(s, epoch) is Some && sig is Signed
}

proof fn lemma_records_frame(
    a: Map<Seq<u8>, DbValue>,
    b: Map<Seq<u8>, DbValue>,
    c: Map<Seq<u8>, DbValue>,
    d: Map<Seq<u8>, DbValue>,
    o: &ConsensusOutcome,
    epoch: u64,
    ids: Seq<u16>,
)
    requires
        same_core(a, b),
        records_since(b, c, o, epoch, ids),
        same_tx_records(c, d),
    ensures
        records_since(a, d, o, epoch, ids),
{
    lemma_key_tags();
    assert forall|k: Seq<u8>| is_tx_record_key(k) implies outside_modules(k) by {}
}

impl<M: ServerModule> FedimintConsensus<M> {
    /// Records the epoch, settles the previous one, lets the modules finish
    /// the epoch, and records the peers to drop: those without a valid share
    /// and those the modules return. Returns them all.
    fn end_epoch_phase(&mut self, outcome: Rc<ConsensusOutcome>, epoch_signature: EpochSignatureOutcome) -> (drops: Vec<u16>)
        requires
            old(self).wf(),
            old(self).db().version() < u64::MAX,
        ensures
            final(self).wf(),
            final(self).modules@ == old(self).modules@,
            final(self).db().version() == old(self).db().version() + 1,
            same_tx_records(old(self).state(), final(self).state()),
            epoch_recorded(final(self).state(), *outcome, previous_record(old(self).state(), outcome.epoch)),
            previous_settled(
                final(self).state(),
                outcome.epoch,
                outcome.peers(),
                previous_record(old(self).state(), outcome.epoch),
                epoch_signature,
            ),
            previous_kept(final(self).state(), outcome.epoch, previous_record(old(self).state(), outcome.epoch)),
            epoch_writes_only(
                old(self).state(),
                final(self).state(),
                outcome.epoch,
                prev_rewritten(old(self).state(), outcome.epoch, epoch_signature),
            ),
            forall|q: int| 0 <= q < drops@.len() ==> final(self).state().contains_key(#[trigger] drop_peer_key(drops@[q])),
    {
        let epoch = outcome.epoch;
        let ghost s0 = self.state();
        let ghost sig_spec = crate::kv::spec_deref_ref(&epoch_signature);
        let ghost prev_spec = previous_record(s0, epoch);
        let mut prev: Option<Rc<EpochHistory>> = None;
        if epoch > 0 {
            let pk = epoch_history_key(epoch - 1);
            match self.db.get(pk.as_slice()) {
                Some(rc) => match &*rc {
                    DbValue::Epoch(h) => {
                        prev = Some(h.clone());
                    },
                    _ => {},
                },
                None => {},
            }
        }
        assert(prev == prev_spec);
        let current = match &prev {
            Some(p) => EpochHistory::new(outcome.clone(), Some(&**p)),
            None => EpochHistory::new(outcome.clone(), None),
        };
        proof {
            if prev is None {
                assert(current.previous_hash@ == zero_hash());
            }
        }
        let epoch_peers = outcome.peer_ids();
        let mut drop_peers: Vec<u16> = Vec::new();
        let mut dbtx = self.db.begin_transaction();
        let ek = epoch_history_key(epoch);
        let lk = last_epoch_db_key();
        let ghost prev_key = epoch_key((epoch - 1) as u64);
        proof {
            lemma_key_tags();
            if epoch > 0 {
                if prev_key == ek@ {
                    lemma_epoch_key_injective((epoch - 1) as u64, epoch);
                }
                assert(prev_key != lk@) by {
                    assert(prev_key[0] != lk@[0]);
                }
            }
        }
        match &prev {
            Some(p) => {
                let contributing = epoch_signature.contributors();
                let mut i: usize = 0;
                while i < epoch_peers.len()
                    invariant
                        i <= epoch_peers@.len(),
                        contributing@ == contributors(sig_spec),
                        forall|q: int|
                            0 <= q < i && !contributing@.contains(epoch_peers@[q]) ==> drop_peers@.contains(
                                epoch_peers@[q],
                            ),
                    decreases epoch_peers@.len() - i,
                {
                    let peer = epoch_peers[i];
                    let ghost old_drops = drop_peers@;
                    if !contains_peer(contributing, peer) {
                        drop_peers.push(peer);
                    }
                    proof {
                        assert forall|q: int|
                            0 <= q < i + 1 && !contributing@.contains(epoch_peers@[q]) implies drop_peers@.contains(
                                epoch_peers@[q],
                            ) by {
                            if q == i {
                                assert(drop_peers@[drop_peers@.len() - 1] == peer);
                            } else {
                                let r = choose|r: int| 0 <= r < old_drops.len() && old_drops[r] == epoch_peers@[q];
                                assert(drop_peers@[r] == epoch_peers@[q]);
                            }
                        }
                    }
                    i += 1;
                }
                match epoch_signature {
                    EpochSignatureOutcome::Signed(sig, _) => {
                        let signed = p.with_signature(sig);
                        let pk = epoch_history_key(epoch - 1);
                        dbtx.insert_bytes(pk.as_slice(), Rc::new(DbValue::Epoch(Rc::new(signed))));
                    },
                    EpochSignatureOutcome::NotEnoughValidShares(_) => {},
                }
            },
            None => {},
        }
        let ghost s_prev = dbtx.view();
        dbtx.insert_bytes(lk.as_slice(), Rc::new(DbValue::LastEpoch(epoch)));
        let current_value = Rc::new(DbValue::Epoch(Rc::new(current)));
        dbtx.insert_bytes(ek.as_slice(), current_value);
        let ghost s3 = dbtx.view();
        proof {
            assert(epoch_recorded(s3, *outcome, prev_spec));
            assert(previous_kept(s3, epoch, prev_spec));

            assert(same_tx_records(s0, s3));
        }
        let mut m: usize = 0;
        while m < self.modules.len()
            invariant
                self.wf(),
                self.db() == old(self).db(),
                self.modules@ == old(self).modules@,
                s0 == self.state(),
                dbtx.wf(),
                dbtx.snapshot() == s0,
                dbtx.start() == self.db().version(),
                same_core(s3, dbtx.view()),
                m <= self.modules@.len(),
                forall|q: int|
                    0 <= q < epoch_peers@.len() && prev_spec is Some && !contributors(sig_spec).contains(epoch_peers@[q])
                        ==> drop_peers@.contains(epoch_peers@[q]),
            decreases self.modules@.len() - m,
        {
            let id = self.modules[m].0;
            let prefix = module_db_prefix(id);
            let mut sub = dbtx.module_view(prefix.as_slice());
            let mut more = self.modules[m].1.end_consensus_epoch(&epoch_peers, &mut sub);
            let ghost before = dbtx.view();
            dbtx.apply_module_writes(prefix.as_slice(), &sub);
            proof {
                lemma_module_writes_keep_core(s3, before, dbtx.view(), id);
            }
            let ghost old_drops = drop_peers@;
            drop_peers.append(&mut more);
            proof {
                assert forall|x: u16| old_drops.contains(x) implies drop_peers@.contains(x) by {
                    let q = choose|q: int| 0 <= q < old_drops.len() && old_drops[q] == x;
                    assert(drop_peers@[q] == x);
                }
            }
            m += 1;
        }
        let ghost s4 = dbtx.view();
        let mut i: usize = 0;
        while i < drop_peers.len()
            invariant
                self.wf(),
                self.db() == old(self).db(),
                self.modules@ == old(self).modules@,
                s0 == self.state(),
                dbtx.wf(),
                dbtx.snapshot() == s0,
                dbtx.start() == self.db().version(),
                i <= drop_peers@.len(),
                forall|k: Seq<u8>|
                    (outside_modules(k) && !(k.len() > 0 && k[0] == DROP_PEER_PREFIX)) ==> (
                    dbtx.view().contains_key(k) == s3.contains_key(k) && (s3.contains_key(k)
                        ==> dbtx.view()[k] == s3[k])),
                forall|q: int| 0 <= q < i ==> dbtx.view().contains_key(#[trigger] drop_peer_key(drop_peers@[q])),
                forall|k: Seq<u8>| is_drop_peer_key(k) && s4.contains_key(k) ==> dbtx.view().contains_key(k),
            decreases drop_peers@.len() - i,
        {
            let dk = drop_peer_db_key(drop_peers[i]);
            dbtx.insert_bytes(dk.as_slice(), Rc::new(DbValue::DropPeer));
            proof {
                assert(dk@[0] == DROP_PEER_PREFIX);
            }
            i += 1;
        }
        proof {
            self.db.lemma_wf();
            dbtx.lemma_wf();
            let s5 = dbtx.view();
            assert(ek@[0] == EPOCH_HISTORY_PREFIX);
            assert(lk@[0] == LAST_EPOCH_PREFIX);
            if epoch > 0 {
                assert(prev_key[0] == EPOCH_HISTORY_PREFIX);
            }
            assert(epoch_recorded(s5, *outcome, prev_spec));
            assert forall|k: Seq<u8>| is_tx_record_key(k) implies (s0.contains_key(k) == s5.contains_key(k) && (s0.contains_key(k) ==> s0[k] == s5[k])) by {
                assert(outside_modules(k));
            }
            if prev_spec is Some {
                let c = contributors(sig_spec);
                assert forall|peer: u16| outcome.peers().contains(peer) && !c.contains(peer) implies s5.contains_key(
                    #[trigger] drop_peer_key(peer),
                ) by {
                    let q = choose|q: int| 0 <= q < epoch_peers@.len() && epoch_peers@[q] == peer;
                    assert(drop_peers@.contains(peer));
                    let r = choose|r: int| 0 <= r < drop_peers@.len() && drop_peers@[r] == peer;
                    assert(s5.contains_key(drop_peer_key(drop_peers@[r])));
                }
            }
            assert(previous_settled(s5, epoch, outcome.peers(), prev_spec, sig_spec));
            if epoch > 0 {
                assert(outside_modules(prev_key));
                assert(!(prev_key.len() > 0 && prev_key[0] == DROP_PEER_PREFIX));
            }
            assert(previous_kept(s5, epoch, prev_spec));
            assert forall|k: Seq<u8>| is_drop_peer_key(k) && s0.contains_key(k) implies s5.contains_key(k) by {
                assert(k != ek@ && k != lk@);
                if epoch > 0 {
                    assert(k != prev_key);
                }
                assert(outside_modules(k));
            }
            assert(epoch_writes_only(s0, s5, epoch, prev_rewritten(s0, epoch, sig_spec)));
        }
        let r = dbtx.commit(&mut self.db);
        assert(r.is_ok());
        drop_peers
    }

    /// The balance sheet over all modules.
    pub fn audit(&self) -> (r: Audit)
        requires
            self.wf(),
        ensures
            self.module_ids().len() == 0 ==> r.items@.len() == 0,
    {
        let dbtx = self.db.begin_transaction();
        let mut audit = Audit::new();
        let mut m: usize = 0;
        while m < self.modules.len()
            invariant
                dbtx.wf(),
                m <= self.modules@.len(),
                self.modules@.len() == 0 ==> audit.items@.len() == 0,
            decreases self.modules@.len() - m,
        {
            let prefix = module_db_prefix(self.modules[m].0);
            let view = dbtx.module_view(prefix.as_slice());
            self.modules[m].1.audit(&view, &mut audit);
            m += 1;
        }
        audit
    }

    /// Applies the outcome of an epoch: the modules' consensus items, then
    /// each transaction in order, then the epoch's record, each phase in a
    /// transaction of its own. `epoch_signature` is what the shares of this
    /// epoch made of the signature on the previous one. Fails when the
    /// balance sheet has gone negative afterwards.
    pub fn process_consensus_outcome(
        &mut self,
        outcome: ConsensusOutcome,
        epoch_signature: EpochSignatureOutcome,
    ) -> (r: Result<(), EpochError>)
        requires
            old(self).wf(),
            old(self).db().version() + 3 <= u64::MAX,
        ensures
            final(self).wf(),
            final(self).module_ids() == old(self).module_ids(),
            final(self).db().version() == old(self).db().version() + 3,
            all_decided(final(self).state(), outcome@.contributions),
            empty_accepted(final(self).state(), outcome@.contributions),
            epoch_recorded(final(self).state(), outcome, previous_record(old(self).state(), outcome.epoch)),
            previous_settled(
                final(self).state(),
                outcome.epoch,
                outcome.peers(),
                previous_record(old(self).state(), outcome.epoch),
                epoch_signature,
            ),
            outcome.epoch > 0 && previous_record(old(self).state(), outcome.epoch) is Some
                ==> epoch_chained(final(self).state(), outcome.epoch),
            r is Err ==> r == Err::<(), EpochError>(EpochError::AuditOverflow) || (r->Err_0 is NegativeBalanceSheet
                && r->Err_0->NegativeBalanceSheet_0 < 0),
            records_since(old(self).state(), final(self).state(), &outcome, outcome.epoch, old(self).module_ids()),
            epoch_writes_only(
                old(self).state(),
                final(self).state(),
                outcome.epoch,
                prev_rewritten(old(self).state(), outcome.epoch, epoch_signature),
            ),
    {
        let ghost s0 = self.state();
        let ghost o = crate::kv::spec_deref_ref(&outcome);
        self.begin_epoch_phase(&outcome);
        let ghost s1 = self.state();
        self.transactions_phase(&outcome);
        let ghost s2 = self.state();
        proof {
            lemma_key_tags();
            let e = outcome.epoch;
            if e > 0 {
                let k = epoch_key((e - 1) as u64);
                assert(outside_modules(k) && !is_tx_record_key(k));
            }
            assert(previous_record(s2, outcome.epoch) == previous_record(s0, outcome.epoch));
        }
        let ghost cs = outcome@.contributions;
        let ghost peers = outcome.peers();
        let rc = Rc::new(outcome);
        let _drops = self.end_epoch_phase(rc, epoch_signature);
        proof {
            let s3 = self.state();
            lemma_records_frame(s0, s1, s2, s3, &o, o.epoch, old(self).module_ids());
            lemma_key_tags();
            assert forall|k: Seq<u8>| is_drop_peer_key(k) && s0.contains_key(k) implies s3.contains_key(k) by {
                assert(!is_tx_record_key(k));
            }
            assert forall|h: Seq<u8>| tx_decided(s2, h) implies #[trigger] tx_decided(s3, h) by {
                assert(is_tx_record_key(proposed_key(h)));
                assert(is_tx_record_key(accepted_key(h)));
                assert(is_tx_record_key(rejected_key(h)));
            }
            assert(self.module_ids() =~= old(self).module_ids());
        }
        let audit = self.audit();
        check_balance_sheet(&audit)
    }
}

} // verus!

verus! {

/// What this guardian puts forward for the next epoch, and the peers it
/// wants dropped.
#[derive(Debug)]
pub struct ConsensusProposal {
    pub items: Vec<ConsensusItem>,
    pub drop_peers: Vec<u16>,
}

/// The state of a submitted transaction.
#[derive(Debug)]
pub enum TransactionStatus {
    /// Accepted in `epoch`; what each output became, where its module
    /// knows.
    Accepted { epoch: u64, outputs: Vec<Option<DynOutputOutcome>> },
    /// The message of the error that rejected it.
    Rejected(String),
}

/// The queued transactions among the entries `l`, as consensus items.
pub open spec fn proposed_items(l: Seq<(Seq<u8>, DbValue)>) -> Seq<ConsensusItem> {
    l.filter_map(
        |e: (Seq<u8>, DbValue)|
            match e.1 {
                DbValue::Proposed(t) => Some(ConsensusItem::Transaction(t)),
                _ => None,
            },
    )
}

pub proof fn lemma_u16_be_inverse(b: Seq<u8>)
    requires
        b.len() == 2,
    ensures
        be_u16(crate::codec::u16_of_be(b)) == b,
{
    let (b0, b1) = (b[0], b[1]);
    let x = crate::codec::u16_of_be(b);
    assert(((((b0 as u16) << 8u16) | (b1 as u16)) >> 8u16) as u8 == b0) by (bit_vector);
    assert((((b0 as u16) << 8u16) | (b1 as u16)) as u8 == b1) by (bit_vector);
    assert(be_u16(x) =~= b);
}

/// Drop-peer keys in ascending byte order name ascending peers.
proof fn lemma_drop_key_order(a: Seq<u8>, b: Seq<u8>)
    requires
        a.len() == 3,
        b.len() == 3,
        a[0] == b[0],
        crate::bytes::lex_lt(a, b),
    ensures
        crate::codec::u16_of_be(a.subrange(1, 3)) < crate::codec::u16_of_be(b.subrange(1, 3)),
{
    let (x1, x2, y1, y2) = (a[1], a[2], b[1], b[2]);
    assert(a.subrange(1, 3)[0] == x1 && a.subrange(1, 3)[1] == x2);
    assert(b.subrange(1, 3)[0] == y1 && b.subrange(1, 3)[1] == y2);
    if crate::bytes::is_prefix_of(a, b) && a.len() < b.len() {
    } else {
        let i = choose|i: int| crate::bytes::differs_below_at(a, b, i);
        if i == 1 {
            assert((((x1 as u16) << 8u16) | (x2 as u16)) < (((y1 as u16) << 8u16) | (y2 as u16))) by (bit_vector)
                requires
                    x1 < y1,
            ;
        } else {
            assert(i == 2);
            assert((((x1 as u16) << 8u16) | (x2 as u16)) < (((y1 as u16) << 8u16) | (y2 as u16))) by (bit_vector)
                requires
                    x1 == y1,
                    x2 < y2,
            ;
        }
    }
}

impl<M: ServerModule> FedimintConsensus<M> {
    /// The transactions waiting for consensus, each module's proposals,
    /// and, once an epoch has been recorded, this guardian's share of the
    /// signature on it; with the peers recorded to be dropped.
    pub fn get_consensus_proposal(&self, epoch_share: Option<EpochSignatureShare>) -> (r: ConsensusProposal)
        requires
            self.wf(),
        ensures
            forall|p: u16| r.drop_peers@.contains(p) <==> self.state().contains_key(#[trigger] drop_peer_key(p)),
            forall|a: int, b: int| 0 <= a < b < r.drop_peers@.len() ==> r.drop_peers@[a] < r.drop_peers@[b],
            ({
                let share = self.state().contains_key(last_epoch_key()) && epoch_share is Some;
                let k: int = if share { 1 } else { 0 };
                exists|l: Seq<(Seq<u8>, DbValue)>|
                    is_prefix_listing(self.state(), seq![PROPOSED_TRANSACTION_PREFIX], l) && proposed_items(l).len()
                        + k <= r.items@.len() && #[trigger] r.items@.take(proposed_items(l).len() as int)
                        == proposed_items(l) && (forall|i: int|
                        proposed_items(l).len() <= i < r.items@.len() - k ==> r.items@[i] is Module)
            }),
            (self.state().contains_key(last_epoch_key()) && epoch_share is Some) ==> r.items@.len() > 0
                && r.items@.last() == ConsensusItem::EpochInfo(epoch_share.unwrap()),
    {
        let drop_prefix: Vec<u8> = vec![DROP_PEER_PREFIX];
        assert(drop_prefix@ =~= seq![DROP_PEER_PREFIX]);
        let drops = self.db.find_by_prefix(drop_prefix.as_slice());
        let ghost dl = drops@.map_values(|e: (Vec<u8>, Rc<DbValue>)| (e.0@, *e.1));
        let mut drop_peers: Vec<u16> = Vec::new();
        let ghost mut last_q: int = 0;
        let mut i: usize = 0;
        while i < drops.len()
            invariant
                self.wf(),
                dl == drops@.map_values(|e: (Vec<u8>, Rc<DbValue>)| (e.0@, *e.1)),
                is_prefix_listing(self.state(), seq![DROP_PEER_PREFIX], dl),
                i <= drops@.len(),
                forall|p: u16| drop_peers@.contains(p) ==> self.state().contains_key(#[trigger] drop_peer_key(p)),
                forall|q: int| 0 <= q < i && (#[trigger] dl[q]).0.len() == 3 ==> drop_peers@.contains(crate::codec::u16_of_be(dl[q].0.subrange(1, 3))),
                forall|a: int, b: int| 0 <= a < b < drop_peers@.len() ==> drop_peers@[a] < drop_peers@[b],
                drop_peers@.len() > 0 ==> 0 <= last_q < i && dl[last_q].0.len() == 3 && drop_peers@.last()
                    == crate::codec::u16_of_be(dl[last_q].0.subrange(1, 3)),
            decreases drops@.len() - i,
        {
            let key = &drops[i].0;
            assert(dl[i as int].0 == key@);
            if key.len() == 3 {
                let peer = match crate::codec::read_u16(key.as_slice(), 1) {
                    Some(p) => p,
                    None => 0,
                };
                proof {
                    assert(crate::bytes::is_prefix_of(seq![DROP_PEER_PREFIX], key@));
                    lemma_u16_be_inverse(key@.subrange(1, 3));
                    assert(drop_peer_key(peer) =~= key@);
                }
                let ghost old_drops = drop_peers@;
                proof {
                    if old_drops.len() > 0 {
                        assert(crate::kv::sorted_keys(dl));
                        assert(crate::bytes::lex_lt(dl[last_q].0, dl[i as int].0));
                        assert(crate::bytes::is_prefix_of(seq![DROP_PEER_PREFIX], dl[last_q].0));
                        lemma_drop_key_order(dl[last_q].0, key@);
                    }
                }
                drop_peers.push(peer);
                proof {
                    last_q = i as int;
                    assert forall|a: int, b: int| 0 <= a < b < drop_peers@.len() implies drop_peers@[a] < drop_peers@[b] by {
                        if b == drop_peers@.len() - 1 && a < b {
                            assert(old_drops[a] <= old_drops.last());
                        }
                    }
                }
                proof {
                    assert forall|p: u16| drop_peers@.contains(p) implies self.state().contains_key(#[trigger] drop_peer_key(p)) by {
                        let r = choose|r: int| 0 <= r < drop_peers@.len() && drop_peers@[r] == p;
                        if r < old_drops.len() {
                            assert(old_drops.contains(p));
                        }
                    }
                    assert forall|q: int| 0 <= q < i + 1 && (#[trigger] dl[q]).0.len() == 3 implies drop_peers@.contains(crate::codec::u16_of_be(dl[q].0.subrange(1, 3))) by {
                        if q < i {
                            let r = choose|r: int| 0 <= r < old_drops.len() && old_drops[r] == crate::codec::u16_of_be(dl[q].0.subrange(1, 3));
                            assert(drop_peers@[r] == old_drops[r]);
                        } else {
                            assert(drop_peers@[drop_peers@.len() - 1] == peer);
                        }
                    }
                }
            }
            i += 1;
        }
        proof {
            assert forall|p: u16| self.state().contains_key(#[trigger] drop_peer_key(p)) implies drop_peers@.contains(p) by {
                let k = drop_peer_key(p);
                assert(crate::bytes::is_prefix_of(seq![DROP_PEER_PREFIX], k));
                assert(crate::kv::has_key(dl, k));
                let q = choose|q: int| 0 <= q < dl.len() && dl[q].0 == k;
                assert(k.subrange(1, 3) =~= be_u16(p));
                crate::codec::lemma_u16_round_trip(p);
            }
        }
        let queued_prefix: Vec<u8> = vec![PROPOSED_TRANSACTION_PREFIX];
        assert(queued_prefix@ =~= seq![PROPOSED_TRANSACTION_PREFIX]);
        let queued = self.db.find_by_prefix(queued_prefix.as_slice());
        let ghost ql = queued@.map_values(|e: (Vec<u8>, Rc<DbValue>)| (e.0@, *e.1));
        let mut items: Vec<ConsensusItem> = Vec::new();
        let mut i: usize = 0;
        while i < queued.len()
            invariant
                ql == queued@.map_values(|e: (Vec<u8>, Rc<DbValue>)| (e.0@, *e.1)),
                i <= queued@.len(),
                items@ == proposed_items(ql.take(i as int)),
            decreases queued@.len() - i,
        {
            proof {
                ql.lemma_filter_map_take_succ(
                    |e: (Seq<u8>, DbValue)|
                        match e.1 {
                            DbValue::Proposed(t) => Some(ConsensusItem::Transaction(t)),
                            _ => None,
                        },
                    i as int,
                );
                assert(ql[i as int] == (queued@[i as int].0@, *queued@[i as int].1));
            }
            match &*queued[i].1 {
                DbValue::Proposed(t) => {
                    items.push(ConsensusItem::Transaction(t.clone()));
                },
                _ => {},
            }
            i += 1;
        }
        assert(ql.take(ql.len() as int) =~= ql);
        assert(items@.take(proposed_items(ql).len() as int) =~= proposed_items(ql));
        let mut m: usize = 0;
        while m < self.modules.len()
            invariant
                self.wf(),
                m <= self.modules@.len(),
                proposed_items(ql).len() <= items@.len(),
                items@.take(proposed_items(ql).len() as int) == proposed_items(ql),
                forall|x: int| proposed_items(ql).len() <= x < items@.len() ==> items@[x] is Module,
            decreases self.modules@.len() - m,
        {
            let prefix = module_db_prefix(self.modules[m].0);
            let dbtx = self.db.begin_transaction();
            let view = dbtx.module_view(prefix.as_slice());
            let more = self.modules[m].1.consensus_proposal(&view);
            let ghost before = items@;
            let mut k: usize = 0;
            while k < more.len()
                invariant
                    k <= more@.len(),
                    before.len() <= items@.len(),
                    items@.take(before.len() as int) == before,
                    forall|x: int| 0 <= x < before.len() ==> items@[x] == before[x],
                    forall|x: int| proposed_items(ql).len() <= x < before.len() ==> before[x] is Module,
                    forall|x: int| before.len() <= x < items@.len() ==> items@[x] is Module,
                decreases more@.len() - k,
            {
                items.push(ConsensusItem::Module(more[k].copy()));
                assert(items@.take(before.len() as int) =~= before);
                k += 1;
            }
            assert(items@.take(proposed_items(ql).len() as int) =~= proposed_items(ql));
            assert forall|x: int| proposed_items(ql).len() <= x < items@.len() implies items@[x] is Module by {
                if x < before.len() {
                    assert(items@[x] == before[x]);
                }
            }
            m += 1;
        }
        let lk = last_epoch_db_key();
        if self.db.get(lk.as_slice()).is_some() {
            match epoch_share {
                Some(share) => {
                    let ghost before = items@;
                    items.push(ConsensusItem::EpochInfo(share));
                    assert(items@.take(proposed_items(ql).len() as int) =~= proposed_items(ql));
                },
                None => {},
            }
        }
        assert(is_prefix_listing(self.state(), seq![PROPOSED_TRANSACTION_PREFIX], ql));
        assert(items@.take(proposed_items(ql).len() as int) == proposed_items(ql));
        ConsensusProposal { items, drop_peers }
    }

    /// Where a transaction stands: accepted with what became of its
    /// outputs, rejected with the reason, or unknown.
    pub fn transaction_status(&self, txid: &TransactionId) -> (r: Option<TransactionStatus>)
        requires
            self.wf(),
        ensures
            ({
                let s = self.state();
                let ak = accepted_key(txid@);
                let rk = rejected_key(txid@);
                if s.contains_key(ak) && s[ak] is Accepted {
                    &&& r is Some
                    &&& r.unwrap() is Accepted
                    &&& r.unwrap()->Accepted_epoch == s[ak]->Accepted_0.epoch
                    &&& r.unwrap()->Accepted_outputs@.len() == s[ak]->Accepted_0.transaction.outputs@.len()
                } else if s.contains_key(rk) && s[rk] is Rejected {
                    &&& r is Some
                    &&& r.unwrap() is Rejected
                    &&& r.unwrap()->Rejected_0@ == s[rk]->Rejected_0@
                } else {
                    r is None
                }
            }),
    {
        let ak = accepted_transaction_key(txid);
        if let Some(v) = self.db.get(ak.as_slice()) {
            if let DbValue::Accepted(at) = &*v {
                let transaction = &at.transaction;
                let dbtx = self.db.begin_transaction();
                let mut outputs: Vec<Option<DynOutputOutcome>> = Vec::new();
                let mut i: usize = 0;
                while i < transaction.outputs.len()
                    invariant
                        dbtx.wf(),
                        i <= transaction.outputs@.len(),
                        outputs@.len() == i,
                    decreases transaction.outputs@.len() - i,
                {
                    let id = transaction.outputs[i].module_instance_id;
                    let status = match self.module_index(id) {
                        None => None,
                        Some(idx) => {
                            let prefix = module_db_prefix(id);
                            let view = dbtx.module_view(prefix.as_slice());
                            self.modules[idx].1.output_status(&view, OutPoint { txid: *txid, out_idx: i as u64 })
                        },
                    };
                    outputs.push(status);
                    i += 1;
                }
                return Some(TransactionStatus::Accepted { epoch: at.epoch, outputs });
            }
        }
        let rk = rejected_transaction_key(txid);
        if let Some(v) = self.db.get(rk.as_slice()) {
            if let DbValue::Rejected(message) = &*v {
                return Some(TransactionStatus::Rejected(message.clone()));
            }
        }
        None
    }

    /// The record of an epoch.
    pub fn epoch_history(&self, epoch: u64) -> (r: Option<Rc<EpochHistory>>)
        requires
            self.wf(),
        ensures
            ({
                let s = self.state();
                let k = epoch_key(epoch);
                if s.contains_key(k) && s[k] is Epoch {
                    r == Some(s[k]->Epoch_0)
                } else {
                    r is None
                }
            }),
    {
        let k = epoch_history_key(epoch);
        match self.db.get(k.as_slice()) {
            Some(v) => match &*v {
                DbValue::Epoch(h) => Some(h.clone()),
                _ => None,
            },
            None => None,
        }
    }

    /// The number of the last recorded epoch.
    pub fn get_last_epoch(&self) -> (r: Option<u64>)
        requires
            self.wf(),
        ensures
            ({
                let s = self.state();
                let k = last_epoch_key();
                if s.contains_key(k) && s[k] is LastEpoch {
                    r == Some(s[k]->LastEpoch_0)
                } else {
                    r is None
                }
            }),
    {
        let k = last_epoch_db_key();
        match self.db.get(k.as_slice()) {
            Some(v) => match &*v {
                DbValue::LastEpoch(n) => Some(*n),
                _ => None,
            },
            None => None,
        }
    }

    /// The hash of the last recorded epoch: what this guardian's next
    /// signature share signs.
    pub fn last_epoch_hash(&self) -> (r: Option<[u8; 32]>)
        requires
            self.wf(),
        ensures
            ({
                let s = self.state();
                let lk = last_epoch_key();
                if s.contains_key(lk) && s[lk] is LastEpoch && s.contains_key(epoch_key(s[lk]->LastEpoch_0))
                    && s[epoch_key(s[lk]->LastEpoch_0)] is Epoch {
                    r == Some(s[epoch_key(s[lk]->LastEpoch_0)]->Epoch_0.hash)
                } else {
                    r is None
                }
            }),
    {
        match self.get_last_epoch() {
            None => None,
            Some(n) => match self.epoch_history(n) {
                Some(h) => Some(h.hash),
                None => None,
            },
        }
    }
}

} // verus!

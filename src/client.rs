//! A transaction that module code of a client sees only through its own
//! subspace, while the client itself keeps the whole of it.
use vstd::prelude::*;

use crate::consensus::{module_db_prefix, module_prefix, DbValue};
use crate::db::{apply_writes, prefixed_log, same_outside, strip_prefix, DbTx};

verus! {

pub struct ClientSMDatabaseTransaction {
    dbtx: DbTx<DbValue>,
    module_instance: u16,
}

impl ClientSMDatabaseTransaction {
    pub closed spec fn dbtx(&self) -> DbTx<DbValue> {
        self.dbtx
    }

    pub closed spec fn module_instance(&self) -> u16 {
        self.module_instance
    }

    pub fn new(dbtx: DbTx<DbValue>, module_instance: u16) -> (r: Self)
        ensures
            r.dbtx() == dbtx,
            r.module_instance() == module_instance,
    {
        ClientSMDatabaseTransaction { dbtx, module_instance }
    }

    /// A transaction over the module's subspace only; hand it back to
    /// `apply_module_tx` to keep its writes.
    pub fn module_tx(&self) -> (r: DbTx<DbValue>)
        requires
            self.dbtx().wf(),
        ensures
            r.wf(),
            r.view() == strip_prefix(self.dbtx().view(), module_prefix(self.module_instance())),
            r.log().len() == 0,
    {
        let prefix = module_db_prefix(self.module_instance);
        self.dbtx.module_view(prefix.as_slice())
    }

    /// Keeps the writes of a transaction from `module_tx`, inside the
    /// module's subspace.
    pub fn apply_module_tx(&mut self, module_tx: &DbTx<DbValue>)
        requires
            old(self).dbtx().wf(),
        ensures
            final(self).dbtx().wf(),
            final(self).module_instance() == old(self).module_instance(),
            final(self).dbtx().view() == apply_writes(
                old(self).dbtx().view(),
                prefixed_log(module_prefix(old(self).module_instance()), module_tx.log()),
            ),
            same_outside(
                final(self).dbtx().view(),
                old(self).dbtx().view(),
                module_prefix(old(self).module_instance()),
            ),
    {
        let prefix = module_db_prefix(self.module_instance);
        self.dbtx.apply_module_writes(prefix.as_slice(), module_tx);
    }

    /// The whole transaction, for the client's own code.
    pub fn global_tx(&mut self) -> (r: &mut DbTx<DbValue>)
        ensures
            *r == old(self).dbtx(),
            final(self).dbtx() == *final(r),
            final(self).module_instance() == old(self).module_instance(),
    {
        &mut self.dbtx
    }

    pub fn into_inner(self) -> (r: DbTx<DbValue>)
        ensures
            r == self.dbtx(),
    {
        self.dbtx
    }
}

} // verus!

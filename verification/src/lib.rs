//! A ledger state-transition engine: accounts with cryptographically
//! auditable balances and histories, mutated by signed transactions under
//! strict invariants (no negative balances, no duplicate accounts,
//! deterministic replay).
//!
//! The host blockchain runtime (consensus ordering, wire decoding, signature
//! checking, the clock oracle) is an external collaborator: it hands this
//! core already-decoded transactions together with the transaction reference,
//! the signature-check outcome and the oracle time, and commits or discards
//! the mutable view depending on the result.

use vstd::prelude::*;

pub mod bytes;
pub mod digest;
pub mod store;
pub mod wallet;
pub mod history;
pub mod schema;
pub mod transactions;
pub mod laws;

verus! {

/// Name of the service.
pub const SERVICE_NAME: &'static str = "cryptocurrency";

/// Unique service ID carried by every transaction envelope of this service.
pub const RING_SIGNATURE_ID: u16 = 128;

/// Initial balance of a freshly created wallet.
pub const INITIAL_BALANCE: u64 = 1;

/// The wallet service as the host runtime sees it: its stable name, its
/// numeric identifier, and its contribution to the global state commitment.
#[derive(Default, Debug)]
pub struct CurrencyService;

impl CurrencyService {
    /// Name of the service: a persisted namespace identifier, stable across
    /// restarts and versions.
    pub fn service_name(&self) -> (r: &'static str)
        ensures
            r@ == SERVICE_NAME@,
    {
        SERVICE_NAME
    }

    /// Unique numeric identifier of the service.
    pub fn service_id(&self) -> (r: u16)
        ensures
            r == RING_SIGNATURE_ID,
    {
        RING_SIGNATURE_ID
    }

    /// One digest per authenticated structure, consumed by the host's global
    /// state-commitment mechanism; the order is fixed: accounts, voter
    /// registry, timestamps, candidate registry.
    pub fn state_hash(&self, view: &schema::CurrencySchema) -> (r: Vec<Vec<u8>>)
        requires
            view.wf(),
        ensures
            r@.len() == 4,
            r@[0]@ == schema::wallets_root(view@.wallets),
            r@[1]@ == schema::registry_root(view@.voters),
            r@[2]@ == schema::ts_root(view@.timestamps),
            r@[3]@ == schema::registry_root(view@.candidates),
    {
        view.state_hash()
    }
}

/// Builds the service for the host runtime.
#[derive(Debug)]
pub struct ServiceFactory;

impl ServiceFactory {
    /// Name of the service the factory builds.
    pub fn service_name(&self) -> (r: &'static str)
        ensures
            r@ == SERVICE_NAME@,
    {
        SERVICE_NAME
    }

    /// A fresh service instance.
    pub fn make_service(&mut self) -> CurrencyService {
        CurrencyService
    }
}

} // verus!

//! Settlement-contract configuration: the signer key and the contract
//! address, as plain strings. Serialization and environment-based defaults
//! live with the surrounding process glue, not here.

use vstd::prelude::*;

verus! {

/// Configuration for talking to the settlement contract.
#[derive(Clone, Debug)]
pub struct Config {
    /// Private key of the signer, as a string.
    pub signer_private_key: String,
    /// Address of the settlement contract, as a string.
    pub mcr_contract_address: String,
}

} // verus!

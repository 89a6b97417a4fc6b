//! A per-user secret store: a hash-linked keychain of trusted device keys,
//! per-file encrypted vaults sealed to a set of recipients, a PIN-gated
//! unlock state machine, and the agent/client wire protocol around them.

pub mod base32;
pub mod commands;
pub mod config;
pub mod crypto;
pub mod errors;
pub mod generate;
pub mod keychain;
pub mod keys;
pub mod menu;
pub mod paper;
pub mod paths;
pub mod pinentry;
pub mod protocol;
pub mod secret;
pub mod unlock;
pub mod util;
pub mod vault;

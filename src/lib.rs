//! Invitation lifecycle and response tracking over an append-only,
//! content-addressed store: update-chain resolution, response-edge status
//! migration, the derived read model and the notification fan-out rules.

pub mod address;
pub mod filters;
pub mod invite;
pub mod error;
pub mod validation;
pub mod store;
pub mod chain;
pub mod engine;
pub mod signals;

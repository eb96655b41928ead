//! Non-transferable badges exposed through a token-enumeration interface:
//! a badge catalog, an award ledger with its per-owner index, and the
//! read-only views built from them.

pub mod contract;
pub mod types;

//! State engines of a small social-and-payments backend: a content feed, a
//! fungible-token ledger and a profile registry. Each store is an explicitly
//! owned value; every operation takes the caller's identity and the current
//! time as plain arguments and is a single atomic step on the store.

pub mod error;
pub mod feed;
pub mod identity;
pub mod ledger;
pub mod order;
pub mod profiles;
pub mod text;

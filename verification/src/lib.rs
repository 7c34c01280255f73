//! Core of a URL-shortener desktop client: the request/response dispatch
//! mapping, the persisted history ledger with its document format, the
//! paginator, and the configuration snapshot.
//!
//! Everything here is pure with respect to the outside world: network and
//! file I/O live with the caller, which hands plain values in and takes
//! plain values back.

pub mod config;
pub mod dispatch;
pub mod error;
pub mod history;
pub mod json;
pub mod models;
pub mod page;

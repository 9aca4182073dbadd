//! An authorization oracle: a policy store that decides whether one principal
//! may send to another, the wire format of its requests and responses, and the
//! decisions taken by the serving and the asking side of one exchange.
use vstd::prelude::*;

pub mod identifier;
pub mod decision;
pub mod rules_database;
pub mod wire;
pub mod service;
pub mod client;

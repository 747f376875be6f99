//! A minimal DNS responder core: parses a single A/IN question out of a raw
//! query datagram, resolves it against a fixed table, and encodes a response
//! datagram carrying one IPv4 answer.

pub mod flags;
pub mod query;
pub mod address;
pub mod response;
pub mod table;
pub mod handler;

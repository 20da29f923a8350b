//! Compiler for compact binary IP-range lookup tables.
//!
//! The library turns heterogeneous address-range records (geolocation,
//! proxy-type, ASN and ISP data) into sorted, delta-and-varint-encoded
//! binary tables, and decodes the binary-trie database format that the
//! geolocation pipeline optionally merges in.

pub mod addr;
pub mod csv;
pub mod interner;
pub mod maxmind;
pub mod proxy;
pub mod records;
pub mod rows;
pub mod tables;
pub mod varint;

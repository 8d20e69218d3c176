//! Hermes: DNS wire-format handling and an iterative resolver.
//!
//! The library reads and writes DNS messages (header, flags, questions,
//! resource records and compressed domain names) and drives iterative
//! resolution from the root servers through a user supplied `DnsClient`.
pub mod address;
pub mod dns;
pub mod header;
pub mod io;
pub mod name;
pub mod reader;
pub mod resolver;
pub mod text;
pub mod writer;

use vstd::prelude::*;

verus! {

/// A borrowed DNS packet, as received from the wire.
pub type Packet<'a> = &'a [u8];

/// An owned DNS packet, as produced by encoding.
pub type OwnedPacket = Vec<u8>;

} // verus!

//! The core of an iterative DNS resolver: the message model, the wire codec
//! with label compression, and the decisions of the resolution walk.
//!
//! The library neither sends nor receives. A caller hands it the bytes of a
//! datagram and gets a packet, hands it a packet and gets bytes, and lets a
//! `Resolver` say which nameserver to ask next.

pub mod address;
pub mod codec;
pub mod compression;
pub mod cursor;
pub mod decode;
pub mod encode;
pub mod error;
pub mod laws;
pub mod message;
pub mod name;
pub mod packet;
pub mod query;
pub mod record;
pub mod resolver;
pub mod server;
pub mod text;
pub mod wire;

pub use crate::address::{IpAddress, Ipv4Address, Ipv6Address};
pub use crate::codec::{FromBytes, ToBytes};
pub use crate::cursor::ByteCursor;
pub use crate::error::DNSError;
pub use crate::message::{
    DNSHeader, DNSHeaderFlag, DNSPacket, DNSQuery, DNSQuestion, DNSRecord, DNSRecordClass,
    DNSRecordType,
};
pub use crate::resolver::{next_step, Resolver, Step};
pub use crate::server::Opts;

//! What the serving process decides about a datagram, apart from receiving
//! and sending it and from keeping a cache.

use crate::codec::{parse_packet, parse_query, wire_packet, FromBytes, ToBytes};
use crate::cursor::ByteCursor;
use crate::error::DNSError;
use crate::message::{DNSHeader, DNSPacket, DNSQuery, PacketView};
use crate::packet::packet_ip;
use crate::resolver::Resolver;
use vstd::prelude::*;
use vstd::utf8::*;

verus! {

/// The options of the serving process.
#[derive(Debug, Clone, Copy, PartialEq, Eq, Structural)]
pub struct Opts {
    /// The port to listen on.
    pub port: u16,
}

/// The query that a datagram holds at its start.
pub fn read_query(message: &[u8]) -> (r: Result<DNSQuery, DNSError>)
    ensures
        match parse_query(message@, 0) {
            Ok((query, _)) => r matches Ok(q) && q@ == query,
            Err(e) => r matches Err(x) && x == e,
        },
{
    let mut cursor = ByteCursor::new(message);
    DNSQuery::from_bytes(&mut cursor)
}

/// The packet that a datagram holds at its start.
pub fn read_packet(message: &[u8]) -> (r: Result<DNSPacket, DNSError>)
    ensures
        match parse_packet(message@, 0) {
            Ok((packet, _)) => r matches Ok(p) && p@ == packet,
            Err(e) => r matches Err(x) && x == e,
        },
{
    let mut cursor = ByteCursor::new(message);
    DNSPacket::from_bytes(&mut cursor)
}

/// The resolver that finds the answer to a query.
pub fn resolver_for(query: &DNSQuery) -> (resolver: Resolver)
    ensures
        resolver@ == Resolver::new_view(query@.question.name, query@.question.record_type),
{
    Resolver::new(query.question.name.as_str(), query.question.record_type)
}

/// The packet with the given id in its header and nothing else changed.
pub open spec fn with_id(p: PacketView, id: u16) -> PacketView {
    PacketView {
        header: DNSHeader {
            id,
            flags: p.header.flags,
            num_questions: p.header.num_questions,
            num_answers: p.header.num_answers,
            num_authorities: p.header.num_authorities,
            num_additionals: p.header.num_additionals,
        },
        questions: p.questions,
        answers: p.answers,
        authorities: p.authorities,
        additionals: p.additionals,
    }
}

/// The reply to `query` that `packet` makes, resolved now or taken from a
/// cache: the packet with the id of the query and nothing else changed.
pub fn reply_to(query: &DNSQuery, packet: DNSPacket) -> (reply: DNSPacket)
    ensures
        reply@ == with_id(packet@, query.header.id),
{
    let mut reply = packet;
    reply.header.id = query.header.id;
    reply
}

/// What to do about a query.
#[derive(Debug)]
pub enum Handling {
    /// Send this reply.
    Reply(DNSPacket),
    /// Let this resolver find the answer; it is the reply once `reply_to`
    /// has given it the id of the query.
    Resolve(Resolver),
}

/// What to do about `query`, given what the cache holds under the name it
/// asks for: a cached packet is the reply, under the id of the query; with
/// nothing cached the name is resolved from the root.
pub fn handle_query(query: &DNSQuery, cached: Option<DNSPacket>) -> (handling: Handling)
    ensures
        match cached {
            Some(packet) => handling matches Handling::Reply(reply) && reply@ == with_id(
                packet@,
                query.header.id,
            ),
            None => handling matches Handling::Resolve(resolver) && resolver@ == Resolver::new_view(
                query@.question.name,
                query@.question.record_type,
            ),
        },
{
    match cached {
        Some(packet) => Handling::Reply(reply_to(query, packet)),
        None => Handling::Resolve(resolver_for(query)),
    }
}

/// The bytes of a reply. Fails exactly where the packet cannot be encoded.
pub fn encode_reply(reply: &DNSPacket) -> (r: Result<Vec<u8>, DNSError>)
    ensures
        match r {
            Ok(bytes) => reply.encodable() && bytes@ == wire_packet(reply@),
            Err(e) => !reply.encodable() && reply.refusal(e),
        },
{
    let mut writer: Vec<u8> = Vec::new();
    match reply.to_bytes(&mut writer) {
        Ok(_) => {
            proof {
                assert(writer@ =~= wire_packet(reply@));
            }
            Ok(writer)
        },
        Err(e) => Err(e),
    }
}

/// The address that a reply to a lookup holds, as text: the first IPv4
/// address among the answers of the packet that the bytes decode to. Fails as
/// decoding does, and with `NoIpAddressFound` where the answers hold no such
/// address.
pub fn lookup_answer(response: &[u8]) -> (r: Result<String, DNSError>)
    ensures
        match parse_packet(response@, 0) {
            Err(e) => r matches Err(x) && x == e,
            Ok((packet, _)) => match packet_ip(packet) {
                Some(text) => r matches Ok(s) && s@ == decode_utf8(text),
                None => r matches Err(x) && x == DNSError::NoIpAddressFound,
            },
        },
{
    let packet = read_packet(response)?;
    match packet.ip() {
        Some(text) => Ok(text),
        None => Err(DNSError::NoIpAddressFound),
    }
}

} // verus!

use vstd::prelude::*;

verus! {

/// What can go wrong while a message is encoded, decoded or resolved.
#[derive(Debug)]
pub enum DNSError {
    /// A label of a domain name is too long for its length byte.
    DomainNameHasTooLongPart { part: String, domain_name: String },
    /// The buffer ended before a read was complete.
    IOError,
    /// A decoded label is not valid UTF-8.
    InvalidUTF8,
    /// A header flag value that could not be recognised.
    BadHeader(u16),
    /// A record type code outside the known set.
    BadRecordType(u16),
    /// A record class code outside the known set.
    BadRecordClass(u16),
    /// A length or a count that does not fit the integer that carries it.
    IntTooLarge,
    /// A textual address that does not parse.
    BadAddress,
    /// A resolved answer holds no address.
    NoIpAddressFound,
    /// An endpoint resolved to no candidate address.
    ToSocketAddrsProducedNoAddrs,
    /// Compression pointers were followed more often than a message of this
    /// size can hold distinct targets: the pointers form a cycle.
    CompressionLoop,
    /// A response held nothing the resolver could go on with.
    Other,
}

} // verus!

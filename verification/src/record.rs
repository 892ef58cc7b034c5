//! What the data of a record mean, by the type of the record.

use crate::address::{
    ascii_text, ipv4_text, ipv6_text, IpAddress, IpAddressView, Ipv4Address, Ipv6Address,
};
use crate::cursor::ByteCursor;
use crate::decode::{dns_name, jump_budget};
use crate::error::DNSError;
use crate::message::{DNSRecord, DNSRecordType, RecordView};
use crate::name::{counted, join_labels, parse_name, NameRun};
use crate::text::{digits, is_ascii_bytes, lemma_digits_ascii, put_digits};
use crate::wire::u16_at;
use vstd::prelude::*;
use vstd::utf8::*;

verus! {

/// The eight groups that sixteen bytes of data hold, each big-endian.
pub open spec fn segments_of(data: Seq<u8>) -> Seq<u16> {
    Seq::new(8, |i: int| u16_at(data, 2 * i))
}

/// The address that the data of a record hold, by its type: the first four
/// bytes of an A record, the first sixteen bytes of an AAAA record. No other
/// type holds an address, nor do data that are too short.
pub open spec fn record_address(r: RecordView) -> Option<IpAddressView> {
    if r.record_type == DNSRecordType::A && r.data.len() >= 4 {
        Some(IpAddressView::V4(r.data.take(4)))
    } else if r.record_type == DNSRecordType::AAAA && r.data.len() >= 16 {
        Some(IpAddressView::V6(segments_of(r.data)))
    } else {
        None
    }
}

/// The name that stands at the start of the data of a record, decoded with
/// the data as the whole message.
pub open spec fn data_name(data: Seq<u8>) -> Result<NameRun, DNSError> {
    counted(parse_name(data, 0, jump_budget(data.len())))
}

/// The numbers in decimal, with a comma and a space between them.
pub open spec fn list_text(data: Seq<u8>) -> Seq<u8>
    decreases data.len(),
{
    if data.len() == 0 {
        Seq::empty()
    } else if data.len() == 1 {
        digits(data[0] as nat, false)
    } else {
        list_text(data.drop_last()) + seq![0x2cu8, 0x20u8] + digits(data.last() as nat, false)
    }
}

/// The bytes as a list of numbers in square brackets.
pub open spec fn dump_text(data: Seq<u8>) -> Seq<u8> {
    seq![0x5bu8] + list_text(data) + seq![0x5du8]
}

/// The data of a record as text, by its type: an address in its usual form
/// for A and AAAA, the name for NS and CNAME, a list of numbers for the rest.
/// Data that do not hold what the type says have no text.
pub open spec fn data_text(r: RecordView) -> Option<Seq<u8>> {
    match r.record_type {
        DNSRecordType::A => if r.data.len() >= 4 {
            Some(ipv4_text(r.data.take(4)))
        } else {
            None
        },
        DNSRecordType::AAAA => if r.data.len() >= 16 {
            Some(ipv6_text(segments_of(r.data)))
        } else {
            None
        },
        DNSRecordType::NS | DNSRecordType::CNAME => match data_name(r.data) {
            Ok(run) => Some(join_labels(run.parts)),
            Err(_) => None,
        },
        _ => Some(dump_text(r.data)),
    }
}

/// The bytes as a list of numbers in square brackets.
fn dump(data: &Vec<u8>) -> (s: String)
    ensures
        s@ == decode_utf8(dump_text(data@)),
{
    let mut out: Vec<u8> = Vec::new();
    out.push(0x5b);
    let mut i: usize = 0;
    proof {
        assert(data@.take(0) =~= Seq::<u8>::empty());
    }
    while i < data.len()
        invariant
            i <= data@.len(),
            is_ascii_bytes(out@),
            out@ == seq![0x5bu8] + list_text(data@.take(i as int)),
        decreases data@.len() - i,
    {
        if i > 0 {
            out.push(0x2c);
            out.push(0x20);
        }
        put_digits(&mut out, data[i] as u16, false);
        proof {
            lemma_digits_ascii(data@[i as int] as nat, false);
            let done = data@.take(i as int);
            let next = data@.take(i + 1);
            assert(next.drop_last() =~= done);
            assert(next.last() == data@[i as int]);
            assert(out@ =~= seq![0x5bu8] + list_text(next));
        }
        i = i + 1;
    }
    out.push(0x5d);
    proof {
        assert(data@.take(i as int) =~= data@);
        assert(out@ =~= dump_text(data@));
    }
    ascii_text(out)
}

impl DNSRecord {
    /// The first four bytes of the data as an IPv4 address, whatever the type
    /// of the record. Fails with `IOError` on fewer than four bytes.
    pub fn try_parse_a_record(&self) -> (r: Result<Ipv4Address, DNSError>)
        ensures
            self.data@.len() >= 4 ==> (r matches Ok(a) && a.octets@ == self.data@.take(4)),
            self.data@.len() < 4 ==> (r matches Err(e) && e == DNSError::IOError),
    {
        let mut cursor = ByteCursor::new(self.data.as_slice());
        let a = cursor.read_u8()?;
        let b = cursor.read_u8()?;
        let c = cursor.read_u8()?;
        let d = cursor.read_u8()?;
        let octets = [a, b, c, d];
        proof {
            assert(octets@ =~= self.data@.take(4));
        }
        Ok(Ipv4Address { octets })
    }

    /// The first sixteen bytes of the data as an IPv6 address, eight groups
    /// of sixteen bits, whatever the type of the record. Fails with `IOError`
    /// on fewer than sixteen bytes.
    pub fn try_parse_aaaa_record(&self) -> (r: Result<Ipv6Address, DNSError>)
        ensures
            self.data@.len() >= 16 ==> (r matches Ok(a) && a.segments@ == segments_of(self.data@)),
            self.data@.len() < 16 ==> (r matches Err(e) && e == DNSError::IOError),
    {
        let mut cursor = ByteCursor::new(self.data.as_slice());
        let a = cursor.read_u16()?;
        let b = cursor.read_u16()?;
        let c = cursor.read_u16()?;
        let d = cursor.read_u16()?;
        let e = cursor.read_u16()?;
        let f = cursor.read_u16()?;
        let g = cursor.read_u16()?;
        let h = cursor.read_u16()?;
        let segments = [a, b, c, d, e, f, g, h];
        proof {
            assert(segments@ =~= segments_of(self.data@));
        }
        Ok(Ipv6Address { segments })
    }

    /// The data as text, by the type of the record. See `data_text`.
    pub fn try_get_data_as_string(&self) -> (r: Option<String>)
        ensures
            match data_text(self@) {
                Some(text) => r matches Some(s) && s@ == decode_utf8(text),
                None => r is None,
            },
    {
        match self.record_type {
            DNSRecordType::A => match self.try_parse_a_record() {
                Ok(address) => Some(address.to_string()),
                Err(_) => None,
            },
            DNSRecordType::NS | DNSRecordType::CNAME => {
                let mut cursor = ByteCursor::new(self.data.as_slice());
                match dns_name(&mut cursor) {
                    Ok((name, _)) => Some(name),
                    Err(_) => None,
                }
            },
            DNSRecordType::AAAA => match self.try_parse_aaaa_record() {
                Ok(address) => Some(address.to_string()),
                Err(_) => None,
            },
            _ => Some(dump(&self.data)),
        }
    }

    /// The address that the data hold, by the type of the record: an IPv4
    /// address for an A record of four bytes or more, an IPv6 address for an
    /// AAAA record of sixteen bytes or more, and none for any other record.
    pub fn address(&self) -> (r: Option<IpAddress>)
        ensures
            match record_address(self@) {
                Some(address) => r matches Some(a) && a@ == address,
                None => r is None,
            },
    {
        match self.record_type {
            DNSRecordType::A => match self.try_parse_a_record() {
                Ok(address) => Some(IpAddress::V4(address)),
                Err(_) => None,
            },
            DNSRecordType::AAAA => match self.try_parse_aaaa_record() {
                Ok(address) => Some(IpAddress::V6(address)),
                Err(_) => None,
            },
            _ => None,
        }
    }
}

} // verus!

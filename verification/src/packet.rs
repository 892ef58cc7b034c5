//! What a decoded packet holds for the resolver: addresses, nameservers,
//! canonical names.

use crate::address::{ipv4_text, IpAddress, IpAddressView};
use crate::cursor::ByteCursor;
use crate::decode::dns_name;
use crate::error::DNSError;
use crate::message::{record_views, DNSPacket, DNSRecord, DNSRecordType, PacketView, RecordView};
use crate::name::join_labels;
use crate::record::{data_name, record_address};
use vstd::prelude::*;
use vstd::utf8::*;

verus! {

/// The index of the first item that is wanted; the number of items where none
/// is.
pub open spec fn first_index<T>(items: Seq<T>, wanted: spec_fn(T) -> bool) -> int
    decreases items.len(),
{
    if items.len() == 0 || wanted(items[0]) {
        0
    } else {
        1 + first_index(items.drop_first(), wanted)
    }
}

/// The first wanted item is wanted, and none before it is.
pub proof fn lemma_first_index_bounds<T>(items: Seq<T>, wanted: spec_fn(T) -> bool)
    ensures
        0 <= first_index(items, wanted) <= items.len(),
        first_index(items, wanted) < items.len() ==> wanted(items[first_index(items, wanted)]),
        forall|j: int| 0 <= j < first_index(items, wanted) ==> !wanted(#[trigger] items[j]),
    decreases items.len(),
{
    if items.len() == 0 || wanted(items[0]) {
    } else {
        let rest = items.drop_first();
        lemma_first_index_bounds(rest, wanted);
        assert forall|j: int| 0 <= j < first_index(items, wanted) implies !wanted(
            #[trigger] items[j],
        ) by {
            if j > 0 {
                assert(items[j] == rest[j - 1]);
            }
        }
        assert(first_index(items, wanted) < items.len() ==> items[first_index(items, wanted)]
            == rest[first_index(rest, wanted)]);
    }
}

/// An index with nothing wanted before it, and something wanted or the end at
/// it, is that of the first wanted item.
pub proof fn lemma_first_index_is<T>(items: Seq<T>, wanted: spec_fn(T) -> bool, i: int)
    requires
        0 <= i <= items.len(),
        forall|j: int| 0 <= j < i ==> !wanted(#[trigger] items[j]),
        i == items.len() || wanted(items[i]),
    ensures
        first_index(items, wanted) == i,
    decreases i,
{
    if i > 0 {
        let rest = items.drop_first();
        assert(!wanted(items[0]));
        assert forall|j: int| 0 <= j < i - 1 implies !wanted(#[trigger] rest[j]) by {
            assert(rest[j] == items[j + 1]);
        }
        if i < items.len() {
            assert(rest[i - 1] == items[i]);
        }
        lemma_first_index_is(rest, wanted, i - 1);
    }
}

/// Whether a record holds an address of a family that is asked for.
pub open spec fn wants_address(want_v4: bool, want_v6: bool) -> spec_fn(RecordView) -> bool {
    |r: RecordView|
        match record_address(r) {
            Some(IpAddressView::V4(_)) => want_v4,
            Some(IpAddressView::V6(_)) => want_v6,
            None => false,
        }
}

/// Whether a record is of the given type.
pub open spec fn of_type(record_type: DNSRecordType) -> spec_fn(RecordView) -> bool {
    |r: RecordView| r.record_type == record_type
}

/// The address of the first record that holds one of a family asked for.
pub open spec fn first_address(records: Seq<RecordView>, want_v4: bool, want_v6: bool) -> Option<
    IpAddressView,
> {
    let i = first_index(records, wants_address(want_v4, want_v6));
    if i < records.len() {
        record_address(records[i])
    } else {
        None
    }
}

/// The name in the data of the first record of the given type: nothing where
/// there is no such record, an error where its data do not decode as a name.
pub open spec fn first_name(records: Seq<RecordView>, record_type: DNSRecordType) -> Result<
    Option<Seq<u8>>,
    DNSError,
> {
    let i = first_index(records, of_type(record_type));
    if i < records.len() {
        match data_name(records[i].data) {
            Ok(run) => Ok(Some(join_labels(run.parts))),
            Err(e) => Err(e),
        }
    } else {
        Ok(None)
    }
}

/// Whether `r` is the name that `found` asks for, as text, or its error.
pub open spec fn named_as(found: Result<Option<Seq<u8>>, DNSError>, r: Result<
    Option<String>,
    DNSError,
>) -> bool {
    match found {
        Ok(Some(name)) => r matches Ok(Some(s)) && s@ == decode_utf8(name),
        Ok(None) => r matches Ok(None),
        Err(e) => r matches Err(x) && x == e,
    }
}

/// Whether `r` is the address that `found` asks for.
pub open spec fn addressed_as(found: Option<IpAddressView>, r: Option<IpAddress>) -> bool {
    match found {
        Some(address) => r matches Some(a) && a@ == address,
        None => r is None,
    }
}

/// The address of the first record that holds one of a family asked for.
pub fn find_address(records: &Vec<DNSRecord>, want_v4: bool, want_v6: bool) -> (r: Option<
    IpAddress,
>)
    ensures
        addressed_as(first_address(record_views(records@), want_v4, want_v6), r),
{
    let ghost views = record_views(records@);
    let ghost wanted = wants_address(want_v4, want_v6);
    let mut i: usize = 0;
    while i < records.len()
        invariant
            i <= records@.len(),
            views == record_views(records@),
            wanted == wants_address(want_v4, want_v6),
            forall|j: int| 0 <= j < i ==> !wanted(#[trigger] views[j]),
        decreases records@.len() - i,
    {
        let found = records[i].address();
        proof {
            assert(views[i as int] == records@[i as int]@);
        }
        match found {
            Some(IpAddress::V4(a)) => {
                if want_v4 {
                    proof {
                        lemma_first_index_is(views, wanted, i as int);
                    }
                    return Some(IpAddress::V4(a));
                }
            },
            Some(IpAddress::V6(a)) => {
                if want_v6 {
                    proof {
                        lemma_first_index_is(views, wanted, i as int);
                    }
                    return Some(IpAddress::V6(a));
                }
            },
            None => {},
        }
        i = i + 1;
    }
    proof {
        lemma_first_index_is(views, wanted, i as int);
    }
    None
}

/// The name in the data of the first record of the given type.
pub fn find_name(records: &Vec<DNSRecord>, record_type: DNSRecordType) -> (r: Result<
    Option<String>,
    DNSError,
>)
    ensures
        named_as(first_name(record_views(records@), record_type), r),
{
    let ghost views = record_views(records@);
    let ghost wanted = of_type(record_type);
    let mut i: usize = 0;
    while i < records.len()
        invariant
            i <= records@.len(),
            views == record_views(records@),
            wanted == of_type(record_type),
            forall|j: int| 0 <= j < i ==> !wanted(#[trigger] views[j]),
        decreases records@.len() - i,
    {
        proof {
            assert(views[i as int] == records@[i as int]@);
        }
        if records[i].record_type == record_type {
            proof {
                lemma_first_index_is(views, wanted, i as int);
            }
            let mut cursor = ByteCursor::new(records[i].data.as_slice());
            let (name, _) = dns_name(&mut cursor)?;
            return Ok(Some(name));
        }
        i = i + 1;
    }
    proof {
        lemma_first_index_is(views, wanted, i as int);
    }
    Ok(None)
}

/// The text of the first IPv4 address among the answers.
pub open spec fn packet_ip(p: PacketView) -> Option<Seq<u8>> {
    match first_address(p.answers, true, false) {
        Some(IpAddressView::V4(octets)) => Some(ipv4_text(octets)),
        _ => None,
    }
}

/// The name of a nameserver: that of the first NS record among the authority
/// records, and where there is none, that of the first among the additional
/// records.
pub open spec fn packet_nameserver(p: PacketView) -> Result<Option<Seq<u8>>, DNSError> {
    match first_name(p.authorities, DNSRecordType::NS) {
        Ok(None) => first_name(p.additionals, DNSRecordType::NS),
        found => found,
    }
}

impl DNSPacket {
    /// The address of the first A record among the answers that holds one,
    /// in dotted decimal.
    pub fn ip(&self) -> (r: Option<String>)
        ensures
            match packet_ip(self@) {
                Some(text) => r matches Some(s) && s@ == decode_utf8(text),
                None => r is None,
            },
    {
        match find_address(&self.answers, true, false) {
            Some(IpAddress::V4(a)) => Some(a.to_string()),
            _ => None,
        }
    }

    /// The name in the first NS record among the authority records.
    pub fn get_nameserver_from_authorities(&self) -> (r: Result<Option<String>, DNSError>)
        ensures
            named_as(first_name(self@.authorities, DNSRecordType::NS), r),
    {
        find_name(&self.authorities, DNSRecordType::NS)
    }

    /// The name in the first NS record among the additional records.
    pub fn get_nameserver_from_additionals(&self) -> (r: Result<Option<String>, DNSError>)
        ensures
            named_as(first_name(self@.additionals, DNSRecordType::NS), r),
    {
        find_name(&self.additionals, DNSRecordType::NS)
    }

    /// The name of a nameserver, from the authority records first and from
    /// the additional records where those hold none.
    pub fn get_nameserver(&self) -> (r: Result<Option<String>, DNSError>)
        ensures
            named_as(packet_nameserver(self@), r),
    {
        match self.get_nameserver_from_authorities()? {
            Some(name) => Ok(Some(name)),
            None => self.get_nameserver_from_additionals(),
        }
    }

    /// The name in the first CNAME record among the answers.
    pub fn get_cname_record(&self) -> (r: Result<Option<String>, DNSError>)
        ensures
            named_as(first_name(self@.answers, DNSRecordType::CNAME), r),
    {
        find_name(&self.answers, DNSRecordType::CNAME)
    }

    /// The address of a nameserver that came along: that of the first A or
    /// AAAA record among the additional records that holds one.
    pub fn get_nameserver_ip(&self) -> (r: Option<IpAddress>)
        ensures
            addressed_as(first_address(self@.additionals, true, true), r),
    {
        find_address(&self.additionals, true, true)
    }

    /// The address that answers: that of the first A or AAAA record among
    /// the answers that holds one.
    pub fn get_answer(&self) -> (r: Option<IpAddress>)
        ensures
            addressed_as(first_address(self@.answers, true, true), r),
    {
        find_address(&self.answers, true, true)
    }

    /// The address that answers a question for the given type: that of the
    /// first record of that type among the answers that holds one. Only A
    /// and AAAA records hold addresses.
    pub fn get_answer_for(&self, record_type: DNSRecordType) -> (r: Option<IpAddress>)
        ensures
            addressed_as(
                first_address(
                    self@.answers,
                    record_type == DNSRecordType::A,
                    record_type == DNSRecordType::AAAA,
                ),
                r,
            ),
    {
        find_address(
            &self.answers,
            record_type == DNSRecordType::A,
            record_type == DNSRecordType::AAAA,
        )
    }
}

} // verus!

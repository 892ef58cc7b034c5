//! The decisions of iterative resolution. Sending a query and receiving the
//! reply are left to the caller: the resolver says what to ask whom, takes
//! the decoded reply, and says when it is done.

use crate::address::{IpAddress, IpAddressView, Ipv4Address};
use crate::error::DNSError;
use crate::message::{
    DNSHeaderFlag, DNSPacket, DNSQuery, DNSRecordClass, DNSRecordType, PacketView,
};
use crate::packet::{first_address, first_name};
use crate::query::query_view;
use vstd::prelude::*;
use vstd::utf8::*;

verus! {

/// The root nameserver that every resolution starts from.
pub open spec fn root_view() -> IpAddressView {
    IpAddressView::V4(seq![198u8, 41u8, 0u8, 4u8])
}

/// The root nameserver that every resolution starts from: 198.41.0.4.
pub fn root_nameserver() -> (address: IpAddress)
    ensures
        address@ == root_view(),
{
    let octets: [u8; 4] = [198, 41, 0, 4];
    proof {
        assert(octets@ =~= seq![198u8, 41u8, 0u8, 4u8]);
    }
    IpAddress::V4(Ipv4Address { octets })
}

/// What a reply means for the resolution that asked.
#[derive(Debug)]
pub enum Step {
    /// The reply answers the question with this address.
    Answered(IpAddress),
    /// The reply names a nameserver by address: ask that one next.
    AskNameserver(IpAddress),
    /// The reply names a nameserver by name: find its address first.
    ResolveNameserver(String),
    /// The name asked for is an alias: what this name resolves to is the
    /// answer.
    FollowCname(String),
    /// The resolution fails.
    Failed(DNSError),
}

/// A step as a value.
pub enum StepView {
    Answered(IpAddressView),
    AskNameserver(IpAddressView),
    ResolveNameserver(Seq<char>),
    FollowCname(Seq<char>),
    Failed(DNSError),
}

impl View for Step {
    type V = StepView;

    open spec fn view(&self) -> StepView {
        match self {
            Step::Answered(a) => StepView::Answered(a@),
            Step::AskNameserver(a) => StepView::AskNameserver(a@),
            Step::ResolveNameserver(name) => StepView::ResolveNameserver(name@),
            Step::FollowCname(name) => StepView::FollowCname(name@),
            Step::Failed(e) => StepView::Failed(*e),
        }
    }
}

/// What a reply means for a resolution that asked for `record_type`, in this
/// order of precedence: an address of the family asked for among the answers
/// answers; an address among the additional records is the next nameserver;
/// an NS record among the authority records names the next nameserver; a
/// CNAME record among the answers names what to resolve instead; and with
/// none of these the resolution fails. A name that does not decode fails the
/// resolution with the error of decoding it.
pub open spec fn next_step_of(p: PacketView, record_type: DNSRecordType) -> StepView {
    match first_address(
        p.answers,
        record_type == DNSRecordType::A,
        record_type == DNSRecordType::AAAA,
    ) {
        Some(address) => StepView::Answered(address),
        None => match first_address(p.additionals, true, true) {
            Some(address) => StepView::AskNameserver(address),
            None => match first_name(p.authorities, DNSRecordType::NS) {
                Err(e) => StepView::Failed(e),
                Ok(Some(name)) => StepView::ResolveNameserver(decode_utf8(name)),
                Ok(None) => match first_name(p.answers, DNSRecordType::CNAME) {
                    Err(e) => StepView::Failed(e),
                    Ok(Some(name)) => StepView::FollowCname(decode_utf8(name)),
                    Ok(None) => StepView::Failed(DNSError::Other),
                },
            },
        },
    }
}

/// What the reply `response` means for a resolution that asked for
/// `record_type`. See `next_step_of`.
pub fn next_step(response: &DNSPacket, record_type: DNSRecordType) -> (step: Step)
    ensures
        step@ == next_step_of(response@, record_type),
{
    if let Some(address) = response.get_answer_for(record_type) {
        return Step::Answered(address);
    }
    if let Some(address) = response.get_nameserver_ip() {
        return Step::AskNameserver(address);
    }
    match response.get_nameserver_from_authorities() {
        Err(e) => { return Step::Failed(e); },
        Ok(Some(name)) => { return Step::ResolveNameserver(name); },
        Ok(None) => {},
    }
    match response.get_cname_record() {
        Err(e) => Step::Failed(e),
        Ok(Some(name)) => Step::FollowCname(name),
        Ok(None) => Step::Failed(DNSError::Other),
    }
}

/// A resolution under way: the name to resolve and the nameserver to ask
/// next.
#[derive(Debug)]
pub struct Lookup {
    pub domain_name: String,
    pub nameserver: IpAddress,
}

/// A resolution under way as a value.
pub struct LookupView {
    pub domain_name: Seq<char>,
    pub nameserver: IpAddressView,
}

impl View for Lookup {
    type V = LookupView;

    open spec fn view(&self) -> LookupView {
        LookupView { domain_name: self.domain_name@, nameserver: self.nameserver@ }
    }
}

/// The resolutions as values.
pub open spec fn lookup_views(lookups: Seq<Lookup>) -> Seq<LookupView> {
    lookups.map_values(|l: Lookup| l@)
}

/// An iterative resolution and the resolutions it waits for. The last lookup
/// is the one that asks next. Each lookup below it waits for the address of
/// a nameserver, which the lookup above it is resolving. With no lookup left
/// the resolver is done.
#[derive(Debug)]
pub struct Resolver {
    pub record_type: DNSRecordType,
    pub lookups: Vec<Lookup>,
}

/// A resolver as a value.
pub struct ResolverView {
    pub record_type: DNSRecordType,
    pub lookups: Seq<LookupView>,
}

impl View for Resolver {
    type V = ResolverView;

    open spec fn view(&self) -> ResolverView {
        ResolverView { record_type: self.record_type, lookups: lookup_views(self.lookups@) }
    }
}

/// A fresh lookup of `domain_name`: it asks the root nameserver first.
pub open spec fn fresh_lookup(domain_name: Seq<char>) -> LookupView {
    LookupView { domain_name, nameserver: root_view() }
}

/// How a resolution ends: with the reply that answered and the address in
/// it, or with an error.
pub type Resolved = Result<(DNSPacket, IpAddress), DNSError>;

/// The state of a resolver after the reply `p` to its last query, and how
/// the resolution ended if the reply ended it.
///
/// An answer ends the lookup that asked. It is the result when that was the
/// only lookup; otherwise its address is the nameserver that the lookup
/// below asks next. An address of a nameserver is whom the same lookup asks
/// next. The name of a nameserver starts a fresh lookup of that name on top.
/// An alias replaces the name that the lookup resolves and sends it back to
/// the root, so that what the alias resolves to is what the lookup resolves
/// to. A failure ends everything.
pub open spec fn received(state: ResolverView, p: PacketView) -> (
    ResolverView,
    Option<Result<(PacketView, IpAddressView), DNSError>>,
)
    recommends
        state.lookups.len() > 0,
{
    let top = state.lookups.last();
    let below = state.lookups.drop_last();
    match next_step_of(p, state.record_type) {
        StepView::Answered(address) => if below.len() == 0 {
            (ResolverView { record_type: state.record_type, lookups: below }, Some(Ok((p, address))))
        } else {
            (
                ResolverView {
                    record_type: state.record_type,
                    lookups: below.drop_last().push(
                        LookupView { domain_name: below.last().domain_name, nameserver: address },
                    ),
                },
                None,
            )
        },
        StepView::AskNameserver(address) => (
            ResolverView {
                record_type: state.record_type,
                lookups: below.push(
                    LookupView { domain_name: top.domain_name, nameserver: address },
                ),
            },
            None,
        ),
        StepView::ResolveNameserver(name) => (
            ResolverView {
                record_type: state.record_type,
                lookups: state.lookups.push(fresh_lookup(name)),
            },
            None,
        ),
        StepView::FollowCname(name) => (
            ResolverView { record_type: state.record_type, lookups: below.push(fresh_lookup(name)) },
            None,
        ),
        StepView::Failed(e) => (
            ResolverView { record_type: state.record_type, lookups: Seq::empty() },
            Some(Err(e)),
        ),
    }
}

/// Whether `r` is the ending that `ending` asks for.
pub open spec fn ended_as(
    ending: Option<Result<(PacketView, IpAddressView), DNSError>>,
    r: Option<Resolved>,
) -> bool {
    match ending {
        None => r is None,
        Some(Ok((p, address))) => r matches Some(Ok((q, a))) && q@ == p && a@ == address,
        Some(Err(e)) => r matches Some(Err(x)) && x == e,
    }
}

impl Resolver {
    /// The state of a resolver that starts: one lookup, which asks the root
    /// nameserver.
    pub open spec fn new_view(domain_name: Seq<char>, record_type: DNSRecordType) -> ResolverView {
        ResolverView { record_type, lookups: seq![fresh_lookup(domain_name)] }
    }

    /// A resolver for `domain_name` and `record_type`: one lookup, which asks
    /// the root nameserver.
    pub fn new(domain_name: &str, record_type: DNSRecordType) -> (resolver: Self)
        ensures
            resolver@ == Self::new_view(domain_name@, record_type),
    {
        let mut lookups: Vec<Lookup> = Vec::new();
        lookups.push(Lookup { domain_name: domain_name.to_owned(), nameserver: root_nameserver() });
        proof {
            assert(lookup_views(lookups@) =~= seq![fresh_lookup(domain_name@)]);
        }
        Resolver { record_type, lookups }
    }

    /// Whether the resolution has ended.
    pub fn is_done(&self) -> (done: bool)
        ensures
            done == (self@.lookups.len() == 0),
    {
        self.lookups.len() == 0
    }

    /// The next query and the nameserver to send it to: a query with a fresh
    /// id for the name of the last lookup, of class IN and the type asked
    /// for, with no flag set, so that the nameserver does not recurse.
    pub fn next_query(&self) -> (r: (IpAddress, DNSQuery))
        requires
            self@.lookups.len() > 0,
        ensures
            r.0@ == self@.lookups.last().nameserver,
            r.1@ == query_view(
                r.1.header.id,
                self@.lookups.last().domain_name,
                self.record_type,
                DNSRecordClass::IN,
                DNSHeaderFlag::NoFlags,
            ),
    {
        let top = &self.lookups[self.lookups.len() - 1];
        proof {
            assert(lookup_views(self.lookups@).last() == top@);
        }
        let query = DNSQuery::new(
            top.domain_name.as_str(),
            self.record_type,
            DNSRecordClass::IN,
            DNSHeaderFlag::NoFlags,
        );
        (top.nameserver, query)
    }

    /// Takes the decoded reply to the last query. Gives the end of the
    /// resolution if the reply ends it; otherwise `next_query` says how to
    /// go on. See `received`.
    pub fn receive(&mut self, response: DNSPacket) -> (r: Option<Resolved>)
        requires
            old(self)@.lookups.len() > 0,
        ensures
            final(self)@ == received(old(self)@, response@).0,
            ended_as(received(old(self)@, response@).1, r),
    {
        let ghost before = lookup_views(self.lookups@);
        let step = next_step(&response, self.record_type);
        let top = self.lookups.pop().unwrap();
        proof {
            assert(lookup_views(self.lookups@) =~= before.drop_last());
            assert(top@ == before.last());
        }
        match step {
            Step::Answered(address) => {
                match self.lookups.pop() {
                    None => Some(Ok((response, address))),
                    Some(waiting) => {
                        self.lookups.push(
                            Lookup { domain_name: waiting.domain_name, nameserver: address },
                        );
                        proof {
                            assert(lookup_views(self.lookups@) =~= before.drop_last().drop_last().push(
                                LookupView {
                                    domain_name: before.drop_last().last().domain_name,
                                    nameserver: address@,
                                },
                            ));
                        }
                        None
                    },
                }
            },
            Step::AskNameserver(address) => {
                self.lookups.push(Lookup { domain_name: top.domain_name, nameserver: address });
                proof {
                    assert(lookup_views(self.lookups@) =~= before.drop_last().push(
                        LookupView { domain_name: before.last().domain_name, nameserver: address@ },
                    ));
                }
                None
            },
            Step::ResolveNameserver(name) => {
                self.lookups.push(top);
                self.lookups.push(Lookup { domain_name: name, nameserver: root_nameserver() });
                proof {
                    assert(lookup_views(self.lookups@) =~= before.push(fresh_lookup(name@)));
                }
                None
            },
            Step::FollowCname(name) => {
                self.lookups.push(Lookup { domain_name: name, nameserver: root_nameserver() });
                proof {
                    assert(lookup_views(self.lookups@) =~= before.drop_last().push(
                        fresh_lookup(name@),
                    ));
                }
                None
            },
            Step::Failed(e) => {
                self.lookups.clear();
                proof {
                    assert(lookup_views(self.lookups@) =~= Seq::<LookupView>::empty());
                }
                Some(Err(e))
            },
        }
    }
}

} // verus!

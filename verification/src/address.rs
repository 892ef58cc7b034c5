//! Host addresses as records carry them, and their text.

use crate::name::DOT;
use crate::text::{digits, is_ascii_bytes, lemma_ascii_valid_utf8, lemma_digits_ascii, put_digits, string_from_utf8};
use vstd::prelude::*;
use vstd::utf8::*;

verus! {

/// The byte that separates the groups of an IPv6 address.
pub const COLON: u8 = 0x3a;

/// An IPv4 address: four octets.
#[derive(Debug, Clone, Copy, PartialEq, Eq)]
pub struct Ipv4Address {
    pub octets: [u8; 4],
}

/// An IPv6 address: eight groups of sixteen bits.
#[derive(Debug, Clone, Copy, PartialEq, Eq)]
pub struct Ipv6Address {
    pub segments: [u16; 8],
}

/// A host address of either family.
#[derive(Debug, Clone, Copy, PartialEq, Eq)]
pub enum IpAddress {
    V4(Ipv4Address),
    V6(Ipv6Address),
}

/// An address as a value: the octets of an IPv4 address, the groups of an
/// IPv6 address.
pub enum IpAddressView {
    V4(Seq<u8>),
    V6(Seq<u16>),
}

impl View for IpAddress {
    type V = IpAddressView;

    open spec fn view(&self) -> IpAddressView {
        match *self {
            IpAddress::V4(a) => IpAddressView::V4(a.octets@),
            IpAddress::V6(a) => IpAddressView::V6(a.segments@),
        }
    }
}

/// The text of an IPv4 address: its four octets in decimal, with dots between
/// them.
pub open spec fn ipv4_text(octets: Seq<u8>) -> Seq<u8> {
    digits(octets[0] as nat, false) + seq![DOT] + digits(octets[1] as nat, false) + seq![DOT]
        + digits(octets[2] as nat, false) + seq![DOT] + digits(octets[3] as nat, false)
}

/// The text made of ASCII bytes.
pub(crate) fn ascii_text(bytes: Vec<u8>) -> (s: String)
    requires
        is_ascii_bytes(bytes@),
    ensures
        s@ == decode_utf8(bytes@),
{
    proof {
        lemma_ascii_valid_utf8(bytes@);
    }
    string_from_utf8(bytes).unwrap()
}

/// Appends the text of an IPv4 address.
fn put_ipv4(out: &mut Vec<u8>, octets: &[u8; 4])
    ensures
        final(out)@ == old(out)@ + ipv4_text(octets@),
        is_ascii_bytes(old(out)@) ==> is_ascii_bytes(final(out)@),
{
    put_digits(out, octets[0] as u16, false);
    out.push(DOT);
    put_digits(out, octets[1] as u16, false);
    out.push(DOT);
    put_digits(out, octets[2] as u16, false);
    out.push(DOT);
    put_digits(out, octets[3] as u16, false);
    proof {
        lemma_digits_ascii(octets[0] as nat, false);
        lemma_digits_ascii(octets[1] as nat, false);
        lemma_digits_ascii(octets[2] as nat, false);
        lemma_digits_ascii(octets[3] as nat, false);
        assert(out@ =~= old(out)@ + ipv4_text(octets@));
    }
}

impl Ipv4Address {
    /// The address in dotted decimal.
    pub fn to_string(&self) -> (s: String)
        ensures
            s@ == decode_utf8(ipv4_text(self.octets@)),
    {
        let mut out: Vec<u8> = Vec::new();
        put_ipv4(&mut out, &self.octets);
        proof {
            assert(out@ =~= ipv4_text(self.octets@));
        }
        ascii_text(out)
    }
}

/// The number of zero groups that stand in a row from group `i` on.
pub open spec fn zero_run(segments: Seq<u16>, i: int) -> nat
    decreases segments.len() - i,
{
    if i < 0 || i >= segments.len() || segments[i] != 0 {
        0
    } else {
        1 + zero_run(segments, i + 1)
    }
}

/// Where the longest run of zero groups starts, among the starts below `n`;
/// the first of them where several are as long.
pub open spec fn longest_zero_run(segments: Seq<u16>, n: nat) -> int
    decreases n,
{
    if n == 0 {
        0
    } else {
        let best = longest_zero_run(segments, (n - 1) as nat);
        if zero_run(segments, n - 1) > zero_run(segments, best) {
            n - 1
        } else {
            best
        }
    }
}

/// The groups in hexadecimal, with colons between them.
pub open spec fn groups_text(groups: Seq<u16>) -> Seq<u8>
    decreases groups.len(),
{
    if groups.len() == 0 {
        Seq::empty()
    } else if groups.len() == 1 {
        digits(groups[0] as nat, true)
    } else {
        groups_text(groups.drop_last()) + seq![COLON] + digits(groups.last() as nat, true)
    }
}

/// Whether the address stands for an IPv4 address: five zero groups, then a
/// group of sixteen set bits.
pub open spec fn is_ipv4_mapped(segments: Seq<u16>) -> bool {
    &&& segments[0] == 0
    &&& segments[1] == 0
    &&& segments[2] == 0
    &&& segments[3] == 0
    &&& segments[4] == 0
    &&& segments[5] == 0xffff
}

/// The four octets that the last two groups hold.
pub open spec fn mapped_octets(segments: Seq<u16>) -> Seq<u8> {
    seq![
        (segments[6] / 256) as u8,
        (segments[6] % 256) as u8,
        (segments[7] / 256) as u8,
        (segments[7] % 256) as u8,
    ]
}

/// The text `::ffff:`.
pub open spec fn mapped_prefix() -> Seq<u8> {
    seq![COLON, COLON, 0x66u8, 0x66u8, 0x66u8, 0x66u8, COLON]
}

/// The text of an IPv6 address. An address that stands for an IPv4 address
/// is `::ffff:` and that address in dotted decimal. Any other is its groups
/// in hexadecimal with colons between them, where the longest run of two or
/// more zero groups, the first of the longest, is left out between two
/// colons.
pub open spec fn ipv6_text(segments: Seq<u16>) -> Seq<u8> {
    if is_ipv4_mapped(segments) {
        mapped_prefix() + ipv4_text(mapped_octets(segments))
    } else {
        let start = longest_zero_run(segments, 8);
        let len = zero_run(segments, start);
        if len > 1 {
            groups_text(segments.subrange(0, start)) + seq![COLON, COLON] + groups_text(
                segments.subrange(start + len, 8),
            )
        } else {
            groups_text(segments)
        }
    }
}

/// A run of zero groups from `i` up to `j`, where no zero group follows, has
/// `j - i` groups.
proof fn lemma_zero_run(segments: Seq<u16>, i: int, j: int)
    requires
        0 <= i <= j <= segments.len(),
        forall|k: int| i <= k < j ==> segments[k] == 0,
        j == segments.len() || segments[j] != 0,
    ensures
        zero_run(segments, i) == j - i,
    decreases j - i,
{
    if i < j {
        lemma_zero_run(segments, i + 1, j);
    }
}

/// The number of zero groups that stand in a row from group `i` on.
fn zero_run_from(segments: &[u16; 8], i: usize) -> (n: usize)
    requires
        i <= 8,
    ensures
        n == zero_run(segments@, i as int),
        i + n <= 8,
{
    let mut j = i;
    while j < 8 && segments[j] == 0
        invariant
            i <= j <= 8,
            forall|k: int| i <= k < j ==> segments@[k] == 0,
        decreases 8 - j,
    {
        j = j + 1;
    }
    proof {
        lemma_zero_run(segments@, i as int, j as int);
    }
    j - i
}

/// Appends the groups from `from` up to `to` in hexadecimal, with colons
/// between them.
fn put_groups(out: &mut Vec<u8>, segments: &[u16; 8], from: usize, to: usize)
    requires
        from <= to <= 8,
        is_ascii_bytes(old(out)@),
    ensures
        final(out)@ == old(out)@ + groups_text(segments@.subrange(from as int, to as int)),
        is_ascii_bytes(final(out)@),
{
    let mut i = from;
    proof {
        assert(segments@.subrange(from as int, from as int) =~= Seq::<u16>::empty());
        assert(out@ =~= old(out)@ + groups_text(segments@.subrange(from as int, from as int)));
    }
    while i < to
        invariant
            from <= i <= to <= 8,
            is_ascii_bytes(out@),
            out@ == old(out)@ + groups_text(segments@.subrange(from as int, i as int)),
        decreases to - i,
    {
        if i > from {
            out.push(COLON);
        }
        put_digits(out, segments[i], true);
        proof {
            lemma_digits_ascii(segments@[i as int] as nat, true);
            let done = segments@.subrange(from as int, i as int);
            let next = segments@.subrange(from as int, i + 1);
            assert(next.drop_last() =~= done);
            assert(next.last() == segments@[i as int]);
            assert(out@ =~= old(out)@ + groups_text(next));
        }
        i = i + 1;
    }
}

impl Ipv6Address {
    /// The address as text. See `ipv6_text`.
    pub fn to_string(&self) -> (s: String)
        ensures
            s@ == decode_utf8(ipv6_text(self.segments@)),
    {
        let segments = &self.segments;
        let mut out: Vec<u8> = Vec::new();
        if segments[0] == 0 && segments[1] == 0 && segments[2] == 0 && segments[3] == 0
            && segments[4] == 0 && segments[5] == 0xffff {
            out.push(COLON);
            out.push(COLON);
            out.push(0x66);
            out.push(0x66);
            out.push(0x66);
            out.push(0x66);
            out.push(COLON);
            let octets: [u8; 4] = [
                (segments[6] / 256) as u8,
                (segments[6] % 256) as u8,
                (segments[7] / 256) as u8,
                (segments[7] % 256) as u8,
            ];
            proof {
                assert(out@ =~= mapped_prefix());
                assert(octets@ =~= mapped_octets(segments@));
            }
            put_ipv4(&mut out, &octets);
            return ascii_text(out);
        }
        let mut start: usize = 0;
        let mut len: usize = zero_run_from(segments, 0);
        let mut i: usize = 1;
        proof {
            reveal_with_fuel(longest_zero_run, 2);
        }
        while i < 8
            invariant
                1 <= i <= 8,
                start == longest_zero_run(segments@, i as nat),
                0 <= start < i,
                len == zero_run(segments@, start as int),
                start + len <= 8,
            decreases 8 - i,
        {
            let run = zero_run_from(segments, i);
            if run > len {
                start = i;
                len = run;
            }
            i = i + 1;
        }
        if len > 1 {
            put_groups(&mut out, segments, 0, start);
            out.push(COLON);
            out.push(COLON);
            put_groups(&mut out, segments, start + len, 8);
            proof {
                assert(out@ =~= ipv6_text(segments@));
            }
        } else {
            put_groups(&mut out, segments, 0, 8);
            proof {
                assert(segments@.subrange(0, 8) =~= segments@);
                assert(out@ =~= ipv6_text(segments@));
            }
        }
        ascii_text(out)
    }
}

impl IpAddress {
    /// The address as text, by its family.
    pub fn to_string(&self) -> (s: String)
        ensures
            s@ == decode_utf8(ip_text(self@)),
    {
        match self {
            IpAddress::V4(address) => address.to_string(),
            IpAddress::V6(address) => address.to_string(),
        }
    }
}

/// The text of an address, by its family.
pub open spec fn ip_text(address: IpAddressView) -> Seq<u8> {
    match address {
        IpAddressView::V4(octets) => ipv4_text(octets),
        IpAddressView::V6(segments) => ipv6_text(segments),
    }
}

} // verus!

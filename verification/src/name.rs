//! Domain names: dot-joined labels in memory, length-prefixed labels on the
//! wire. Everything here speaks of the UTF-8 bytes of a name.

use crate::error::DNSError;
use vstd::prelude::*;
use vstd::utf8::*;

verus! {

/// The byte that separates the labels of a name.
pub const DOT: u8 = 0x2e;

/// The number of bytes of `name` before its first dot; its length where it
/// holds no dot.
pub open spec fn first_label_len(name: Seq<u8>) -> nat
    decreases name.len(),
{
    if name.len() == 0 || name[0] == DOT {
        0
    } else {
        1 + first_label_len(name.drop_first())
    }
}

/// The labels of a name: the runs of bytes between its dots. A name has one
/// label more than it has dots, so the empty name has one empty label.
pub open spec fn labels_of(name: Seq<u8>) -> Seq<Seq<u8>>
    decreases name.len(),
{
    let n = first_label_len(name);
    if n >= name.len() {
        seq![name]
    } else {
        seq![name.take(n as int)] + labels_of(name.skip(n as int + 1))
    }
}

/// The parts joined by dots.
pub open spec fn join_labels(parts: Seq<Seq<u8>>) -> Seq<u8>
    decreases parts.len(),
{
    if parts.len() == 0 {
        Seq::empty()
    } else if parts.len() == 1 {
        parts[0]
    } else {
        parts[0] + seq![DOT] + join_labels(parts.drop_first())
    }
}

/// The length byte of a label. It says the length of a label of up to 255
/// bytes, which are the labels that can be encoded.
pub open spec fn length_byte(label: Seq<u8>) -> u8 {
    if label.len() <= 255 {
        label.len() as u8
    } else {
        0
    }
}

/// Each label behind its length byte, with no terminator.
pub open spec fn wire_labels(labels: Seq<Seq<u8>>) -> Seq<u8>
    decreases labels.len(),
{
    if labels.len() == 0 {
        Seq::empty()
    } else {
        seq![length_byte(labels[0])] + labels[0] + wire_labels(labels.drop_first())
    }
}

/// The wire form of a name: its labels, each behind its length byte, and a
/// zero length byte at the end.
pub open spec fn wire_name(name: Seq<u8>) -> Seq<u8> {
    wire_labels(labels_of(name)) + seq![0u8]
}

/// The index of the first label that is longer than a length byte can say;
/// the number of labels where there is none.
pub open spec fn first_long_label(labels: Seq<Seq<u8>>) -> nat
    decreases labels.len(),
{
    if labels.len() == 0 || labels[0].len() > 255 {
        0
    } else {
        1 + first_long_label(labels.drop_first())
    }
}

/// Whether a name can be encoded: none of its labels is longer than 255 bytes.
pub open spec fn encodable_name(name: Seq<u8>) -> bool {
    first_long_label(labels_of(name)) == labels_of(name).len()
}

/// `n` is the length of the first label of `name` when no dot stands before
/// `n` and a dot, or the end, stands at `n`.
pub proof fn lemma_first_label_len(name: Seq<u8>, n: int)
    requires
        0 <= n <= name.len(),
        forall|i: int| 0 <= i < n ==> name[i] != DOT,
        n == name.len() || name[n] == DOT,
    ensures
        first_label_len(name) == n,
    decreases n,
{
    if n > 0 {
        lemma_first_label_len(name.drop_first(), n - 1);
    }
}

/// The first label ends within the name, holds no dot, and a dot follows it
/// unless the name ends there.
pub proof fn lemma_first_label_bounds(name: Seq<u8>)
    ensures
        first_label_len(name) <= name.len(),
        forall|i: int| 0 <= i < first_label_len(name) ==> name[i] != DOT,
        first_label_len(name) < name.len() ==> name[first_label_len(name) as int] == DOT,
    decreases name.len(),
{
    if name.len() == 0 || name[0] == DOT {
    } else {
        let rest = name.drop_first();
        lemma_first_label_bounds(rest);
        assert forall|i: int| 0 <= i < first_label_len(name) implies name[i] != DOT by {
            if i > 0 {
                assert(name[i] == rest[i - 1]);
            }
        }
        assert(first_label_len(name) < name.len() ==> name[first_label_len(name) as int]
            == rest[first_label_len(rest) as int]);
    }
}

/// The wire form of labels followed by one more label.
pub proof fn lemma_wire_labels_push(labels: Seq<Seq<u8>>, label: Seq<u8>)
    ensures
        wire_labels(labels.push(label)) == wire_labels(labels) + seq![length_byte(label)] + label,
    decreases labels.len(),
{
    let pushed = labels.push(label);
    if labels.len() == 0 {
        assert(pushed.drop_first() =~= Seq::<Seq<u8>>::empty());
        assert(wire_labels(pushed.drop_first()) =~= Seq::<u8>::empty());
        assert(wire_labels(pushed) =~= wire_labels(labels) + seq![length_byte(label)] + label);
    } else {
        assert(pushed.drop_first() =~= labels.drop_first().push(label));
        lemma_wire_labels_push(labels.drop_first(), label);
        assert(wire_labels(pushed) =~= wire_labels(labels) + seq![length_byte(label)] + label);
    }
}

/// The parts followed by one more part, joined.
pub proof fn lemma_join_labels_push(parts: Seq<Seq<u8>>, part: Seq<u8>)
    ensures
        join_labels(parts.push(part)) == if parts.len() == 0 {
            part
        } else {
            join_labels(parts) + seq![DOT] + part
        },
    decreases parts.len(),
{
    if parts.len() == 0 {
    } else {
        assert(parts.push(part).drop_first() =~= parts.drop_first().push(part));
        lemma_join_labels_push(parts.drop_first(), part);
        assert(join_labels(parts.push(part)) =~= join_labels(parts) + seq![DOT] + part);
    }
}

/// Joining the labels of a name gives the name back.
pub proof fn lemma_join_labels_of(name: Seq<u8>)
    ensures
        join_labels(labels_of(name)) == name,
        labels_of(name).len() >= 1,
    decreases name.len(),
{
    let n = first_label_len(name);
    lemma_first_label_bounds(name);
    if n >= name.len() {
    } else {
        let rest = name.skip(n as int + 1);
        lemma_join_labels_of(rest);
        let labels = labels_of(name);
        assert(labels.drop_first() =~= labels_of(rest));
        assert(name =~= name.take(n as int) + seq![DOT] + rest);
    }
}

/// Where a name is valid UTF-8, so are its first label and what follows the
/// dot behind that label.
pub proof fn lemma_first_label_valid_utf8(name: Seq<u8>)
    requires
        valid_utf8(name),
    ensures
        valid_utf8(name.take(first_label_len(name) as int)),
        first_label_len(name) < name.len() ==> valid_utf8(
            name.skip(first_label_len(name) as int + 1),
        ),
{
    let n = first_label_len(name) as int;
    lemma_first_label_bounds(name);
    if n < name.len() {
        is_char_boundary_iff_not_is_continuation_byte(name, n);
        valid_utf8_split(name, n);
        let tail = name.subrange(n, name.len() as int);
        assert(tail[0] == DOT);
        assert(pop_first_scalar(tail) =~= name.skip(n + 1));
        assert(name.subrange(0, n) =~= name.take(n));
    } else {
        assert(name.take(n) =~= name);
    }
}

/// The labels of valid UTF-8 are valid UTF-8.
pub proof fn lemma_labels_valid_utf8(name: Seq<u8>)
    requires
        valid_utf8(name),
    ensures
        forall|i: int| 0 <= i < labels_of(name).len() ==> valid_utf8(#[trigger] labels_of(name)[i]),
    decreases name.len(),
{
    let n = first_label_len(name);
    lemma_first_label_valid_utf8(name);
    lemma_first_label_bounds(name);
    if n >= name.len() {
        assert(name.take(n as int) =~= name);
    } else {
        let rest = name.skip(n as int + 1);
        lemma_labels_valid_utf8(rest);
        let labels = labels_of(name);
        assert forall|i: int| 0 <= i < labels.len() implies valid_utf8(#[trigger] labels[i]) by {
            if i > 0 {
                assert(labels[i] == labels_of(rest)[i - 1]);
            }
        }
    }
}

/// Where every one of `done` is short enough, the first long label of `done`
/// followed by `rest` is the first long label of `rest`.
pub proof fn lemma_first_long_label_after(done: Seq<Seq<u8>>, rest: Seq<Seq<u8>>)
    requires
        first_long_label(done) == done.len(),
    ensures
        first_long_label(done + rest) == done.len() + first_long_label(rest),
    decreases done.len(),
{
    if done.len() == 0 {
        assert(done + rest =~= rest);
    } else {
        assert((done + rest).drop_first() =~= done.drop_first() + rest);
        lemma_first_long_label_after(done.drop_first(), rest);
    }
}

/// The first long label is long, and none before it is.
pub proof fn lemma_first_long_label_bounds(labels: Seq<Seq<u8>>)
    ensures
        first_long_label(labels) <= labels.len(),
        first_long_label(labels) < labels.len() ==> labels[first_long_label(labels) as int].len()
            > 255,
        forall|i: int| 0 <= i < first_long_label(labels) ==> (#[trigger] labels[i]).len() <= 255,
    decreases labels.len(),
{
    if labels.len() == 0 || labels[0].len() > 255 {
    } else {
        let rest = labels.drop_first();
        lemma_first_long_label_bounds(rest);
        assert forall|i: int| 0 <= i < first_long_label(labels) implies (#[trigger] labels[i]).len()
            <= 255 by {
            if i > 0 {
                assert(labels[i] == rest[i - 1]);
            }
        }
        assert(first_long_label(labels) < labels.len() ==> labels[first_long_label(labels) as int]
            == rest[first_long_label(rest) as int]);
    }
}

/// What decoding a name found: the parts that are joined by dots to give the
/// name, the count of bytes read on the way, and the offset behind the name.
pub struct NameRun {
    pub parts: Seq<Seq<u8>>,
    pub read: int,
    pub end: int,
}

/// Whether a length byte starts a compression pointer: its two high bits are
/// both set.
pub open spec fn is_pointer(length: u8) -> bool {
    length & 0xC0 == 0xC0
}

/// The offset that a pointer names: the low six bits of its first byte above
/// the eight bits of its second.
pub open spec fn pointer_target(top_half: u8, bottom_half: u8) -> u16 {
    ((top_half as u16) << 8) | (bottom_half as u16)
}

/// The outcome `rest` of decoding what follows some labels, seen from before
/// those labels, which took `read` bytes.
pub open spec fn after_labels(parts: Seq<Seq<u8>>, read: int, rest: Result<NameRun, DNSError>)
    -> Result<NameRun, DNSError> {
    match rest {
        Ok(run) => Ok(NameRun { parts: parts + run.parts, read: read + run.read, end: run.end }),
        Err(e) => Err(e),
    }
}

/// Decoding a name without compression at `pos` in `data`: length-prefixed
/// labels up to a zero length byte. Every label must be valid UTF-8.
pub open spec fn parse_name_simple(data: Seq<u8>, pos: int) -> Result<NameRun, DNSError>
    decreases data.len() - pos,
{
    if pos < 0 || pos >= data.len() {
        Err(DNSError::IOError)
    } else if data[pos] == 0 {
        Ok(NameRun { parts: Seq::empty(), read: 1, end: pos + 1 })
    } else {
        let len = data[pos] as int;
        let label = data.subrange(pos + 1, pos + 1 + len);
        if pos + 1 + len > data.len() {
            Err(DNSError::IOError)
        } else if !valid_utf8(label) {
            Err(DNSError::InvalidUTF8)
        } else {
            after_labels(seq![label], 1 + len, parse_name_simple(data, pos + 1 + len))
        }
    }
}

/// Decoding a name at `pos` in `data`, where a length byte may start a
/// compression pointer. A pointer ends the name: the name found at its target
/// is the last part. At most `jumps` pointers are followed, one behind the
/// other.
///
/// The count of bytes read is one for each length byte, the bytes of each
/// label, the first byte of a pointer, and what the name at the target took.
pub open spec fn parse_name(data: Seq<u8>, pos: int, jumps: nat) -> Result<NameRun, DNSError>
    decreases jumps, data.len() - pos + 1,
{
    if pos < 0 || pos >= data.len() {
        Err(DNSError::IOError)
    } else if data[pos] == 0 {
        Ok(NameRun { parts: Seq::empty(), read: 1, end: pos + 1 })
    } else if is_pointer(data[pos]) {
        after_labels(Seq::empty(), 1, parse_pointer(data, pos + 1, data[pos] & 0x3F, jumps))
    } else {
        let len = data[pos] as int;
        let label = data.subrange(pos + 1, pos + 1 + len);
        if pos + 1 + len > data.len() {
            Err(DNSError::IOError)
        } else if !valid_utf8(label) {
            Err(DNSError::InvalidUTF8)
        } else {
            after_labels(seq![label], 1 + len, parse_name(data, pos + 1 + len, jumps))
        }
    }
}

/// Decoding the rest of a pointer whose first byte gave `top_half`: the second
/// byte stands at `pos`, and the name at the target is the one part. With no
/// jump left the pointer is not followed.
pub open spec fn parse_pointer(data: Seq<u8>, pos: int, top_half: u8, jumps: nat) -> Result<
    NameRun,
    DNSError,
>
    decreases jumps, 0int,
{
    if pos < 0 || pos >= data.len() {
        Err(DNSError::IOError)
    } else if jumps == 0 {
        Err(DNSError::CompressionLoop)
    } else {
        match parse_name(data, pointer_target(top_half, data[pos]) as int, (jumps - 1) as nat) {
            Ok(run) => Ok(
                NameRun { parts: seq![join_labels(run.parts)], read: run.read, end: pos + 1 },
            ),
            Err(e) => Err(e),
        }
    }
}

/// What a decoder that counts in `usize` makes of an outcome: a count that
/// does not fit is an error.
pub open spec fn counted(parsed: Result<NameRun, DNSError>) -> Result<NameRun, DNSError> {
    match parsed {
        Ok(run) => if run.read > usize::MAX {
            Err(DNSError::IntTooLarge)
        } else {
            Ok(run)
        },
        Err(e) => Err(e),
    }
}

/// Whether `r`, with the reader left at `end`, is what `parsed` asks for: the
/// name as text, the count and the offset behind the name, or the error.
pub open spec fn decoded_as(
    parsed: Result<NameRun, DNSError>,
    r: Result<(String, usize), DNSError>,
    end: int,
) -> bool {
    match parsed {
        Ok(run) => {
            &&& r matches Ok((name, read))
            &&& name@ == decode_utf8(join_labels(run.parts))
            &&& read == run.read
            &&& end == run.end
        },
        Err(e) => r matches Err(x) && x == e,
    }
}

/// The byte of a dot is valid UTF-8.
pub proof fn lemma_dot_valid_utf8()
    ensures
        valid_utf8(seq![DOT]),
{
    let s = seq![DOT];
    assert(pop_first_scalar(s) =~= Seq::<u8>::empty());
    assert(valid_utf8(pop_first_scalar(s)));
}

/// Parts that are valid UTF-8 join to valid UTF-8.
pub proof fn lemma_join_valid_utf8(parts: Seq<Seq<u8>>)
    requires
        forall|i: int| 0 <= i < parts.len() ==> valid_utf8(#[trigger] parts[i]),
    ensures
        valid_utf8(join_labels(parts)),
    decreases parts.len(),
{
    if parts.len() == 0 {
    } else if parts.len() == 1 {
    } else {
        let rest = parts.drop_first();
        assert forall|i: int| 0 <= i < rest.len() implies valid_utf8(#[trigger] rest[i]) by {
            assert(rest[i] == parts[i + 1]);
        }
        lemma_join_valid_utf8(rest);
        lemma_dot_valid_utf8();
        valid_utf8_concat(parts[0], seq![DOT]);
        valid_utf8_concat(parts[0] + seq![DOT], join_labels(rest));
    }
}

/// Whether every part is valid UTF-8.
pub open spec fn parts_valid_utf8(parts: Seq<Seq<u8>>) -> bool {
    forall|i: int| 0 <= i < parts.len() ==> valid_utf8(#[trigger] parts[i])
}

/// The parts that decoding finds are valid UTF-8, and so is the name.
pub proof fn lemma_parse_name_valid_utf8(data: Seq<u8>, pos: int, jumps: nat)
    ensures
        parse_name(data, pos, jumps) matches Ok(run) ==> parts_valid_utf8(run.parts) && valid_utf8(
            join_labels(run.parts),
        ),
    decreases jumps, data.len() - pos + 1,
{
    if pos < 0 || pos >= data.len() || data[pos] == 0 {
    } else if is_pointer(data[pos]) {
        lemma_parse_pointer_valid_utf8(data, pos + 1, data[pos] & 0x3F, jumps);
        let behind = parse_pointer(data, pos + 1, data[pos] & 0x3F, jumps);
        if behind is Ok {
            assert(Seq::<Seq<u8>>::empty() + behind->Ok_0.parts =~= behind->Ok_0.parts);
        }
    } else {
        let len = data[pos] as int;
        let label = data.subrange(pos + 1, pos + 1 + len);
        if pos + 1 + len <= data.len() && valid_utf8(label) {
            lemma_parse_name_valid_utf8(data, pos + 1 + len, jumps);
            let rest = parse_name(data, pos + 1 + len, jumps);
            if rest is Ok {
                let parts = seq![label] + rest->Ok_0.parts;
                assert forall|i: int| 0 <= i < parts.len() implies valid_utf8(
                    #[trigger] parts[i],
                ) by {
                    if i > 0 {
                        assert(parts[i] == rest->Ok_0.parts[i - 1]);
                    }
                }
                lemma_join_valid_utf8(parts);
            }
        }
    }
}

/// The name that decoding finds behind a pointer is valid UTF-8.
pub proof fn lemma_parse_pointer_valid_utf8(data: Seq<u8>, pos: int, top_half: u8, jumps: nat)
    ensures
        parse_pointer(data, pos, top_half, jumps) matches Ok(run) ==> parts_valid_utf8(run.parts)
            && valid_utf8(join_labels(run.parts)),
    decreases jumps, 0int,
{
    if pos < 0 || pos >= data.len() || jumps == 0 {
    } else {
        lemma_parse_name_valid_utf8(
            data,
            pointer_target(top_half, data[pos]) as int,
            (jumps - 1) as nat,
        );
    }
}

/// The parts that decoding without compression finds are valid UTF-8, and so
/// is the name.
pub proof fn lemma_parse_name_simple_valid_utf8(data: Seq<u8>, pos: int)
    ensures
        parse_name_simple(data, pos) matches Ok(run) ==> parts_valid_utf8(run.parts) && valid_utf8(
            join_labels(run.parts),
        ),
    decreases data.len() - pos,
{
    if pos < 0 || pos >= data.len() || data[pos] == 0 {
    } else {
        let len = data[pos] as int;
        let label = data.subrange(pos + 1, pos + 1 + len);
        if pos + 1 + len <= data.len() && valid_utf8(label) {
            lemma_parse_name_simple_valid_utf8(data, pos + 1 + len);
            let rest = parse_name_simple(data, pos + 1 + len);
            if rest is Ok {
                let parts = seq![label] + rest->Ok_0.parts;
                assert forall|i: int| 0 <= i < parts.len() implies valid_utf8(
                    #[trigger] parts[i],
                ) by {
                    if i > 0 {
                        assert(parts[i] == rest->Ok_0.parts[i - 1]);
                    }
                }
                lemma_join_valid_utf8(parts);
            }
        }
    }
}

} // verus!

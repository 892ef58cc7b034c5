//! What encoding and decoding have to do with each other.

use crate::codec::{
    parse_header, parse_packet, parse_query, parse_question, parse_questions, parse_record,
    parse_record_fields, parse_records, wire_header, wire_packet, wire_query, wire_question,
    wire_questions, wire_record, wire_records,
};
use crate::decode::jump_budget;
use crate::error::DNSError;
use crate::message::{
    DNSHeader, DNSRecordClass, DNSRecordType, PacketView, QueryView, QuestionView, RecordView,
};
use crate::name::{
    encodable_name, is_pointer, join_labels, labels_of, lemma_first_long_label_bounds,
    lemma_join_labels_of, lemma_labels_valid_utf8, length_byte, parse_name, parse_name_simple,
    wire_labels, wire_name, NameRun,
};
use crate::wire::{be16, be32, u16_at, u32_at};
use vstd::prelude::*;
use vstd::utf8::*;

verus! {

/// Whether the bytes `w` stand at `pos` in `data`.
pub open spec fn stands_at(data: Seq<u8>, pos: int, w: Seq<u8>) -> bool {
    0 <= pos && pos + w.len() <= data.len() && data.subrange(pos, pos + w.len()) == w
}

/// Where two runs of bytes stand joined, the first stands there and the
/// second stands behind it.
pub proof fn lemma_stands_at_split(data: Seq<u8>, pos: int, a: Seq<u8>, b: Seq<u8>)
    requires
        stands_at(data, pos, a + b),
    ensures
        stands_at(data, pos, a),
        stands_at(data, pos + a.len(), b),
{
    let w = data.subrange(pos, pos + (a + b).len());
    assert(data.subrange(pos, pos + a.len()) =~= w.subrange(0, a.len() as int));
    assert(w.subrange(0, a.len() as int) =~= a);
    assert(data.subrange(pos + a.len(), pos + a.len() + b.len()) =~= w.subrange(
        a.len() as int,
        (a + b).len() as int,
    ));
    assert(w.subrange(a.len() as int, (a + b).len() as int) =~= b);
}

/// Whether every label has between one and `max` bytes.
pub open spec fn labels_within(labels: Seq<Seq<u8>>, max: int) -> bool {
    forall|i: int| 0 <= i < labels.len() ==> 1 <= (#[trigger] labels[i]).len() <= max
}

/// A length byte below 192 starts no pointer.
pub proof fn lemma_short_length_is_no_pointer(b: u8)
    requires
        b < 192,
    ensures
        !is_pointer(b),
{
    assert(b < 192 ==> b & 0xC0 != 0xC0) by (bit_vector);
}

/// Decoding without compression finds the labels whose wire form stands at
/// `pos`, where each has between 1 and 255 bytes of valid UTF-8.
pub proof fn lemma_parse_wire_labels_simple(data: Seq<u8>, pos: int, labels: Seq<Seq<u8>>)
    requires
        stands_at(data, pos, wire_labels(labels) + seq![0u8]),
        labels_within(labels, 255),
        forall|i: int| 0 <= i < labels.len() ==> valid_utf8(#[trigger] labels[i]),
    ensures
        parse_name_simple(data, pos) == Ok::<NameRun, DNSError>(
            NameRun {
                parts: labels,
                read: wire_labels(labels).len() as int + 1,
                end: pos + wire_labels(labels).len() + 1,
            },
        ),
    decreases labels.len(),
{
    let w = wire_labels(labels) + seq![0u8];
    assert(data[pos] == data.subrange(pos, pos + w.len())[0]);
    if labels.len() == 0 {
        assert(parse_name_simple(data, pos)->Ok_0.parts =~= labels);
    } else {
        let first = labels[0];
        let rest = labels.drop_first();
        let head = seq![length_byte(first)] + first;
        assert(w =~= head + (wire_labels(rest) + seq![0u8]));
        lemma_stands_at_split(data, pos, head, wire_labels(rest) + seq![0u8]);
        lemma_stands_at_split(data, pos, seq![length_byte(first)], first);
        assert(data[pos] == length_byte(first));
        assert(data.subrange(pos + 1, pos + 1 + first.len()) == first);
        assert forall|i: int| 0 <= i < rest.len() implies 1 <= (#[trigger] rest[i]).len() <= 255
            && valid_utf8(rest[i]) by {
            assert(rest[i] == labels[i + 1]);
        }
        lemma_parse_wire_labels_simple(data, pos + 1 + first.len(), rest);
        assert(seq![first] + rest =~= labels);
    }
}

/// Decoding with compression finds the labels whose wire form stands at
/// `pos`, where each has between 1 and 191 bytes of valid UTF-8, whatever the
/// number of jumps allowed.
pub proof fn lemma_parse_wire_labels(data: Seq<u8>, pos: int, labels: Seq<Seq<u8>>, jumps: nat)
    requires
        stands_at(data, pos, wire_labels(labels) + seq![0u8]),
        labels_within(labels, 191),
        forall|i: int| 0 <= i < labels.len() ==> valid_utf8(#[trigger] labels[i]),
    ensures
        parse_name(data, pos, jumps) == Ok::<NameRun, DNSError>(
            NameRun {
                parts: labels,
                read: wire_labels(labels).len() as int + 1,
                end: pos + wire_labels(labels).len() + 1,
            },
        ),
    decreases labels.len(),
{
    let w = wire_labels(labels) + seq![0u8];
    assert(data[pos] == data.subrange(pos, pos + w.len())[0]);
    if labels.len() == 0 {
        assert(parse_name(data, pos, jumps)->Ok_0.parts =~= labels);
    } else {
        let first = labels[0];
        let rest = labels.drop_first();
        let head = seq![length_byte(first)] + first;
        assert(w =~= head + (wire_labels(rest) + seq![0u8]));
        lemma_stands_at_split(data, pos, head, wire_labels(rest) + seq![0u8]);
        lemma_stands_at_split(data, pos, seq![length_byte(first)], first);
        assert(data[pos] == length_byte(first));
        lemma_short_length_is_no_pointer(data[pos]);
        assert(data.subrange(pos + 1, pos + 1 + first.len()) == first);
        assert forall|i: int| 0 <= i < rest.len() implies 1 <= (#[trigger] rest[i]).len() <= 191
            && valid_utf8(rest[i]) by {
            assert(rest[i] == labels[i + 1]);
        }
        lemma_parse_wire_labels(data, pos + 1 + first.len(), rest, jumps);
        assert(seq![first] + rest =~= labels);
    }
}

/// A name can be encoded exactly where none of its labels has more than 255
/// bytes.
pub proof fn lemma_encodable_name(name: Seq<u8>)
    ensures
        encodable_name(name) <==> forall|i: int|
            0 <= i < labels_of(name).len() ==> (#[trigger] labels_of(name)[i]).len() <= 255,
{
    lemma_first_long_label_bounds(labels_of(name));
}

/// Whether a name decodes to itself without compression: each of its labels
/// has between 1 and 255 bytes.
pub open spec fn plain_name(name: Seq<char>) -> bool {
    labels_within(labels_of(encode_utf8(name)), 255)
}

/// Whether a name decodes to itself where compression is looked for: each of
/// its labels has between 1 and 191 bytes, so that no length byte has both
/// high bits set.
pub open spec fn compressible_name(name: Seq<char>) -> bool {
    labels_within(labels_of(encode_utf8(name)), 191)
}

/// The name that a run of parts spells.
pub open spec fn name_text(run: NameRun) -> Seq<char> {
    decode_utf8(join_labels(run.parts))
}

/// Round trip of a name without compression: where the wire form of a name
/// with labels of 1 to 255 bytes stands at `pos`, decoding there gives the
/// name and ends behind the wire form.
pub proof fn lemma_name_roundtrip_simple(name: Seq<char>, data: Seq<u8>, pos: int)
    requires
        plain_name(name),
        stands_at(data, pos, wire_name(encode_utf8(name))),
    ensures
        parse_name_simple(data, pos) matches Ok(run) && name_text(run) == name && run.end == pos
            + wire_name(encode_utf8(name)).len() && run.read == wire_name(encode_utf8(name)).len(),
{
    let bytes = encode_utf8(name);
    encode_utf8_valid_utf8(name);
    lemma_labels_valid_utf8(bytes);
    lemma_parse_wire_labels_simple(data, pos, labels_of(bytes));
    lemma_join_labels_of(bytes);
    encode_utf8_decode_utf8(name);
}

/// Round trip of a name where compression is looked for: where the wire form
/// of a name with labels of 1 to 191 bytes stands at `pos`, decoding there
/// gives the name and ends behind the wire form.
pub proof fn lemma_name_roundtrip(name: Seq<char>, data: Seq<u8>, pos: int, jumps: nat)
    requires
        compressible_name(name),
        stands_at(data, pos, wire_name(encode_utf8(name))),
    ensures
        parse_name(data, pos, jumps) matches Ok(run) && name_text(run) == name && run.end == pos
            + wire_name(encode_utf8(name)).len() && run.read == wire_name(encode_utf8(name)).len(),
{
    let bytes = encode_utf8(name);
    encode_utf8_valid_utf8(name);
    lemma_labels_valid_utf8(bytes);
    lemma_parse_wire_labels(data, pos, labels_of(bytes), jumps);
    lemma_join_labels_of(bytes);
    encode_utf8_decode_utf8(name);
}

/// Where the bytes of a 16-bit integer stand, reading gives the integer.
pub proof fn lemma_u16_stands(data: Seq<u8>, pos: int, v: u16)
    requires
        stands_at(data, pos, be16(v)),
    ensures
        u16_at(data, pos) == v,
{
    let w = data.subrange(pos, pos + 2);
    assert(data[pos] == w[0]);
    assert(data[pos + 1] == w[1]);
}

/// Where the bytes of a 32-bit integer stand, reading gives the integer.
pub proof fn lemma_u32_stands(data: Seq<u8>, pos: int, v: u32)
    requires
        stands_at(data, pos, be32(v)),
    ensures
        u32_at(data, pos) == v,
{
    let w = data.subrange(pos, pos + 4);
    assert(data[pos] == w[0]);
    assert(data[pos + 1] == w[1]);
    assert(data[pos + 2] == w[2]);
    assert(data[pos + 3] == w[3]);
}

/// Round trip of a header: where the wire form of a header with canonical
/// flags stands, decoding gives the header.
pub proof fn lemma_header_roundtrip(h: DNSHeader, data: Seq<u8>, pos: int)
    requires
        h.flags.canonical(),
        stands_at(data, pos, wire_header(h)),
    ensures
        parse_header(data, pos) == Ok::<(DNSHeader, int), DNSError>((h, pos + 12)),
{
    let f0 = be16(h.id);
    let f1 = be16(h.flags.spec_code());
    let f2 = be16(h.num_questions);
    let f3 = be16(h.num_answers);
    let f4 = be16(h.num_authorities);
    let f5 = be16(h.num_additionals);
    lemma_stands_at_split(data, pos, f0 + f1 + f2 + f3 + f4, f5);
    lemma_stands_at_split(data, pos, f0 + f1 + f2 + f3, f4);
    lemma_stands_at_split(data, pos, f0 + f1 + f2, f3);
    lemma_stands_at_split(data, pos, f0 + f1, f2);
    lemma_stands_at_split(data, pos, f0, f1);
    lemma_u16_stands(data, pos, h.id);
    lemma_u16_stands(data, pos + 2, h.flags.spec_code());
    lemma_u16_stands(data, pos + 4, h.num_questions);
    lemma_u16_stands(data, pos + 6, h.num_answers);
    lemma_u16_stands(data, pos + 8, h.num_authorities);
    lemma_u16_stands(data, pos + 10, h.num_additionals);
}

/// Round trip of a question: where the wire form of a question stands whose
/// name has labels of 1 to 255 bytes, decoding gives the question.
pub proof fn lemma_question_roundtrip(q: QuestionView, data: Seq<u8>, pos: int)
    requires
        plain_name(q.name),
        stands_at(data, pos, wire_question(q)),
    ensures
        parse_question(data, pos) == Ok::<(QuestionView, int), DNSError>(
            (q, pos + wire_question(q).len()),
        ),
{
    let n = wire_name(encode_utf8(q.name));
    let t = be16(q.record_type.spec_code());
    let c = be16(q.class.spec_code());
    lemma_stands_at_split(data, pos, n + t, c);
    lemma_stands_at_split(data, pos, n, t);
    lemma_name_roundtrip_simple(q.name, data, pos);
    lemma_u16_stands(data, pos + n.len(), q.record_type.spec_code());
    lemma_u16_stands(data, pos + n.len() + 2, q.class.spec_code());
}

/// Whether a record decodes to itself: its name has labels of 1 to 191 bytes,
/// its data fit the 16-bit length, and its wire form is no longer than a
/// machine can count.
pub open spec fn faithful_record(r: RecordView) -> bool {
    &&& compressible_name(r.name)
    &&& r.data.len() <= 0xFFFF
    &&& wire_record(r).len() <= usize::MAX
}

/// Round trip of a record: where the wire form of a faithful record stands,
/// decoding gives the record.
pub proof fn lemma_record_roundtrip(r: RecordView, data: Seq<u8>, pos: int)
    requires
        faithful_record(r),
        stands_at(data, pos, wire_record(r)),
    ensures
        parse_record(data, pos) == Ok::<(RecordView, int), DNSError>(
            (r, pos + wire_record(r).len()),
        ),
{
    let n = wire_name(encode_utf8(r.name));
    let t = be16(r.record_type.spec_code());
    let c = be16(r.class.spec_code());
    let l = be32(r.ttl);
    let s = be16(r.data.len() as u16);
    lemma_stands_at_split(data, pos, n + t + c + l + s, r.data);
    lemma_stands_at_split(data, pos, n + t + c + l, s);
    lemma_stands_at_split(data, pos, n + t + c, l);
    lemma_stands_at_split(data, pos, n + t, c);
    lemma_stands_at_split(data, pos, n, t);
    lemma_name_roundtrip(r.name, data, pos, jump_budget(data.len()));
    let p = pos + n.len();
    lemma_u16_stands(data, p, r.record_type.spec_code());
    lemma_u16_stands(data, p + 2, r.class.spec_code());
    lemma_u32_stands(data, p + 4, r.ttl);
    lemma_u16_stands(data, p + 8, r.data.len() as u16);
    assert(parse_record_fields(data, p, r.name) == Ok::<(RecordView, int), DNSError>(
        (r, p + 10 + r.data.len()),
    ));
}

/// The wire form of questions is that of the first and then that of the rest.
pub proof fn lemma_wire_questions_first(qs: Seq<QuestionView>)
    requires
        qs.len() > 0,
    ensures
        wire_questions(qs) == wire_question(qs[0]) + wire_questions(qs.drop_first()),
    decreases qs.len(),
{
    if qs.len() == 1 {
        assert(wire_questions(qs.drop_last()) =~= Seq::<u8>::empty());
        assert(wire_questions(qs.drop_first()) =~= Seq::<u8>::empty());
        assert(wire_questions(qs) =~= wire_question(qs[0]) + wire_questions(qs.drop_first()));
    } else {
        lemma_wire_questions_first(qs.drop_last());
        assert(qs.drop_last().drop_first() =~= qs.drop_first().drop_last());
        assert(wire_questions(qs) =~= wire_question(qs[0]) + wire_questions(qs.drop_first()));
    }
}

/// The wire form of records is that of the first and then that of the rest.
pub proof fn lemma_wire_records_first(rs: Seq<RecordView>)
    requires
        rs.len() > 0,
    ensures
        wire_records(rs) == wire_record(rs[0]) + wire_records(rs.drop_first()),
    decreases rs.len(),
{
    if rs.len() == 1 {
        assert(wire_records(rs.drop_last()) =~= Seq::<u8>::empty());
        assert(wire_records(rs.drop_first()) =~= Seq::<u8>::empty());
        assert(wire_records(rs) =~= wire_record(rs[0]) + wire_records(rs.drop_first()));
    } else {
        lemma_wire_records_first(rs.drop_last());
        assert(rs.drop_last().drop_first() =~= rs.drop_first().drop_last());
        assert(wire_records(rs) =~= wire_record(rs[0]) + wire_records(rs.drop_first()));
    }
}

/// Whether every question has a name that decodes to itself.
pub open spec fn plain_questions(qs: Seq<QuestionView>) -> bool {
    forall|i: int| 0 <= i < qs.len() ==> plain_name(#[trigger] qs[i].name)
}

/// Whether every record decodes to itself.
pub open spec fn faithful_records(rs: Seq<RecordView>) -> bool {
    forall|i: int| 0 <= i < rs.len() ==> faithful_record(#[trigger] rs[i])
}

/// Round trip of questions: where their wire forms stand one behind the
/// other, decoding as many as there are gives them back.
pub proof fn lemma_questions_roundtrip(qs: Seq<QuestionView>, data: Seq<u8>, pos: int)
    requires
        plain_questions(qs),
        stands_at(data, pos, wire_questions(qs)),
    ensures
        parse_questions(data, pos, qs.len()) == Ok::<(Seq<QuestionView>, int), DNSError>(
            (qs, pos + wire_questions(qs).len()),
        ),
    decreases qs.len(),
{
    if qs.len() == 0 {
        assert(qs =~= Seq::<QuestionView>::empty());
    } else {
        let rest = qs.drop_first();
        lemma_wire_questions_first(qs);
        lemma_stands_at_split(data, pos, wire_question(qs[0]), wire_questions(rest));
        lemma_question_roundtrip(qs[0], data, pos);
        assert forall|i: int| 0 <= i < rest.len() implies plain_name(#[trigger] rest[i].name) by {
            assert(rest[i] == qs[i + 1]);
        }
        lemma_questions_roundtrip(rest, data, pos + wire_question(qs[0]).len());
        assert(seq![qs[0]] + rest =~= qs);
    }
}

/// Round trip of records: where their wire forms stand one behind the other,
/// decoding as many as there are gives them back.
pub proof fn lemma_records_roundtrip(rs: Seq<RecordView>, data: Seq<u8>, pos: int)
    requires
        faithful_records(rs),
        stands_at(data, pos, wire_records(rs)),
    ensures
        parse_records(data, pos, rs.len()) == Ok::<(Seq<RecordView>, int), DNSError>(
            (rs, pos + wire_records(rs).len()),
        ),
    decreases rs.len(),
{
    if rs.len() == 0 {
        assert(rs =~= Seq::<RecordView>::empty());
    } else {
        let rest = rs.drop_first();
        lemma_wire_records_first(rs);
        lemma_stands_at_split(data, pos, wire_record(rs[0]), wire_records(rest));
        lemma_record_roundtrip(rs[0], data, pos);
        assert forall|i: int| 0 <= i < rest.len() implies faithful_record(#[trigger] rest[i]) by {
            assert(rest[i] == rs[i + 1]);
        }
        lemma_records_roundtrip(rest, data, pos + wire_record(rs[0]).len());
        assert(seq![rs[0]] + rest =~= rs);
    }
}

/// Whether each count of the header is the length of its section.
pub open spec fn counts_match(p: PacketView) -> bool {
    &&& p.header.num_questions == p.questions.len()
    &&& p.header.num_answers == p.answers.len()
    &&& p.header.num_authorities == p.authorities.len()
    &&& p.header.num_additionals == p.additionals.len()
}

/// Whether a packet decodes to itself: its flags are canonical, each count of
/// its header is the length of its section, and every question and record
/// decodes to itself.
pub open spec fn faithful_packet(p: PacketView) -> bool {
    &&& p.header.flags.canonical()
    &&& counts_match(p)
    &&& plain_questions(p.questions)
    &&& faithful_records(p.answers)
    &&& faithful_records(p.authorities)
    &&& faithful_records(p.additionals)
}

/// Round trip of a packet: where the wire form of a faithful packet stands,
/// decoding gives the packet.
pub proof fn lemma_packet_roundtrip(p: PacketView, data: Seq<u8>, pos: int)
    requires
        faithful_packet(p),
        stands_at(data, pos, wire_packet(p)),
    ensures
        parse_packet(data, pos) == Ok::<(PacketView, int), DNSError>(
            (p, pos + wire_packet(p).len()),
        ),
{
    let h = wire_header(p.header);
    let q = wire_questions(p.questions);
    let a = wire_records(p.answers);
    let b = wire_records(p.authorities);
    let c = wire_records(p.additionals);
    lemma_stands_at_split(data, pos, h + q + a + b, c);
    lemma_stands_at_split(data, pos, h + q + a, b);
    lemma_stands_at_split(data, pos, h + q, a);
    lemma_stands_at_split(data, pos, h, q);
    lemma_header_roundtrip(p.header, data, pos);
    let p0 = pos + 12;
    lemma_questions_roundtrip(p.questions, data, p0);
    let p1 = p0 + q.len();
    lemma_records_roundtrip(p.answers, data, p1);
    let p2 = p1 + a.len();
    lemma_records_roundtrip(p.authorities, data, p2);
    let p3 = p2 + b.len();
    lemma_records_roundtrip(p.additionals, data, p3);
}

/// Decoding what encoding wrote gives the value back: the bytes of a faithful
/// packet, read from their start, are the packet.
pub proof fn lemma_decode_encode_packet(p: PacketView)
    requires
        faithful_packet(p),
    ensures
        parse_packet(wire_packet(p), 0) == Ok::<(PacketView, int), DNSError>(
            (p, wire_packet(p).len() as int),
        ),
{
    let w = wire_packet(p);
    assert(w.subrange(0, w.len() as int) =~= w);
    lemma_packet_roundtrip(p, w, 0);
}

/// An unknown code fails the decoding of a question, and the error holds the
/// code: where the name decodes and four bytes follow it, an unknown type
/// code is the error, and with a known type an unknown class code is.
pub proof fn lemma_question_with_unknown_code(data: Seq<u8>, pos: int)
    requires
        parse_name_simple(data, pos) matches Ok(run) && run.end + 4 <= data.len(),
    ensures
        ({
            let at = parse_name_simple(data, pos)->Ok_0.end;
            let type_code = u16_at(data, at);
            let class_code = u16_at(data, at + 2);
            &&& DNSRecordType::from_code(type_code) is Err ==> parse_question(data, pos) == Err::<
                (QuestionView, int),
                DNSError,
            >(DNSError::BadRecordType(type_code))
            &&& DNSRecordType::from_code(type_code) is Ok && DNSRecordClass::from_code(
                class_code,
            ) is Err ==> parse_question(data, pos) == Err::<(QuestionView, int), DNSError>(
                DNSError::BadRecordClass(class_code),
            )
        }),
{
}

/// An unknown code fails the decoding of a record, and the error holds the
/// code: behind the name, an unknown type code is the error as soon as its
/// two bytes are there, and with a known type an unknown class code is as
/// soon as its two bytes are there.
pub proof fn lemma_record_with_unknown_code(data: Seq<u8>, pos: int, name: Seq<char>)
    ensures
        pos + 2 <= data.len() && DNSRecordType::from_code(u16_at(data, pos)) is Err
            ==> parse_record_fields(data, pos, name) == Err::<(RecordView, int), DNSError>(
            DNSError::BadRecordType(u16_at(data, pos)),
        ),
        pos + 4 <= data.len() && DNSRecordType::from_code(u16_at(data, pos)) is Ok
            && DNSRecordClass::from_code(u16_at(data, pos + 2)) is Err ==> parse_record_fields(
            data,
            pos,
            name,
        ) == Err::<(RecordView, int), DNSError>(DNSError::BadRecordClass(u16_at(data, pos + 2))),
{
}

/// Decoding `n` questions gives `n` questions.
pub proof fn lemma_parsed_questions_len(data: Seq<u8>, pos: int, n: nat)
    ensures
        parse_questions(data, pos, n) matches Ok((qs, _)) ==> qs.len() == n,
    decreases n,
{
    if n > 0 {
        match parse_question(data, pos) {
            Ok((_, next)) => lemma_parsed_questions_len(data, next, (n - 1) as nat),
            Err(_) => {},
        }
    }
}

/// Decoding `n` records gives `n` records.
pub proof fn lemma_parsed_records_len(data: Seq<u8>, pos: int, n: nat)
    ensures
        parse_records(data, pos, n) matches Ok((rs, _)) ==> rs.len() == n,
    decreases n,
{
    if n > 0 {
        match parse_record(data, pos) {
            Ok((_, next)) => lemma_parsed_records_len(data, next, (n - 1) as nat),
            Err(_) => {},
        }
    }
}

/// In a packet that decoding gives, each count of the header is the length of
/// its section, and the flags are canonical.
pub proof fn lemma_parsed_packet_counts(data: Seq<u8>, pos: int)
    ensures
        parse_packet(data, pos) matches Ok((p, _)) ==> counts_match(p) && p.header.flags.canonical(),
{
    match parse_header(data, pos) {
        Ok((header, p0)) => {
            lemma_parsed_questions_len(data, p0, header.num_questions as nat);
            match parse_questions(data, p0, header.num_questions as nat) {
                Ok((_, p1)) => {
                    lemma_parsed_records_len(data, p1, header.num_answers as nat);
                    match parse_records(data, p1, header.num_answers as nat) {
                        Ok((_, p2)) => {
                            lemma_parsed_records_len(data, p2, header.num_authorities as nat);
                            match parse_records(data, p2, header.num_authorities as nat) {
                                Ok((_, p3)) => {
                                    lemma_parsed_records_len(
                                        data,
                                        p3,
                                        header.num_additionals as nat,
                                    );
                                },
                                Err(_) => {},
                            }
                        },
                        Err(_) => {},
                    }
                },
                Err(_) => {},
            }
        },
        Err(_) => {},
    }
}

/// Round trip of a query: where the wire form of a query stands whose flags
/// are canonical and whose name has labels of 1 to 255 bytes, decoding gives
/// the query.
pub proof fn lemma_query_roundtrip(q: QueryView, data: Seq<u8>, pos: int)
    requires
        q.header.flags.canonical(),
        plain_name(q.question.name),
        stands_at(data, pos, wire_query(q)),
    ensures
        parse_query(data, pos) == Ok::<(QueryView, int), DNSError>((q, pos + wire_query(q).len())),
{
    lemma_stands_at_split(data, pos, wire_header(q.header), wire_question(q.question));
    lemma_header_roundtrip(q.header, data, pos);
    lemma_question_roundtrip(q.question, data, pos + 12);
}

} // verus!

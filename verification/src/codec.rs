//! Messages into bytes and out of bytes.

use crate::cursor::ByteCursor;
use crate::decode::{dns_name as decode_name, dns_name_simple, jump_budget};
use crate::encode::dns_name as encode_name;
use crate::error::DNSError;
use crate::message::{
    DNSHeader, DNSHeaderFlag, DNSPacket, DNSQuery, DNSQuestion, DNSRecord, DNSRecordClass,
    DNSRecordType, PacketView, QueryView, QuestionView, RecordView, question_views, record_views,
};
use crate::name::{
    counted, encodable_name, first_long_label, join_labels, labels_of,
    lemma_first_long_label_bounds, parse_name,
    parse_name_simple, wire_labels, wire_name,
};
use crate::wire::{be16, be32, lemma_concat_assoc, put_bytes, put_u16, put_u32, u16_at, u32_at};
use vstd::prelude::*;
use vstd::utf8::*;

verus! {

/// Whether `e` is the error for the first label of `name` that is too long:
/// it holds that label and the name.
pub open spec fn name_refusal(name: Seq<char>, e: DNSError) -> bool {
    let labels = labels_of(encode_utf8(name));
    let k = first_long_label(labels) as int;
    &&& k < labels.len()
    &&& e matches DNSError::DomainNameHasTooLongPart { part, domain_name }
    &&& part@ == decode_utf8(labels[k])
    &&& domain_name@ == name
}

/// The count that encoding a name gives: the bytes of its labels and their
/// length bytes, without the terminating zero.
pub open spec fn name_count(name: Seq<char>) -> int {
    wire_labels(labels_of(encode_utf8(name))).len() as int
}

/// The twelve bytes of a header: id, flags and the four counts.
pub open spec fn wire_header(h: DNSHeader) -> Seq<u8> {
    be16(h.id) + be16(h.flags.spec_code()) + be16(h.num_questions) + be16(h.num_answers) + be16(
        h.num_authorities,
    ) + be16(h.num_additionals)
}

/// A question on the wire: name, type, class.
pub open spec fn wire_question(q: QuestionView) -> Seq<u8> {
    wire_name(encode_utf8(q.name)) + be16(q.record_type.spec_code()) + be16(q.class.spec_code())
}

/// A record on the wire: name, type, class, time to live, data length, data.
pub open spec fn wire_record(r: RecordView) -> Seq<u8> {
    wire_name(encode_utf8(r.name)) + be16(r.record_type.spec_code()) + be16(r.class.spec_code())
        + be32(r.ttl) + be16(r.data.len() as u16) + r.data
}

/// Whether a record can be encoded: its name can, and the length of its data
/// fits in sixteen bits.
pub open spec fn encodable_record(r: RecordView) -> bool {
    encodable_name(encode_utf8(r.name)) && r.data.len() <= 0xFFFF
}

/// Whether `e` is the error that encoding the record stops with.
pub open spec fn record_refusal(r: RecordView, e: DNSError) -> bool {
    if encodable_name(encode_utf8(r.name)) {
        r.data.len() > 0xFFFF && e == DNSError::IntTooLarge
    } else {
        name_refusal(r.name, e)
    }
}

/// The questions on the wire, one behind the other.
pub open spec fn wire_questions(qs: Seq<QuestionView>) -> Seq<u8>
    decreases qs.len(),
{
    if qs.len() == 0 {
        Seq::empty()
    } else {
        wire_questions(qs.drop_last()) + wire_question(qs.last())
    }
}

/// The records on the wire, one behind the other.
pub open spec fn wire_records(rs: Seq<RecordView>) -> Seq<u8>
    decreases rs.len(),
{
    if rs.len() == 0 {
        Seq::empty()
    } else {
        wire_records(rs.drop_last()) + wire_record(rs.last())
    }
}

/// The sum of the counts that encoding each question gives.
pub open spec fn questions_count(qs: Seq<QuestionView>) -> int
    decreases qs.len(),
{
    if qs.len() == 0 {
        0
    } else {
        questions_count(qs.drop_last()) + name_count(qs.last().name) + 4
    }
}

/// The sum of the counts that encoding each record gives.
pub open spec fn records_count(rs: Seq<RecordView>) -> int
    decreases rs.len(),
{
    if rs.len() == 0 {
        0
    } else {
        records_count(rs.drop_last()) + name_count(rs.last().name) + 10 + rs.last().data.len()
    }
}

/// Whether every question can be encoded.
#[verifier::opaque]
pub open spec fn encodable_questions(qs: Seq<QuestionView>) -> bool {
    forall|i: int| 0 <= i < qs.len() ==> encodable_name(encode_utf8(#[trigger] qs[i].name))
}

/// Whether every record can be encoded.
#[verifier::opaque]
pub open spec fn encodable_records(rs: Seq<RecordView>) -> bool {
    forall|i: int| 0 <= i < rs.len() ==> encodable_record(#[trigger] rs[i])
}

/// Whether `e` is the error of the first question that cannot be encoded.
#[verifier::opaque]
pub open spec fn questions_refusal(qs: Seq<QuestionView>, e: DNSError) -> bool {
    exists|i: int|
        0 <= i < qs.len() && encodable_questions(qs.take(i)) && name_refusal(
            #[trigger] qs[i].name,
            e,
        )
}

/// Whether `e` is the error of the first record that cannot be encoded.
#[verifier::opaque]
pub open spec fn records_refusal(rs: Seq<RecordView>, e: DNSError) -> bool {
    exists|i: int|
        0 <= i < rs.len() && encodable_records(rs.take(i)) && !encodable_record(rs[i])
            && record_refusal(#[trigger] rs[i], e)
}

/// Writes a name, and says of an error what the encoders around it need.
fn put_name(writer: &mut Vec<u8>, name: &str) -> (r: Result<usize, DNSError>)
    ensures
        match r {
            Ok(n) => {
                &&& encodable_name(encode_utf8(name@))
                &&& n == name_count(name@)
                &&& final(writer)@ == old(writer)@ + wire_name(encode_utf8(name@))
            },
            Err(e) => {
                &&& !encodable_name(encode_utf8(name@))
                &&& name_refusal(name@, e)
                &&& old(writer)@.is_prefix_of(final(writer)@)
            },
        },
{
    let r = encode_name(writer, name);
    proof {
        lemma_first_long_label_bounds(labels_of(encode_utf8(name@)));
    }
    r
}

/// A value that has a wire form.
pub trait ToBytes {
    /// The wire form.
    spec fn wire(&self) -> Seq<u8>;

    /// Whether the value can be encoded.
    spec fn encodable(&self) -> bool;

    /// The count that encoding gives. It leaves out the terminating zero byte
    /// of every name.
    spec fn count(&self) -> int;

    /// Whether `e` is the error that encoding stops with.
    spec fn refusal(&self, e: DNSError) -> bool;

    /// Appends the wire form to `writer`, all integers big-endian. Succeeds
    /// exactly on what can be encoded. On an error, what was written before
    /// the error was met stays in `writer`.
    fn to_bytes(&self, writer: &mut Vec<u8>) -> (r: Result<usize, DNSError>)
        ensures
            match r {
                Ok(n) => {
                    &&& self.encodable()
                    &&& n == self.count()
                    &&& final(writer)@ == old(writer)@ + self.wire()
                },
                Err(e) => {
                    &&& !self.encodable()
                    &&& self.refusal(e)
                    &&& old(writer)@.is_prefix_of(final(writer)@)
                },
            },
    ;
}

impl ToBytes for DNSHeader {
    open spec fn wire(&self) -> Seq<u8> {
        wire_header(*self)
    }

    open spec fn encodable(&self) -> bool {
        true
    }

    open spec fn count(&self) -> int {
        12
    }

    open spec fn refusal(&self, e: DNSError) -> bool {
        false
    }

    fn to_bytes(&self, writer: &mut Vec<u8>) -> (r: Result<usize, DNSError>) {
        put_u16(writer, self.id);
        put_u16(writer, self.flags.into());
        put_u16(writer, self.num_questions);
        put_u16(writer, self.num_answers);
        put_u16(writer, self.num_authorities);
        put_u16(writer, self.num_additionals);
        assert(writer@ =~= old(writer)@ + wire_header(*self));
        Ok(12)
    }
}

impl ToBytes for DNSQuestion {
    open spec fn wire(&self) -> Seq<u8> {
        wire_question(self@)
    }

    open spec fn encodable(&self) -> bool {
        encodable_name(encode_utf8(self.name@))
    }

    open spec fn count(&self) -> int {
        name_count(self.name@) + 4
    }

    open spec fn refusal(&self, e: DNSError) -> bool {
        name_refusal(self.name@, e)
    }

    fn to_bytes(&self, writer: &mut Vec<u8>) -> (r: Result<usize, DNSError>) {
        let dns_name_size = put_name(writer, self.name.as_str())?;
        put_u16(writer, self.record_type.code());
        put_u16(writer, self.class.code());
        proof {
            assert(writer@ =~= old(writer)@ + wire_question(self@));
            assert(writer.len() == writer@.len());
        }
        Ok(dns_name_size + 4)
    }
}

impl ToBytes for DNSRecord {
    open spec fn wire(&self) -> Seq<u8> {
        wire_record(self@)
    }

    open spec fn encodable(&self) -> bool {
        encodable_record(self@)
    }

    open spec fn count(&self) -> int {
        name_count(self.name@) + 10 + self.data@.len()
    }

    open spec fn refusal(&self, e: DNSError) -> bool {
        record_refusal(self@, e)
    }

    fn to_bytes(&self, writer: &mut Vec<u8>) -> (r: Result<usize, DNSError>) {
        let mut total = put_name(writer, self.name.as_str())?;
        put_u16(writer, self.record_type.code());
        put_u16(writer, self.class.code());
        put_u32(writer, self.ttl);
        if self.data.len() > 0xFFFF {
            return Err(DNSError::IntTooLarge);
        }
        put_u16(writer, self.data.len() as u16);
        put_bytes(writer, self.data.as_slice());
        proof {
            assert(writer@ =~= old(writer)@ + wire_record(self@));
            assert(writer.len() == writer@.len());
        }
        total = total + 10 + self.data.len();
        Ok(total)
    }
}

/// A query on the wire: the header, then the question.
pub open spec fn wire_query(q: QueryView) -> Seq<u8> {
    wire_header(q.header) + wire_question(q.question)
}

impl ToBytes for DNSQuery {
    open spec fn wire(&self) -> Seq<u8> {
        wire_query(self@)
    }

    open spec fn encodable(&self) -> bool {
        encodable_name(encode_utf8(self.question.name@))
    }

    open spec fn count(&self) -> int {
        12 + name_count(self.question.name@) + 4
    }

    open spec fn refusal(&self, e: DNSError) -> bool {
        name_refusal(self.question.name@, e)
    }

    fn to_bytes(&self, writer: &mut Vec<u8>) -> (r: Result<usize, DNSError>) {
        let mut total_bytes: usize = 0;
        total_bytes = total_bytes + self.header.to_bytes(writer)?;
        let written = self.question.to_bytes(writer)?;
        proof {
            assert(writer@ =~= old(writer)@ + wire_query(self@));
            assert(writer.len() == writer@.len());
        }
        total_bytes = total_bytes + written;
        Ok(total_bytes)
    }
}

/// Writes the questions one behind the other.
fn put_questions(writer: &mut Vec<u8>, questions: &Vec<DNSQuestion>) -> (r: Result<usize, DNSError>)
    ensures
        match r {
            Ok(n) => {
                &&& encodable_questions(question_views(questions@))
                &&& n == questions_count(question_views(questions@))
                &&& n <= final(writer)@.len() - old(writer)@.len()
                &&& final(writer)@ == old(writer)@ + wire_questions(question_views(questions@))
            },
            Err(e) => {
                &&& !encodable_questions(question_views(questions@))
                &&& questions_refusal(question_views(questions@), e)
                &&& old(writer)@.is_prefix_of(final(writer)@)
            },
        },
{
    let ghost views = question_views(questions@);
    let mut total: usize = 0;
    reveal(encodable_questions);
    reveal(questions_refusal);
    let mut i: usize = 0;
    while i < questions.len()
        invariant
            i <= questions@.len(),
            views == question_views(questions@),
            encodable_questions(views.take(i as int)),
            total == questions_count(views.take(i as int)),
            total <= writer@.len() - old(writer)@.len(),
            writer@ == old(writer)@ + wire_questions(views.take(i as int)),
        decreases questions@.len() - i,
    {
        let ghost before = writer@;
        reveal(encodable_questions);
        reveal(questions_refusal);
        match questions[i].to_bytes(writer) {
            Ok(n) => {
                proof {
                    let next = views.take(i + 1);
                    assert(next.drop_last() =~= views.take(i as int));
                    assert(next.last() == questions@[i as int]@);
                    assert(writer.len() == writer@.len());
                }
                total = total + n;
            },
            Err(e) => {
                proof {
                    assert(views[i as int] == questions@[i as int]@);
                    assert(before.is_prefix_of(writer@));
                }
                return Err(e);
            },
        }
        i = i + 1;
    }
    proof {
        assert(views.take(i as int) =~= views);
    }
    Ok(total)
}

/// Writes the records one behind the other.
fn put_records(writer: &mut Vec<u8>, records: &Vec<DNSRecord>) -> (r: Result<usize, DNSError>)
    ensures
        match r {
            Ok(n) => {
                &&& encodable_records(record_views(records@))
                &&& n == records_count(record_views(records@))
                &&& n <= final(writer)@.len() - old(writer)@.len()
                &&& final(writer)@ == old(writer)@ + wire_records(record_views(records@))
            },
            Err(e) => {
                &&& !encodable_records(record_views(records@))
                &&& records_refusal(record_views(records@), e)
                &&& old(writer)@.is_prefix_of(final(writer)@)
            },
        },
{
    let ghost views = record_views(records@);
    let mut total: usize = 0;
    reveal(encodable_records);
    reveal(records_refusal);
    let mut i: usize = 0;
    while i < records.len()
        invariant
            i <= records@.len(),
            views == record_views(records@),
            encodable_records(views.take(i as int)),
            total == records_count(views.take(i as int)),
            total <= writer@.len() - old(writer)@.len(),
            writer@ == old(writer)@ + wire_records(views.take(i as int)),
        decreases records@.len() - i,
    {
        let ghost before = writer@;
        reveal(encodable_records);
        reveal(records_refusal);
        match records[i].to_bytes(writer) {
            Ok(n) => {
                proof {
                    let next = views.take(i + 1);
                    assert(next.drop_last() =~= views.take(i as int));
                    assert(next.last() == records@[i as int]@);
                    assert(writer.len() == writer@.len());
                }
                total = total + n;
            },
            Err(e) => {
                proof {
                    assert(views[i as int] == records@[i as int]@);
                    assert(before.is_prefix_of(writer@));
                }
                return Err(e);
            },
        }
        i = i + 1;
    }
    proof {
        assert(views.take(i as int) =~= views);
    }
    Ok(total)
}

/// Whether `e` is the error of the first record of the three sections, in the
/// order of the wire, that cannot be encoded.
pub open spec fn sections_refusal(
    answers: Seq<RecordView>,
    authorities: Seq<RecordView>,
    additionals: Seq<RecordView>,
    e: DNSError,
) -> bool {
    if !encodable_records(answers) {
        records_refusal(answers, e)
    } else if !encodable_records(authorities) {
        records_refusal(authorities, e)
    } else {
        records_refusal(additionals, e)
    }
}

/// Writes the three sections of records one behind the other.
fn put_sections(
    writer: &mut Vec<u8>,
    answers: &Vec<DNSRecord>,
    authorities: &Vec<DNSRecord>,
    additionals: &Vec<DNSRecord>,
) -> (r: Result<usize, DNSError>)
    ensures
        match r {
            Ok(n) => {
                &&& encodable_records(record_views(answers@))
                &&& encodable_records(record_views(authorities@))
                &&& encodable_records(record_views(additionals@))
                &&& n == records_count(record_views(answers@)) + records_count(
                    record_views(authorities@),
                ) + records_count(record_views(additionals@))
                &&& n <= final(writer)@.len() - old(writer)@.len()
                &&& final(writer)@ == old(writer)@ + wire_records(record_views(answers@))
                    + wire_records(record_views(authorities@)) + wire_records(
                    record_views(additionals@),
                )
            },
            Err(e) => {
                &&& !(encodable_records(record_views(answers@)) && encodable_records(
                    record_views(authorities@),
                ) && encodable_records(record_views(additionals@)))
                &&& sections_refusal(
                    record_views(answers@),
                    record_views(authorities@),
                    record_views(additionals@),
                    e,
                )
                &&& old(writer)@.is_prefix_of(final(writer)@)
            },
        },
{
    let first = put_records(writer, answers)?;
    let second = match put_records(writer, authorities) {
        Ok(n) => n,
        Err(e) => {
            assert(old(writer)@.is_prefix_of(writer@));
            return Err(e);
        },
    };
    assert(old(writer)@.is_prefix_of(writer@));
    let third = match put_records(writer, additionals) {
        Ok(n) => n,
        Err(e) => {
            assert(old(writer)@.is_prefix_of(writer@));
            return Err(e);
        },
    };
    proof {
        assert(writer.len() == writer@.len());
    }
    Ok(first + second + third)
}

/// A packet on the wire: the header, the questions, the answers, the
/// authority records, the additional records.
pub open spec fn wire_packet(p: PacketView) -> Seq<u8> {
    wire_header(p.header) + wire_questions(p.questions) + wire_records(p.answers) + wire_records(
        p.authorities,
    ) + wire_records(p.additionals)
}

/// Whether every question and record of a packet can be encoded.
pub open spec fn encodable_packet(p: PacketView) -> bool {
    &&& encodable_questions(p.questions)
    &&& encodable_records(p.answers)
    &&& encodable_records(p.authorities)
    &&& encodable_records(p.additionals)
}

/// Whether `e` is the error of the first question or record of the packet, in
/// the order of the wire, that cannot be encoded.
pub open spec fn packet_refusal(p: PacketView, e: DNSError) -> bool {
    if !encodable_questions(p.questions) {
        questions_refusal(p.questions, e)
    } else {
        sections_refusal(p.answers, p.authorities, p.additionals, e)
    }
}

impl ToBytes for DNSPacket {
    open spec fn wire(&self) -> Seq<u8> {
        wire_packet(self@)
    }

    open spec fn encodable(&self) -> bool {
        encodable_packet(self@)
    }

    open spec fn count(&self) -> int {
        12 + questions_count(self@.questions) + records_count(self@.answers) + records_count(
            self@.authorities,
        ) + records_count(self@.additionals)
    }

    open spec fn refusal(&self, e: DNSError) -> bool {
        packet_refusal(self@, e)
    }

    fn to_bytes(&self, writer: &mut Vec<u8>) -> (r: Result<usize, DNSError>) {
        let header = self.header.to_bytes(writer)?;
        let questions = put_questions(writer, &self.questions)?;
        let records = put_sections(writer, &self.answers, &self.authorities, &self.additionals)?;
        proof {
            let view = self@;
            let h = wire_header(view.header);
            let q = wire_questions(view.questions);
            let a = wire_records(view.answers);
            let b = wire_records(view.authorities);
            let c = wire_records(view.additionals);
            assert(writer@ == old(writer)@ + h + q + a + b + c);
            lemma_concat_assoc(old(writer)@, h, q);
            lemma_concat_assoc(old(writer)@, h + q, a);
            lemma_concat_assoc(old(writer)@, h + q + a, b);
            lemma_concat_assoc(old(writer)@, h + q + a + b, c);
            assert(writer.len() == writer@.len());
        }
        Ok(header + questions + records)
    }
}

/// Decoding a header at `pos`: six 16-bit integers, in the order of the wire.
/// Every flags word decodes.
pub open spec fn parse_header(data: Seq<u8>, pos: int) -> Result<(DNSHeader, int), DNSError> {
    if pos < 0 || pos + 12 > data.len() {
        Err(DNSError::IOError)
    } else {
        Ok(
            (
                DNSHeader {
                    id: u16_at(data, pos),
                    flags: DNSHeaderFlag::from_code(u16_at(data, pos + 2)),
                    num_questions: u16_at(data, pos + 4),
                    num_answers: u16_at(data, pos + 6),
                    num_authorities: u16_at(data, pos + 8),
                    num_additionals: u16_at(data, pos + 10),
                },
                pos + 12,
            ),
        )
    }
}

/// Decoding a question at `pos`: a name without compression, then type and
/// class. Both codes are read before either is looked at.
pub open spec fn parse_question(data: Seq<u8>, pos: int) -> Result<(QuestionView, int), DNSError> {
    match parse_name_simple(data, pos) {
        Err(e) => Err(e),
        Ok(run) => if run.end + 4 > data.len() {
            Err(DNSError::IOError)
        } else {
            match DNSRecordType::from_code(u16_at(data, run.end)) {
                Err(e) => Err(e),
                Ok(record_type) => match DNSRecordClass::from_code(u16_at(data, run.end + 2)) {
                    Err(e) => Err(e),
                    Ok(class) => Ok(
                        (
                            QuestionView {
                                name: decode_utf8(join_labels(run.parts)),
                                record_type,
                                class,
                            },
                            run.end + 4,
                        ),
                    ),
                },
            }
        },
    }
}

/// Decoding what follows the name of a record, which ended at `pos`: type,
/// class, time to live, data length, and as many bytes of data as that says.
pub open spec fn parse_record_fields(data: Seq<u8>, pos: int, name: Seq<char>) -> Result<
    (RecordView, int),
    DNSError,
> {
    if pos + 2 > data.len() {
        Err(DNSError::IOError)
    } else {
        match DNSRecordType::from_code(u16_at(data, pos)) {
            Err(e) => Err(e),
            Ok(record_type) => if pos + 4 > data.len() {
                Err(DNSError::IOError)
            } else {
                match DNSRecordClass::from_code(u16_at(data, pos + 2)) {
                    Err(e) => Err(e),
                    Ok(class) => if pos + 10 > data.len() || pos + 10 + u16_at(data, pos + 8)
                        > data.len() {
                        Err(DNSError::IOError)
                    } else {
                        let end = pos + 10 + u16_at(data, pos + 8);
                        Ok(
                            (
                                RecordView {
                                    name,
                                    record_type,
                                    class,
                                    ttl: u32_at(data, pos + 4),
                                    data: data.subrange(pos + 10, end),
                                },
                                end,
                            ),
                        )
                    },
                }
            },
        }
    }
}

/// Decoding a record at `pos`: a name that may be compressed, then the fields.
pub open spec fn parse_record(data: Seq<u8>, pos: int) -> Result<(RecordView, int), DNSError> {
    match counted(parse_name(data, pos, jump_budget(data.len()))) {
        Err(e) => Err(e),
        Ok(run) => parse_record_fields(data, run.end, decode_utf8(join_labels(run.parts))),
    }
}

/// The outcome `rest` of decoding further items, seen from before the items
/// `done`.
pub open spec fn after_items<T>(done: Seq<T>, rest: Result<(Seq<T>, int), DNSError>) -> Result<
    (Seq<T>, int),
    DNSError,
> {
    match rest {
        Ok((items, end)) => Ok((done + items, end)),
        Err(e) => Err(e),
    }
}

/// Decoding `n` questions that stand one behind the other from `pos`.
pub open spec fn parse_questions(data: Seq<u8>, pos: int, n: nat) -> Result<
    (Seq<QuestionView>, int),
    DNSError,
>
    decreases n,
{
    if n == 0 {
        Ok((Seq::empty(), pos))
    } else {
        match parse_question(data, pos) {
            Err(e) => Err(e),
            Ok((q, next)) => after_items(seq![q], parse_questions(data, next, (n - 1) as nat)),
        }
    }
}

/// Decoding `n` records that stand one behind the other from `pos`.
pub open spec fn parse_records(data: Seq<u8>, pos: int, n: nat) -> Result<
    (Seq<RecordView>, int),
    DNSError,
>
    decreases n,
{
    if n == 0 {
        Ok((Seq::empty(), pos))
    } else {
        match parse_record(data, pos) {
            Err(e) => Err(e),
            Ok((r, next)) => after_items(seq![r], parse_records(data, next, (n - 1) as nat)),
        }
    }
}

/// Decoding a query at `pos`: the header, then one question.
pub open spec fn parse_query(data: Seq<u8>, pos: int) -> Result<(QueryView, int), DNSError> {
    match parse_header(data, pos) {
        Err(e) => Err(e),
        Ok((header, next)) => match parse_question(data, next) {
            Err(e) => Err(e),
            Ok((question, end)) => Ok((QueryView { header, question }, end)),
        },
    }
}

/// Decoding a packet at `pos`: the header, then as many questions, answers,
/// authority records and additional records as the header counts, in that
/// order. The counts are believed; where the bytes run out, decoding fails.
pub open spec fn parse_packet(data: Seq<u8>, pos: int) -> Result<(PacketView, int), DNSError> {
    match parse_header(data, pos) {
        Err(e) => Err(e),
        Ok((header, p0)) => match parse_questions(data, p0, header.num_questions as nat) {
            Err(e) => Err(e),
            Ok((questions, p1)) => match parse_records(data, p1, header.num_answers as nat) {
                Err(e) => Err(e),
                Ok((answers, p2)) => match parse_records(
                    data,
                    p2,
                    header.num_authorities as nat,
                ) {
                    Err(e) => Err(e),
                    Ok((authorities, p3)) => match parse_records(
                        data,
                        p3,
                        header.num_additionals as nat,
                    ) {
                        Err(e) => Err(e),
                        Ok((additionals, end)) => Ok(
                            (
                                PacketView { header, questions, answers, authorities, additionals },
                                end,
                            ),
                        ),
                    },
                },
            },
        },
    }
}

/// A value that can be read from a message.
pub trait FromBytes: Sized + View {
    /// What the bytes at `pos` in `data` decode to, and the offset behind it.
    spec fn parse(data: Seq<u8>, pos: int) -> Result<(Self::V, int), DNSError>;

    /// Reads a value at the reader's offset and leaves the reader behind it.
    /// The message itself is never changed. After a failure the reader's
    /// offset is not specified.
    fn from_bytes(reader: &mut ByteCursor<'_>) -> (r: Result<Self, DNSError>)
        ensures
            final(reader).bytes() == old(reader).bytes(),
            match Self::parse(old(reader).bytes(), old(reader).offset()) {
                Ok((v, end)) => r matches Ok(x) && x@ == v && final(reader).offset() == end,
                Err(e) => r matches Err(x) && x == e,
            },
    ;
}

impl FromBytes for DNSHeader {
    open spec fn parse(data: Seq<u8>, pos: int) -> Result<(DNSHeader, int), DNSError> {
        parse_header(data, pos)
    }

    fn from_bytes(reader: &mut ByteCursor<'_>) -> (r: Result<Self, DNSError>) {
        proof {
            old(reader).lemma_in_range();
        }
        let id = reader.read_u16()?;
        let flags: DNSHeaderFlag = reader.read_u16()?.into();
        let num_questions = reader.read_u16()?;
        let num_answers = reader.read_u16()?;
        let num_authorities = reader.read_u16()?;
        let num_additionals = reader.read_u16()?;
        Ok(DNSHeader { id, flags, num_questions, num_answers, num_authorities, num_additionals })
    }
}

impl FromBytes for DNSQuestion {
    open spec fn parse(data: Seq<u8>, pos: int) -> Result<(QuestionView, int), DNSError> {
        parse_question(data, pos)
    }

    fn from_bytes(reader: &mut ByteCursor<'_>) -> (r: Result<Self, DNSError>) {
        let (name, _) = dns_name_simple(reader)?;
        proof {
            reader.lemma_in_range();
        }
        let record_type = reader.read_u16()?;
        let class = reader.read_u16()?;
        let record_type = DNSRecordType::try_from(record_type)?;
        let class = DNSRecordClass::try_from(class)?;
        Ok(DNSQuestion { name, record_type, class })
    }
}

impl FromBytes for DNSRecord {
    open spec fn parse(data: Seq<u8>, pos: int) -> Result<(RecordView, int), DNSError> {
        parse_record(data, pos)
    }

    fn from_bytes(reader: &mut ByteCursor<'_>) -> (r: Result<Self, DNSError>) {
        let (name, _) = decode_name(reader)?;
        proof {
            reader.lemma_in_range();
        }
        let record_type = DNSRecordType::try_from(reader.read_u16()?)?;
        let class = DNSRecordClass::try_from(reader.read_u16()?)?;
        let ttl = reader.read_u32()?;
        let data_len = reader.read_u16()?;
        let data = reader.read_exact(data_len as usize)?;
        Ok(DNSRecord { name, record_type, class, ttl, data })
    }
}

impl FromBytes for DNSQuery {
    open spec fn parse(data: Seq<u8>, pos: int) -> Result<(QueryView, int), DNSError> {
        parse_query(data, pos)
    }

    fn from_bytes(reader: &mut ByteCursor<'_>) -> (r: Result<Self, DNSError>) {
        let header = DNSHeader::from_bytes(reader)?;
        let question = DNSQuestion::from_bytes(reader)?;
        Ok(DNSQuery { header, question })
    }
}

/// Reads `n` questions that stand one behind the other.
fn read_questions(reader: &mut ByteCursor<'_>, n: u16) -> (r: Result<Vec<DNSQuestion>, DNSError>)
    ensures
        final(reader).bytes() == old(reader).bytes(),
        match parse_questions(old(reader).bytes(), old(reader).offset(), n as nat) {
            Ok((items, end)) => {
                &&& r matches Ok(v)
                &&& question_views(v@) == items
                &&& final(reader).offset() == end
            },
            Err(e) => r matches Err(x) && x == e,
        },
{
    let ghost data = reader.bytes();
    let ghost start = reader.offset();
    let mut questions: Vec<DNSQuestion> = Vec::new();
    let mut i: u16 = 0;
    proof {
        let whole = parse_questions(data, start, n as nat);
        if whole is Ok {
            assert(question_views(questions@) + whole->Ok_0.0 =~= whole->Ok_0.0);
        }
    }
    while i < n
        invariant
            i <= n,
            reader.bytes() == data,
            data == old(reader).bytes(),
            start == old(reader).offset(),
            parse_questions(data, start, n as nat) == after_items(
                question_views(questions@),
                parse_questions(data, reader.offset(), (n - i) as nat),
            ),
        decreases n - i,
    {
        let ghost done = question_views(questions@);
        let question = DNSQuestion::from_bytes(reader)?;
        questions.push(question);
        i = i + 1;
        proof {
            assert(question_views(questions@) =~= done.push(question@));
            let rest = parse_questions(data, reader.offset(), (n - i) as nat);
            if rest is Ok {
                assert(done + (seq![question@] + rest->Ok_0.0) =~= done.push(question@)
                    + rest->Ok_0.0);
            }
        }
    }
    proof {
        assert(question_views(questions@) + Seq::<QuestionView>::empty() =~= question_views(
            questions@,
        ));
    }
    Ok(questions)
}

/// Reads `n` records that stand one behind the other.
fn read_records(reader: &mut ByteCursor<'_>, n: u16) -> (r: Result<Vec<DNSRecord>, DNSError>)
    ensures
        final(reader).bytes() == old(reader).bytes(),
        match parse_records(old(reader).bytes(), old(reader).offset(), n as nat) {
            Ok((items, end)) => {
                &&& r matches Ok(v)
                &&& record_views(v@) == items
                &&& final(reader).offset() == end
            },
            Err(e) => r matches Err(x) && x == e,
        },
{
    let ghost data = reader.bytes();
    let ghost start = reader.offset();
    let mut records: Vec<DNSRecord> = Vec::new();
    let mut i: u16 = 0;
    proof {
        let whole = parse_records(data, start, n as nat);
        if whole is Ok {
            assert(record_views(records@) + whole->Ok_0.0 =~= whole->Ok_0.0);
        }
    }
    while i < n
        invariant
            i <= n,
            reader.bytes() == data,
            data == old(reader).bytes(),
            start == old(reader).offset(),
            parse_records(data, start, n as nat) == after_items(
                record_views(records@),
                parse_records(data, reader.offset(), (n - i) as nat),
            ),
        decreases n - i,
    {
        let ghost done = record_views(records@);
        let record = DNSRecord::from_bytes(reader)?;
        records.push(record);
        i = i + 1;
        proof {
            assert(record_views(records@) =~= done.push(record@));
            let rest = parse_records(data, reader.offset(), (n - i) as nat);
            if rest is Ok {
                assert(done + (seq![record@] + rest->Ok_0.0) =~= done.push(record@)
                    + rest->Ok_0.0);
            }
        }
    }
    proof {
        assert(record_views(records@) + Seq::<RecordView>::empty() =~= record_views(records@));
    }
    Ok(records)
}

impl FromBytes for DNSPacket {
    open spec fn parse(data: Seq<u8>, pos: int) -> Result<(PacketView, int), DNSError> {
        parse_packet(data, pos)
    }

    fn from_bytes(reader: &mut ByteCursor<'_>) -> (r: Result<Self, DNSError>) {
        let header = DNSHeader::from_bytes(reader)?;
        let questions = read_questions(reader, header.num_questions)?;
        let answers = read_records(reader, header.num_answers)?;
        let authorities = read_records(reader, header.num_authorities)?;
        let additionals = read_records(reader, header.num_additionals)?;
        Ok(DNSPacket { header, questions, answers, authorities, additionals })
    }
}

} // verus!

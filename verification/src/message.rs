//! The message model: header, question, resource record, packet, and the
//! closed sets of record types, record classes and header flags.

use crate::error::DNSError;
use vstd::prelude::*;
use vstd::std_specs::convert::{FromSpecImpl, TryFromSpecImpl};

verus! {

/// The flags word of a header. Only "no flags" and "recursion desired" have a
/// name; every other bit pattern is kept as it came.
#[derive(Debug, Clone, Copy, PartialEq, Eq, Structural)]
pub enum DNSHeaderFlag {
    RecursionDesired,
    NoFlags,
    Other(u16),
}

impl DNSHeaderFlag {
    /// The flags word on the wire.
    pub open spec fn spec_code(self) -> u16 {
        match self {
            DNSHeaderFlag::NoFlags => 0,
            DNSHeaderFlag::RecursionDesired => 256,
            DNSHeaderFlag::Other(v) => v,
        }
    }

    /// The flag value that a flags word decodes to. Every word decodes.
    pub open spec fn from_code(code: u16) -> DNSHeaderFlag {
        if code == 0 {
            DNSHeaderFlag::NoFlags
        } else if code == 256 {
            DNSHeaderFlag::RecursionDesired
        } else {
            DNSHeaderFlag::Other(code)
        }
    }

    /// Whether this is the value that its own flags word decodes to:
    /// `Other` never holds a word that has a name.
    pub open spec fn canonical(self) -> bool {
        self != DNSHeaderFlag::Other(0) && self != DNSHeaderFlag::Other(256)
    }

    /// The flags word on the wire.
    #[verifier::when_used_as_spec(spec_code)]
    pub fn code(self) -> (code: u16)
        ensures
            code == self.spec_code(),
    {
        match self {
            DNSHeaderFlag::NoFlags => 0,
            DNSHeaderFlag::RecursionDesired => 256,
            DNSHeaderFlag::Other(v) => v,
        }
    }
}

impl From<DNSHeaderFlag> for u16 {
    fn from(value: DNSHeaderFlag) -> (code: u16) {
        value.code()
    }
}

impl FromSpecImpl<DNSHeaderFlag> for u16 {
    open spec fn obeys_from_spec() -> bool {
        true
    }

    open spec fn from_spec(value: DNSHeaderFlag) -> u16 {
        value.spec_code()
    }
}

impl From<u16> for DNSHeaderFlag {
    fn from(value: u16) -> (flag: DNSHeaderFlag) {
        if value == 0 {
            DNSHeaderFlag::NoFlags
        } else if value == 256 {
            DNSHeaderFlag::RecursionDesired
        } else {
            DNSHeaderFlag::Other(value)
        }
    }
}

impl FromSpecImpl<u16> for DNSHeaderFlag {
    open spec fn obeys_from_spec() -> bool {
        true
    }

    open spec fn from_spec(value: u16) -> DNSHeaderFlag {
        DNSHeaderFlag::from_code(value)
    }
}

/// The record types this resolver knows.
#[derive(Debug, Clone, Copy, PartialEq, Eq, Structural)]
pub enum DNSRecordType {
    A,
    AAAA,
    NS,
    CNAME,
    TXT,
    OPT,
    SOA,
}

impl DNSRecordType {
    /// The code of the type on the wire.
    pub open spec fn spec_code(self) -> u16 {
        match self {
            DNSRecordType::A => 1,
            DNSRecordType::NS => 2,
            DNSRecordType::CNAME => 5,
            DNSRecordType::SOA => 6,
            DNSRecordType::TXT => 16,
            DNSRecordType::AAAA => 28,
            DNSRecordType::OPT => 41,
        }
    }

    /// The type with the given code, or the error that holds the code.
    pub open spec fn from_code(code: u16) -> Result<DNSRecordType, DNSError> {
        if code == 1 {
            Ok(DNSRecordType::A)
        } else if code == 2 {
            Ok(DNSRecordType::NS)
        } else if code == 5 {
            Ok(DNSRecordType::CNAME)
        } else if code == 6 {
            Ok(DNSRecordType::SOA)
        } else if code == 16 {
            Ok(DNSRecordType::TXT)
        } else if code == 28 {
            Ok(DNSRecordType::AAAA)
        } else if code == 41 {
            Ok(DNSRecordType::OPT)
        } else {
            Err(DNSError::BadRecordType(code))
        }
    }

    /// The code of the type on the wire.
    #[verifier::when_used_as_spec(spec_code)]
    pub fn code(self) -> (code: u16)
        ensures
            code == self.spec_code(),
    {
        match self {
            DNSRecordType::A => 1,
            DNSRecordType::NS => 2,
            DNSRecordType::CNAME => 5,
            DNSRecordType::SOA => 6,
            DNSRecordType::TXT => 16,
            DNSRecordType::AAAA => 28,
            DNSRecordType::OPT => 41,
        }
    }
}

impl TryFrom<u16> for DNSRecordType {
    type Error = DNSError;

    fn try_from(value: u16) -> (r: Result<Self, Self::Error>) {
        match value {
            1 => Ok(DNSRecordType::A),
            2 => Ok(DNSRecordType::NS),
            5 => Ok(DNSRecordType::CNAME),
            6 => Ok(DNSRecordType::SOA),
            16 => Ok(DNSRecordType::TXT),
            28 => Ok(DNSRecordType::AAAA),
            41 => Ok(DNSRecordType::OPT),
            _ => Err(DNSError::BadRecordType(value)),
        }
    }
}

impl TryFromSpecImpl<u16> for DNSRecordType {
    open spec fn obeys_try_from_spec() -> bool {
        true
    }

    open spec fn try_from_spec(value: u16) -> Result<Self, Self::Error> {
        DNSRecordType::from_code(value)
    }
}

/// The record classes this resolver knows.
#[derive(Debug, Clone, Copy, PartialEq, Eq, Structural)]
pub enum DNSRecordClass {
    IN,
    CS,
    CH,
    HS,
}

impl DNSRecordClass {
    /// The code of the class on the wire.
    pub open spec fn spec_code(self) -> u16 {
        match self {
            DNSRecordClass::IN => 1,
            DNSRecordClass::CS => 2,
            DNSRecordClass::CH => 3,
            DNSRecordClass::HS => 4,
        }
    }

    /// The class with the given code, or the error that holds the code.
    pub open spec fn from_code(code: u16) -> Result<DNSRecordClass, DNSError> {
        if code == 1 {
            Ok(DNSRecordClass::IN)
        } else if code == 2 {
            Ok(DNSRecordClass::CS)
        } else if code == 3 {
            Ok(DNSRecordClass::CH)
        } else if code == 4 {
            Ok(DNSRecordClass::HS)
        } else {
            Err(DNSError::BadRecordClass(code))
        }
    }

    /// The code of the class on the wire.
    #[verifier::when_used_as_spec(spec_code)]
    pub fn code(self) -> (code: u16)
        ensures
            code == self.spec_code(),
    {
        match self {
            DNSRecordClass::IN => 1,
            DNSRecordClass::CS => 2,
            DNSRecordClass::CH => 3,
            DNSRecordClass::HS => 4,
        }
    }
}

impl TryFrom<u16> for DNSRecordClass {
    type Error = DNSError;

    fn try_from(value: u16) -> (r: Result<Self, Self::Error>) {
        match value {
            1 => Ok(DNSRecordClass::IN),
            2 => Ok(DNSRecordClass::CS),
            3 => Ok(DNSRecordClass::CH),
            4 => Ok(DNSRecordClass::HS),
            _ => Err(DNSError::BadRecordClass(value)),
        }
    }
}

impl TryFromSpecImpl<u16> for DNSRecordClass {
    open spec fn obeys_try_from_spec() -> bool {
        true
    }

    open spec fn try_from_spec(value: u16) -> Result<Self, Self::Error> {
        DNSRecordClass::from_code(value)
    }
}

/// Every type decodes from its own code, a code that decodes is the code of
/// the type it gives, and any other code fails with the error that holds it.
pub proof fn lemma_record_type_codes(t: DNSRecordType, code: u16)
    ensures
        DNSRecordType::from_code(t.spec_code()) == Ok::<DNSRecordType, DNSError>(t),
        DNSRecordType::from_code(code) matches Ok(u) ==> u.spec_code() == code,
        DNSRecordType::from_code(code) is Err <==> !(code == 1 || code == 2 || code == 5 || code
            == 6 || code == 16 || code == 28 || code == 41),
        DNSRecordType::from_code(code) is Err ==> DNSRecordType::from_code(code) == Err::<
            DNSRecordType,
            DNSError,
        >(DNSError::BadRecordType(code)),
{
}

/// Every class decodes from its own code, a code that decodes is the code of
/// the class it gives, and any other code fails with the error that holds it.
pub proof fn lemma_record_class_codes(c: DNSRecordClass, code: u16)
    ensures
        DNSRecordClass::from_code(c.spec_code()) == Ok::<DNSRecordClass, DNSError>(c),
        DNSRecordClass::from_code(code) matches Ok(d) ==> d.spec_code() == code,
        DNSRecordClass::from_code(code) is Err <==> !(1 <= code <= 4),
        DNSRecordClass::from_code(code) is Err ==> DNSRecordClass::from_code(code) == Err::<
            DNSRecordClass,
            DNSError,
        >(DNSError::BadRecordClass(code)),
{
}

/// A flag decodes from its own word exactly when it is canonical, and what a
/// word decodes to always encodes to that word.
pub proof fn lemma_header_flag_codes(flag: DNSHeaderFlag, code: u16)
    ensures
        DNSHeaderFlag::from_code(flag.spec_code()) == flag <==> flag.canonical(),
        DNSHeaderFlag::from_code(code).spec_code() == code,
        DNSHeaderFlag::from_code(code).canonical(),
{
}

/// The twelve-byte header of a message.
#[derive(Debug, Clone, Copy, PartialEq, Eq, Structural)]
pub struct DNSHeader {
    pub id: u16,
    pub flags: DNSHeaderFlag,
    pub num_questions: u16,
    pub num_answers: u16,
    pub num_authorities: u16,
    pub num_additionals: u16,
}

impl View for DNSHeader {
    type V = DNSHeader;

    open spec fn view(&self) -> DNSHeader {
        *self
    }
}

/// A question: which name, which type, which class.
#[derive(Debug, Clone, PartialEq, Eq)]
pub struct DNSQuestion {
    pub name: String,
    pub record_type: DNSRecordType,
    pub class: DNSRecordClass,
}

/// A question as a value: its name is the text of the name.
pub struct QuestionView {
    pub name: Seq<char>,
    pub record_type: DNSRecordType,
    pub class: DNSRecordClass,
}

impl View for DNSQuestion {
    type V = QuestionView;

    open spec fn view(&self) -> QuestionView {
        QuestionView { name: self.name@, record_type: self.record_type, class: self.class }
    }
}

impl DNSQuestion {
    /// The question for `domain_name` with the given type and class.
    pub fn new(domain_name: &str, record_type: DNSRecordType, class: DNSRecordClass) -> (q: Self)
        ensures
            q@ == (QuestionView { name: domain_name@, record_type, class }),
    {
        DNSQuestion { name: domain_name.to_owned(), record_type, class }
    }
}

/// A resource record. What its data mean depends on its type.
#[derive(Debug, Clone, PartialEq, Eq)]
pub struct DNSRecord {
    pub name: String,
    pub record_type: DNSRecordType,
    pub class: DNSRecordClass,
    pub ttl: u32,
    pub data: Vec<u8>,
}

/// A resource record as a value.
pub struct RecordView {
    pub name: Seq<char>,
    pub record_type: DNSRecordType,
    pub class: DNSRecordClass,
    pub ttl: u32,
    pub data: Seq<u8>,
}

impl View for DNSRecord {
    type V = RecordView;

    open spec fn view(&self) -> RecordView {
        RecordView {
            name: self.name@,
            record_type: self.record_type,
            class: self.class,
            ttl: self.ttl,
            data: self.data@,
        }
    }
}

/// A whole message: the header and the four sections.
#[derive(Debug, Clone)]
pub struct DNSPacket {
    pub header: DNSHeader,
    pub questions: Vec<DNSQuestion>,
    pub answers: Vec<DNSRecord>,
    pub authorities: Vec<DNSRecord>,
    pub additionals: Vec<DNSRecord>,
}

/// A whole message as a value.
pub struct PacketView {
    pub header: DNSHeader,
    pub questions: Seq<QuestionView>,
    pub answers: Seq<RecordView>,
    pub authorities: Seq<RecordView>,
    pub additionals: Seq<RecordView>,
}

/// The questions as values.
pub open spec fn question_views(questions: Seq<DNSQuestion>) -> Seq<QuestionView> {
    questions.map_values(|q: DNSQuestion| q@)
}

/// The records as values.
pub open spec fn record_views(records: Seq<DNSRecord>) -> Seq<RecordView> {
    records.map_values(|r: DNSRecord| r@)
}

impl View for DNSPacket {
    type V = PacketView;

    open spec fn view(&self) -> PacketView {
        PacketView {
            header: self.header,
            questions: question_views(self.questions@),
            answers: record_views(self.answers@),
            authorities: record_views(self.authorities@),
            additionals: record_views(self.additionals@),
        }
    }
}

/// A query: a header and the one question it asks.
#[derive(Debug, Clone)]
pub struct DNSQuery {
    pub header: DNSHeader,
    pub question: DNSQuestion,
}

/// A query as a value.
pub struct QueryView {
    pub header: DNSHeader,
    pub question: QuestionView,
}

impl View for DNSQuery {
    type V = QueryView;

    open spec fn view(&self) -> QueryView {
        QueryView { header: self.header, question: self.question@ }
    }
}

} // verus!

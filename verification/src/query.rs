//! Building a query.

use crate::message::{
    DNSHeader, DNSHeaderFlag, DNSQuery, DNSQuestion, DNSRecordClass, DNSRecordType, QueryView,
    QuestionView,
};
use rand::Rng;
use vstd::prelude::*;

verus! {

/// `rand::thread_rng` and `Rng::gen`: a 16-bit integer drawn from the
/// generator of the calling thread. Nothing is claimed of the value.
#[verifier::external_body]
fn random_id() -> u16 {
    rand::thread_rng().gen()
}

/// The query with the given id that asks one question and holds no records.
pub open spec fn query_view(
    id: u16,
    domain_name: Seq<char>,
    record_type: DNSRecordType,
    record_class: DNSRecordClass,
    flags: DNSHeaderFlag,
) -> QueryView {
    QueryView {
        header: DNSHeader {
            id,
            flags,
            num_questions: 1,
            num_answers: 0,
            num_authorities: 0,
            num_additionals: 0,
        },
        question: QuestionView { name: domain_name, record_type, class: record_class },
    }
}

impl DNSQuery {
    /// The query with the given id for `domain_name`: one question, no
    /// records.
    pub fn with_id(
        id: u16,
        domain_name: &str,
        record_type: DNSRecordType,
        record_class: DNSRecordClass,
        flags: DNSHeaderFlag,
    ) -> (query: Self)
        ensures
            query@ == query_view(id, domain_name@, record_type, record_class, flags),
    {
        let question = DNSQuestion::new(domain_name, record_type, record_class);
        DNSQuery {
            question,
            header: DNSHeader {
                id,
                num_questions: 1,
                flags,
                num_additionals: 0,
                num_answers: 0,
                num_authorities: 0,
            },
        }
    }

    /// A query for `domain_name` with a fresh random id: one question, no
    /// records. Everything but the id is fixed by the arguments.
    pub fn new(
        domain_name: &str,
        record_type: DNSRecordType,
        record_class: DNSRecordClass,
        flags: DNSHeaderFlag,
    ) -> (query: Self)
        ensures
            query@ == query_view(query.header.id, domain_name@, record_type, record_class, flags),
    {
        let header_id = random_id();
        DNSQuery::with_id(header_id, domain_name, record_type, record_class, flags)
    }
}

} // verus!

//! The top of the codec: decoding a whole response buffer into a message,
//! and composing the outgoing query buffer.

use vstd::prelude::*;

use crate::header::{
    decode_header, encode_header, push_u16_be, spec_be16, spec_decode_header, spec_encode_header,
};
use crate::name::{make_qname_string, spec_encode_name, spec_name_valid};
use crate::records::{
    lemma_parse_questions_count, lemma_parse_records_count, parse_additional_records,
    parse_answer_records, parse_auth_records, parse_question_records, spec_parse_questions,
    spec_parse_records,
};
use crate::types::{
    spec_record_type_code, DnsError, Header, Message, MessageView, QuestionView, RecordType,
    ResourceRecordView,
};

verus! {

/// The flag bits of an outgoing query: a standard query asking for
/// recursion.
pub const QUERY_FLAGS: u16 = 0x0120;

/// What decoding a whole response buffer yields: the header and the four
/// sections in order, the first error met, or — for a buffer of exactly 12
/// bytes — the header with all sections empty whatever the counts declare.
pub open spec fn spec_parse_response(buf: Seq<u8>) -> Result<MessageView, DnsError> {
    if buf.len() < 12 {
        Err(DnsError::TruncatedPacketError)
    } else {
        let h = spec_decode_header(buf)->Ok_0;
        if buf.len() == 12 {
            Ok(
                MessageView {
                    header: h,
                    questions: Seq::empty(),
                    answers: Seq::empty(),
                    authorities: Seq::empty(),
                    additionals: Seq::empty(),
                },
            )
        } else {
            match spec_parse_questions(buf, 12, h.qdcount as nat) {
                Ok((qs, p1)) => match spec_parse_records(buf, p1, h.ancount as nat) {
                    Ok((ans, p2)) => match spec_parse_records(buf, p2, h.nscount as nat) {
                        Ok((auth, p3)) => match spec_parse_records(buf, p3, h.arcount as nat) {
                            Ok((add, _)) => Ok(
                                MessageView {
                                    header: h,
                                    questions: qs,
                                    answers: ans,
                                    authorities: auth,
                                    additionals: add,
                                },
                            ),
                            Err(e) => Err(e),
                        },
                        Err(e) => Err(e),
                    },
                    Err(e) => Err(e),
                },
                Err(e) => Err(e),
            }
        }
    }
}

/// Decodes a response buffer: header first, then the four sections in
/// fixed order, threading one cursor. The first error aborts the decode;
/// bytes past the last declared section are ignored. A buffer of exactly
/// 12 bytes yields the header with every section empty, even when the
/// declared counts are nonzero.
pub fn parse_response_packet(buf: &Vec<u8>) -> (r: Result<Message, DnsError>)
    ensures
        match r {
            Ok(m) => spec_parse_response(buf@) == Ok::<MessageView, DnsError>(m@),
            Err(e) => spec_parse_response(buf@) == Err::<MessageView, DnsError>(e),
        },
        buf@.len() < 12 ==> r == Err::<Message, DnsError>(DnsError::TruncatedPacketError),
        buf@.len() == 12 ==> (r matches Ok(m) && m@.header == spec_decode_header(buf@)->Ok_0
            && m@.questions.len() == 0 && m@.answers.len() == 0 && m@.authorities.len() == 0
            && m@.additionals.len() == 0),
{
    let header = match decode_header(buf) {
        Ok(h) => h,
        Err(e) => {
            return Err(e);
        },
    };
    if buf.len() == 12 {
        let m = Message {
            header,
            questions: Vec::new(),
            answers: Vec::new(),
            authorities: Vec::new(),
            additionals: Vec::new(),
        };
        proof {
            assert(m@.questions =~= Seq::<QuestionView>::empty());
            assert(m@.answers =~= Seq::<ResourceRecordView>::empty());
            assert(m@.authorities =~= Seq::<ResourceRecordView>::empty());
            assert(m@.additionals =~= Seq::<ResourceRecordView>::empty());
        }
        return Ok(m);
    }
    let (questions, p1) = match parse_question_records(buf, 12, header.qdcount) {
        Ok(x) => x,
        Err(e) => {
            return Err(e);
        },
    };
    let (answers, p2) = match parse_answer_records(buf, p1, header.ancount) {
        Ok(x) => x,
        Err(e) => {
            return Err(e);
        },
    };
    let (authorities, p3) = match parse_auth_records(buf, p2, header.nscount) {
        Ok(x) => x,
        Err(e) => {
            return Err(e);
        },
    };
    let (additionals, _p4) = match parse_additional_records(buf, p3, header.arcount) {
        Ok(x) => x,
        Err(e) => {
            return Err(e);
        },
    };
    Ok(Message { header, questions, answers, authorities, additionals })
}

/// Section counts are honest: in a message decoded from a buffer longer
/// than 12 bytes, each section holds exactly the number of records that
/// the header count declares.
pub proof fn lemma_section_counts_match_header(buf: Seq<u8>)
    requires
        spec_parse_response(buf) is Ok,
        buf.len() != 12,
    ensures
        ({
            let m = spec_parse_response(buf)->Ok_0;
            &&& m.questions.len() == m.header.qdcount
            &&& m.answers.len() == m.header.ancount
            &&& m.authorities.len() == m.header.nscount
            &&& m.additionals.len() == m.header.arcount
        }),
{
    let h = spec_decode_header(buf)->Ok_0;
    match spec_parse_questions(buf, 12, h.qdcount as nat) {
        Ok((qs, p1)) => {
            lemma_parse_questions_count(buf, 12, h.qdcount as nat);
            match spec_parse_records(buf, p1, h.ancount as nat) {
                Ok((ans, p2)) => {
                    lemma_parse_records_count(buf, p1, h.ancount as nat);
                    match spec_parse_records(buf, p2, h.nscount as nat) {
                        Ok((auth, p3)) => {
                            lemma_parse_records_count(buf, p2, h.nscount as nat);
                            match spec_parse_records(buf, p3, h.arcount as nat) {
                                Ok((add, _)) => {
                                    lemma_parse_records_count(buf, p3, h.arcount as nat);
                                },
                                Err(_) => {},
                            }
                        },
                        Err(_) => {},
                    }
                },
                Err(_) => {},
            }
        },
        Err(_) => {},
    }
}

/// The bytes of a query: a header with the given transaction id, the
/// standard recursive-query flags, one question and no other records, then
/// the encoded name, the type code, and class 1.
pub open spec fn spec_query_bytes(id: u16, name: Seq<u8>, qtype: RecordType) -> Seq<u8> {
    spec_encode_header(
        Header { id, flags: QUERY_FLAGS, qdcount: 1, ancount: 0, nscount: 0, arcount: 0 },
    ) + spec_encode_name(name) + spec_be16(spec_record_type_code(qtype)) + spec_be16(1)
}

/// Relies on rand::random: draws a value from the thread-local generator.
/// Nothing is promised of the result.
#[verifier::external_body]
fn random_u16() -> u16 {
    rand::random::<u16>()
}

/// Encodes a query with the given transaction id; fails exactly when the
/// name violates the label or length limits.
pub fn encode_query(id: u16, qname: &Vec<u8>, qtype: RecordType) -> (r: Result<Vec<u8>, DnsError>)
    ensures
        match r {
            Ok(v) => spec_name_valid(qname@) && v@ == spec_query_bytes(id, qname@, qtype),
            Err(e) => !spec_name_valid(qname@) && e == DnsError::EncodingError,
        },
{
    let mut name_bytes = match make_qname_string(qname) {
        Ok(b) => b,
        Err(e) => {
            return Err(e);
        },
    };
    let mut out = encode_header(
        &Header { id, flags: QUERY_FLAGS, qdcount: 1, ancount: 0, nscount: 0, arcount: 0 },
    );
    out.append(&mut name_bytes);
    push_u16_be(&mut out, qtype.code());
    push_u16_be(&mut out, 1);
    proof {
        assert(out@ =~= spec_query_bytes(id, qname@, qtype));
    }
    Ok(out)
}

/// Composes a query for the name and type under a freshly drawn
/// transaction id; the id is the only part not fixed by the arguments.
pub fn make_query(qname: &Vec<u8>, qtype: RecordType) -> (r: Result<Vec<u8>, DnsError>)
    ensures
        match r {
            Ok(v) => spec_name_valid(qname@) && (exists|id: u16|
                v@ == spec_query_bytes(id, qname@, qtype)),
            Err(e) => !spec_name_valid(qname@) && e == DnsError::EncodingError,
        },
{
    let id = random_u16();
    let r = encode_query(id, qname, qtype);
    proof {
        if r is Ok {
            assert(r->Ok_0@ == spec_query_bytes(id, qname@, qtype));
        }
    }
    r
}


} // verus!

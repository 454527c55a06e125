//! Parsing of question records and resource records at a cursor, a declared
//! number of each, with bounds-safe reads throughout.

use vstd::prelude::*;

use crate::header::{read_u16_be, read_u32_be, spec_be16_val, spec_be32_val};
use crate::name::{decode_name, lemma_decode_next_bounds, spec_decode_name, MAX_POINTER_HOPS};
use crate::types::{
    questions_view, records_view, spec_record_type_of, DnsError, Question, QuestionView,
    RecordType, ResourceRecord, ResourceRecordView,
};

verus! {

/// What parsing one question at `pos` yields: its name and fixed fields,
/// and the cursor just past them.
pub open spec fn spec_parse_question(buf: Seq<u8>, pos: nat) -> Result<
    (QuestionView, nat),
    DnsError,
> {
    match spec_decode_name(buf, pos, MAX_POINTER_HOPS as nat) {
        Ok((nm, p)) => {
            if p + 4 <= buf.len() {
                Ok(
                    (
                        QuestionView {
                            name: nm,
                            qtype: spec_record_type_of(
                                spec_be16_val(buf[p as int], buf[p as int + 1]),
                            ),
                            class: spec_be16_val(buf[p as int + 2], buf[p as int + 3]),
                        },
                        p + 4,
                    ),
                )
            } else {
                Err(DnsError::TruncatedPacketError)
            }
        },
        Err(e) => Err(e),
    }
}

/// What parsing `count` questions in a row from `pos` yields.
pub open spec fn spec_parse_questions(buf: Seq<u8>, pos: nat, count: nat) -> Result<
    (Seq<QuestionView>, nat),
    DnsError,
>
    decreases count,
{
    if count == 0 {
        Ok((Seq::empty(), pos))
    } else {
        match spec_parse_question(buf, pos) {
            Ok((q, p)) => match spec_parse_questions(buf, p, (count - 1) as nat) {
                Ok((qs, e)) => Ok((seq![q] + qs, e)),
                Err(e) => Err(e),
            },
            Err(e) => Err(e),
        }
    }
}

/// What parsing one resource record at `pos` yields: name, fixed fields,
/// the declared number of payload bytes, and the cursor just past them.
pub open spec fn spec_parse_record(buf: Seq<u8>, pos: nat) -> Result<
    (ResourceRecordView, nat),
    DnsError,
> {
    match spec_decode_name(buf, pos, MAX_POINTER_HOPS as nat) {
        Ok((nm, p)) => {
            if p + 10 > buf.len() {
                Err(DnsError::TruncatedPacketError)
            } else {
                let rdlen = spec_be16_val(buf[p as int + 8], buf[p as int + 9]) as nat;
                if p + 10 + rdlen > buf.len() {
                    Err(DnsError::TruncatedPacketError)
                } else {
                    Ok(
                        (
                            ResourceRecordView {
                                name: nm,
                                rtype: spec_record_type_of(
                                    spec_be16_val(buf[p as int], buf[p as int + 1]),
                                ),
                                class: spec_be16_val(buf[p as int + 2], buf[p as int + 3]),
                                ttl: spec_be32_val(
                                    buf[p as int + 4],
                                    buf[p as int + 5],
                                    buf[p as int + 6],
                                    buf[p as int + 7],
                                ),
                                rdata: buf.subrange(
                                    p as int + 10,
                                    p as int + 10 + rdlen as int,
                                ),
                            },
                            p + 10 + rdlen,
                        ),
                    )
                }
            }
        },
        Err(e) => Err(e),
    }
}

/// What parsing `count` resource records in a row from `pos` yields.
pub open spec fn spec_parse_records(buf: Seq<u8>, pos: nat, count: nat) -> Result<
    (Seq<ResourceRecordView>, nat),
    DnsError,
>
    decreases count,
{
    if count == 0 {
        Ok((Seq::empty(), pos))
    } else {
        match spec_parse_record(buf, pos) {
            Ok((r, p)) => match spec_parse_records(buf, p, (count - 1) as nat) {
                Ok((rs, e)) => Ok((seq![r] + rs, e)),
                Err(e) => Err(e),
            },
            Err(e) => Err(e),
        }
    }
}

/// Parses one question at `cursor`.
fn parse_question(buf: &Vec<u8>, cursor: usize) -> (r: Result<(Question, usize), DnsError>)
    ensures
        match r {
            Ok((q, next)) => spec_parse_question(buf@, cursor as nat) == Ok::<
                (QuestionView, nat),
                DnsError,
            >((q@, next as nat)) && next <= buf.len(),
            Err(e) => spec_parse_question(buf@, cursor as nat) == Err::<
                (QuestionView, nat),
                DnsError,
            >(e),
        },
{
    match decode_name(buf, cursor) {
        Ok((name, p)) => {
            proof {
                lemma_decode_next_bounds(
                    buf@,
                    cursor as nat,
                    MAX_POINTER_HOPS as nat,
                    name@,
                    p as nat,
                );
            }
            if buf.len() - p < 4 {
                return Err(DnsError::TruncatedPacketError);
            }
            let qtype_code = read_u16_be(buf, p);
            let class = read_u16_be(buf, p + 2);
            Ok((Question { name, qtype: RecordType::from_code(qtype_code), class }, p + 4))
        },
        Err(e) => Err(e),
    }
}

/// Parses one resource record at `cursor`, copying exactly the declared
/// number of payload bytes.
fn parse_record(buf: &Vec<u8>, cursor: usize) -> (r: Result<(ResourceRecord, usize), DnsError>)
    ensures
        match r {
            Ok((rec, next)) => spec_parse_record(buf@, cursor as nat) == Ok::<
                (ResourceRecordView, nat),
                DnsError,
            >((rec@, next as nat)) && next <= buf.len(),
            Err(e) => spec_parse_record(buf@, cursor as nat) == Err::<
                (ResourceRecordView, nat),
                DnsError,
            >(e),
        },
{
    match decode_name(buf, cursor) {
        Ok((name, p)) => {
            proof {
                lemma_decode_next_bounds(
                    buf@,
                    cursor as nat,
                    MAX_POINTER_HOPS as nat,
                    name@,
                    p as nat,
                );
            }
            if buf.len() - p < 10 {
                return Err(DnsError::TruncatedPacketError);
            }
            let rtype_code = read_u16_be(buf, p);
            let class = read_u16_be(buf, p + 2);
            let ttl = read_u32_be(buf, p + 4);
            let rdlen = read_u16_be(buf, p + 8) as usize;
            if buf.len() - (p + 10) < rdlen {
                return Err(DnsError::TruncatedPacketError);
            }
            let mut rdata: Vec<u8> = Vec::new();
            let mut t: usize = 0;
            proof {
                assert(rdata@ =~= buf@.subrange(p as int + 10, p as int + 10));
            }
            while t < rdlen
                invariant
                    t <= rdlen,
                    p + 10 + rdlen <= buf.len(),
                    rdata@ == buf@.subrange(p as int + 10, p as int + 10 + t as int),
                decreases rdlen - t,
            {
                let byte = buf[p + 10 + t];
                rdata.push(byte);
                proof {
                    assert(rdata@ =~= buf@.subrange(p as int + 10, p as int + 10 + t as int + 1));
                }
                t = t + 1;
            }
            let rec = ResourceRecord {
                name,
                rtype: RecordType::from_code(rtype_code),
                class,
                ttl,
                rdata,
            };
            Ok((rec, p + 10 + rdlen))
        },
        Err(e) => Err(e),
    }
}

/// Parses the declared number of question records starting at `cursor`;
/// returns them with the cursor past the last one, or the first error.
pub fn parse_question_records(buf: &Vec<u8>, cursor: usize, count: u16) -> (r: Result<
    (Vec<Question>, usize),
    DnsError,
>)
    ensures
        match r {
            Ok((qs, next)) => spec_parse_questions(buf@, cursor as nat, count as nat) == Ok::<
                (Seq<QuestionView>, nat),
                DnsError,
            >((questions_view(qs@), next as nat)) && (cursor <= buf.len() ==> next <= buf.len()),
            Err(e) => spec_parse_questions(buf@, cursor as nat, count as nat) == Err::<
                (Seq<QuestionView>, nat),
                DnsError,
            >(e),
        },
{
    let mut qs: Vec<Question> = Vec::new();
    let mut cur: usize = cursor;
    let mut i: u16 = 0;
    proof {
        assert(questions_view(qs@) =~= Seq::<QuestionView>::empty());
    }
    while i < count
        invariant
            i <= count,
            i == 0 ==> cur == cursor,
            i > 0 ==> cur <= buf.len(),
            match spec_parse_questions(buf@, cur as nat, (count - i) as nat) {
                Ok((rest, e)) => spec_parse_questions(buf@, cursor as nat, count as nat) == Ok::<
                    (Seq<QuestionView>, nat),
                    DnsError,
                >((questions_view(qs@) + rest, e)),
                Err(e) => spec_parse_questions(buf@, cursor as nat, count as nat) == Err::<
                    (Seq<QuestionView>, nat),
                    DnsError,
                >(e),
            },
        decreases count - i,
    {
        let ghost pre = questions_view(qs@);
        match parse_question(buf, cur) {
            Ok((q, next)) => {
                qs.push(q);
                proof {
                    assert(questions_view(qs@) =~= pre + seq![q@]);
                    let tail = spec_parse_questions(buf@, next as nat, (count - i - 1) as nat);
                    if tail is Ok {
                        let rest = tail->Ok_0.0;
                        assert(pre + (seq![q@] + rest) =~= (pre + seq![q@]) + rest);
                    }
                }
                cur = next;
                i = i + 1;
            },
            Err(e) => {
                return Err(e);
            },
        }
    }
    proof {
        assert(questions_view(qs@) + Seq::<QuestionView>::empty() =~= questions_view(qs@));
    }
    Ok((qs, cur))
}

/// Parses the declared number of resource records starting at `cursor`;
/// returns them with the cursor past the last one, or the first error.
pub fn parse_resource_records(buf: &Vec<u8>, cursor: usize, count: u16) -> (r: Result<
    (Vec<ResourceRecord>, usize),
    DnsError,
>)
    ensures
        match r {
            Ok((rs, next)) => spec_parse_records(buf@, cursor as nat, count as nat) == Ok::<
                (Seq<ResourceRecordView>, nat),
                DnsError,
            >((records_view(rs@), next as nat)) && (cursor <= buf.len() ==> next <= buf.len()),
            Err(e) => spec_parse_records(buf@, cursor as nat, count as nat) == Err::<
                (Seq<ResourceRecordView>, nat),
                DnsError,
            >(e),
        },
{
    let mut rs: Vec<ResourceRecord> = Vec::new();
    let mut cur: usize = cursor;
    let mut i: u16 = 0;
    proof {
        assert(records_view(rs@) =~= Seq::<ResourceRecordView>::empty());
    }
    while i < count
        invariant
            i <= count,
            i == 0 ==> cur == cursor,
            i > 0 ==> cur <= buf.len(),
            match spec_parse_records(buf@, cur as nat, (count - i) as nat) {
                Ok((rest, e)) => spec_parse_records(buf@, cursor as nat, count as nat) == Ok::<
                    (Seq<ResourceRecordView>, nat),
                    DnsError,
                >((records_view(rs@) + rest, e)),
                Err(e) => spec_parse_records(buf@, cursor as nat, count as nat) == Err::<
                    (Seq<ResourceRecordView>, nat),
                    DnsError,
                >(e),
            },
        decreases count - i,
    {
        let ghost pre = records_view(rs@);
        match parse_record(buf, cur) {
            Ok((rec, next)) => {
                rs.push(rec);
                proof {
                    assert(records_view(rs@) =~= pre + seq![rec@]);
                    let tail = spec_parse_records(buf@, next as nat, (count - i - 1) as nat);
                    if tail is Ok {
                        let rest = tail->Ok_0.0;
                        assert(pre + (seq![rec@] + rest) =~= (pre + seq![rec@]) + rest);
                    }
                }
                cur = next;
                i = i + 1;
            },
            Err(e) => {
                return Err(e);
            },
        }
    }
    proof {
        assert(records_view(rs@) + Seq::<ResourceRecordView>::empty() =~= records_view(rs@));
    }
    Ok((rs, cur))
}

/// Parses the answer section: `count` resource records at `cursor`.
pub fn parse_answer_records(buf: &Vec<u8>, cursor: usize, count: u16) -> (r: Result<
    (Vec<ResourceRecord>, usize),
    DnsError,
>)
    ensures
        match r {
            Ok((rs, next)) => spec_parse_records(buf@, cursor as nat, count as nat) == Ok::<
                (Seq<ResourceRecordView>, nat),
                DnsError,
            >((records_view(rs@), next as nat)) && (cursor <= buf.len() ==> next <= buf.len()),
            Err(e) => spec_parse_records(buf@, cursor as nat, count as nat) == Err::<
                (Seq<ResourceRecordView>, nat),
                DnsError,
            >(e),
        },
{
    parse_resource_records(buf, cursor, count)
}

/// Parses the authority section: `count` resource records at `cursor`.
pub fn parse_auth_records(buf: &Vec<u8>, cursor: usize, count: u16) -> (r: Result<
    (Vec<ResourceRecord>, usize),
    DnsError,
>)
    ensures
        match r {
            Ok((rs, next)) => spec_parse_records(buf@, cursor as nat, count as nat) == Ok::<
                (Seq<ResourceRecordView>, nat),
                DnsError,
            >((records_view(rs@), next as nat)) && (cursor <= buf.len() ==> next <= buf.len()),
            Err(e) => spec_parse_records(buf@, cursor as nat, count as nat) == Err::<
                (Seq<ResourceRecordView>, nat),
                DnsError,
            >(e),
        },
{
    parse_resource_records(buf, cursor, count)
}

/// Parses the additional section: `count` resource records at `cursor`.
pub fn parse_additional_records(buf: &Vec<u8>, cursor: usize, count: u16) -> (r: Result<
    (Vec<ResourceRecord>, usize),
    DnsError,
>)
    ensures
        match r {
            Ok((rs, next)) => spec_parse_records(buf@, cursor as nat, count as nat) == Ok::<
                (Seq<ResourceRecordView>, nat),
                DnsError,
            >((records_view(rs@), next as nat)) && (cursor <= buf.len() ==> next <= buf.len()),
            Err(e) => spec_parse_records(buf@, cursor as nat, count as nat) == Err::<
                (Seq<ResourceRecordView>, nat),
                DnsError,
            >(e),
        },
{
    parse_resource_records(buf, cursor, count)
}


/// A question section that parses in full holds exactly the declared
/// number of questions.
pub proof fn lemma_parse_questions_count(buf: Seq<u8>, pos: nat, count: nat)
    requires
        spec_parse_questions(buf, pos, count) is Ok,
    ensures
        spec_parse_questions(buf, pos, count)->Ok_0.0.len() == count,
    decreases count,
{
    if count > 0 {
        match spec_parse_question(buf, pos) {
            Ok((q, p)) => {
                lemma_parse_questions_count(buf, p, (count - 1) as nat);
            },
            Err(_) => {},
        }
    }
}

/// A resource-record section that parses in full holds exactly the
/// declared number of records.
pub proof fn lemma_parse_records_count(buf: Seq<u8>, pos: nat, count: nat)
    requires
        spec_parse_records(buf, pos, count) is Ok,
    ensures
        spec_parse_records(buf, pos, count)->Ok_0.0.len() == count,
    decreases count,
{
    if count > 0 {
        match spec_parse_record(buf, pos) {
            Ok((r, p)) => {
                lemma_parse_records_count(buf, p, (count - 1) as nat);
            },
            Err(_) => {},
        }
    }
}

} // verus!

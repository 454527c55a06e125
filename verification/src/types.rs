//! Data model of the codec: record types, the fixed header, questions,
//! resource records, whole messages, and the error taxonomy.

use vstd::prelude::*;

verus! {

/// The typed failure outcomes of encoding or decoding.
#[derive(Clone, Copy, Debug, PartialEq, Eq, Structural)]
pub enum DnsError {
    /// A declared field or record is longer than the bytes that remain.
    TruncatedPacketError,
    /// A compression pointer does not point strictly backwards, or pointer
    /// following exceeded the depth bound.
    CompressionLoopError,
    /// A length byte with exactly one of its top two bits set.
    ReservedLabelError,
    /// A name violates the label or total-length limits on encode.
    EncodingError,
}

/// The known record-type codes, with a fallback for every other 16-bit value.
#[derive(Clone, Copy, Debug, PartialEq, Eq, Structural)]
pub enum RecordType {
    A,
    NS,
    CNAME,
    MX,
    TXT,
    AAAA,
    SVCB,
    HTTPS,
    ANY,
    Unknown(u16),
}

/// The record type that a 16-bit wire code denotes.
pub open spec fn spec_record_type_of(code: u16) -> RecordType {
    if code == 1 {
        RecordType::A
    } else if code == 2 {
        RecordType::NS
    } else if code == 5 {
        RecordType::CNAME
    } else if code == 15 {
        RecordType::MX
    } else if code == 16 {
        RecordType::TXT
    } else if code == 28 {
        RecordType::AAAA
    } else if code == 64 {
        RecordType::SVCB
    } else if code == 65 {
        RecordType::HTTPS
    } else if code == 255 {
        RecordType::ANY
    } else {
        RecordType::Unknown(code)
    }
}

/// The 16-bit wire code of a record type.
pub open spec fn spec_record_type_code(t: RecordType) -> u16 {
    match t {
        RecordType::A => 1,
        RecordType::NS => 2,
        RecordType::CNAME => 5,
        RecordType::MX => 15,
        RecordType::TXT => 16,
        RecordType::AAAA => 28,
        RecordType::SVCB => 64,
        RecordType::HTTPS => 65,
        RecordType::ANY => 255,
        RecordType::Unknown(code) => code,
    }
}

impl RecordType {
    /// Conversion from any 16-bit value; always succeeds.
    pub fn from_code(code: u16) -> (r: RecordType)
        ensures
            r == spec_record_type_of(code),
    {
        if code == 1 {
            RecordType::A
        } else if code == 2 {
            RecordType::NS
        } else if code == 5 {
            RecordType::CNAME
        } else if code == 15 {
            RecordType::MX
        } else if code == 16 {
            RecordType::TXT
        } else if code == 28 {
            RecordType::AAAA
        } else if code == 64 {
            RecordType::SVCB
        } else if code == 65 {
            RecordType::HTTPS
        } else if code == 255 {
            RecordType::ANY
        } else {
            RecordType::Unknown(code)
        }
    }

    /// The numeric code transmitted on the wire for this record type.
    pub fn code(&self) -> (r: u16)
        ensures
            r == spec_record_type_code(*self),
    {
        match self {
            RecordType::A => 1,
            RecordType::NS => 2,
            RecordType::CNAME => 5,
            RecordType::MX => 15,
            RecordType::TXT => 16,
            RecordType::AAAA => 28,
            RecordType::SVCB => 64,
            RecordType::HTTPS => 65,
            RecordType::ANY => 255,
            RecordType::Unknown(code) => *code,
        }
    }
}

/// The fixed 12-byte message header: transaction id, flags, and the four
/// section counts.
#[derive(Clone, Copy, Debug, PartialEq, Eq, Structural)]
pub struct Header {
    pub id: u16,
    pub flags: u16,
    pub qdcount: u16,
    pub ancount: u16,
    pub nscount: u16,
    pub arcount: u16,
}

/// One question record: a dotted name, a type, and a class.
#[derive(Debug, PartialEq, Eq)]
pub struct Question {
    pub name: Vec<u8>,
    pub qtype: RecordType,
    pub class: u16,
}

/// Mathematical image of a [`Question`].
pub struct QuestionView {
    pub name: Seq<u8>,
    pub qtype: RecordType,
    pub class: u16,
}

impl View for Question {
    type V = QuestionView;

    open spec fn view(&self) -> QuestionView {
        QuestionView { name: self.name@, qtype: self.qtype, class: self.class }
    }
}

/// One resource record: a dotted name, a type, a class, a time to live, and
/// an opaque payload.
#[derive(Debug, PartialEq, Eq)]
pub struct ResourceRecord {
    pub name: Vec<u8>,
    pub rtype: RecordType,
    pub class: u16,
    pub ttl: u32,
    pub rdata: Vec<u8>,
}

/// Mathematical image of a [`ResourceRecord`].
pub struct ResourceRecordView {
    pub name: Seq<u8>,
    pub rtype: RecordType,
    pub class: u16,
    pub ttl: u32,
    pub rdata: Seq<u8>,
}

impl View for ResourceRecord {
    type V = ResourceRecordView;

    open spec fn view(&self) -> ResourceRecordView {
        ResourceRecordView {
            name: self.name@,
            rtype: self.rtype,
            class: self.class,
            ttl: self.ttl,
            rdata: self.rdata@,
        }
    }
}

/// The sequence of views of a sequence of questions.
pub open spec fn questions_view(qs: Seq<Question>) -> Seq<QuestionView> {
    qs.map_values(|q: Question| q@)
}

/// The sequence of views of a sequence of resource records.
pub open spec fn records_view(rs: Seq<ResourceRecord>) -> Seq<ResourceRecordView> {
    rs.map_values(|r: ResourceRecord| r@)
}

/// A whole decoded message: the header and the four record sections.
#[derive(Debug, PartialEq, Eq)]
pub struct Message {
    pub header: Header,
    pub questions: Vec<Question>,
    pub answers: Vec<ResourceRecord>,
    pub authorities: Vec<ResourceRecord>,
    pub additionals: Vec<ResourceRecord>,
}

/// Mathematical image of a [`Message`].
pub struct MessageView {
    pub header: Header,
    pub questions: Seq<QuestionView>,
    pub answers: Seq<ResourceRecordView>,
    pub authorities: Seq<ResourceRecordView>,
    pub additionals: Seq<ResourceRecordView>,
}

impl View for Message {
    type V = MessageView;

    open spec fn view(&self) -> MessageView {
        MessageView {
            header: self.header,
            questions: questions_view(self.questions@),
            answers: records_view(self.answers@),
            authorities: records_view(self.authorities@),
            additionals: records_view(self.additionals@),
        }
    }
}

} // verus!

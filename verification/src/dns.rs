//! DNS wire-format codec: header, question, record and whole-packet
//! encoding and decoding over a `BytePacketBuffer`.
//!
//! Every decoder is specified against a spec-level parser over the
//! buffer's byte view, and every encoder against a spec-level byte
//! string, so that encode-then-decode laws can be stated and proved.

use vstd::prelude::*;
use crate::packet::{
    BytePacketBuffer, DnsError, PACKET_SIZE, be_u16, be_u32, u16_bytes, u32_bytes, splice,
    lemma_splice_empty, lemma_splice_append, lemma_u16_bytes_round_trip,
    lemma_u32_bytes_round_trip,
};
use crate::name::{MAX_JUMPS, parse_qname, qname_bytes, qname_ok, qname_wf, lemma_qname_round_trip};

verus! {

/// DNS response codes; any numeric code above 5 normalises to
/// `NOERROR` on read.
#[allow(non_camel_case_types)]
#[derive(Copy, Clone, Debug, PartialEq, Eq, Structural)]
pub enum ResultCode {
    NOERROR,
    FORMERR,
    SERVFAIL,
    NXDOMAIN,
    NOTIMP,
    REFUSED,
}

/// The four-bit value of a response code on the wire.
pub open spec fn code_num(rc: ResultCode) -> u8 {
    match rc {
        ResultCode::NOERROR => 0,
        ResultCode::FORMERR => 1,
        ResultCode::SERVFAIL => 2,
        ResultCode::NXDOMAIN => 3,
        ResultCode::NOTIMP => 4,
        ResultCode::REFUSED => 5,
    }
}

/// The response code a wire value stands for; unknown values
/// normalise to `NOERROR`.
pub open spec fn code_of(num: u8) -> ResultCode {
    if num == 1 {
        ResultCode::FORMERR
    } else if num == 2 {
        ResultCode::SERVFAIL
    } else if num == 3 {
        ResultCode::NXDOMAIN
    } else if num == 4 {
        ResultCode::NOTIMP
    } else if num == 5 {
        ResultCode::REFUSED
    } else {
        ResultCode::NOERROR
    }
}

impl ResultCode {
    /// The wire value of this code.
    pub fn to_num(&self) -> (r: u8)
        ensures
            r == code_num(*self),
    {
        match *self {
            ResultCode::NOERROR => 0,
            ResultCode::FORMERR => 1,
            ResultCode::SERVFAIL => 2,
            ResultCode::NXDOMAIN => 3,
            ResultCode::NOTIMP => 4,
            ResultCode::REFUSED => 5,
        }
    }

    /// The code a wire value stands for; unknown values give `NOERROR`.
    pub fn from_num(num: u8) -> (r: ResultCode)
        ensures
            r == code_of(num),
    {
        match num {
            1 => ResultCode::FORMERR,
            2 => ResultCode::SERVFAIL,
            3 => ResultCode::NXDOMAIN,
            4 => ResultCode::NOTIMP,
            5 => ResultCode::REFUSED,
            _ => ResultCode::NOERROR,
        }
    }
}

/// Record types the codec distinguishes; every other numeric type is
/// carried as `UNKNOWN` with its wire value.
#[allow(non_camel_case_types)]
#[derive(Copy, Clone, Debug, PartialEq, Eq, Hash, Structural)]
pub enum RecordType {
    UNKNOWN(u16),
    A,
    NS,
    CNAME,
    MX,
    AAAA,
    HTTPS,
}

/// The numeric wire value of a record type.
pub open spec fn rt_num(rt: RecordType) -> u16 {
    match rt {
        RecordType::UNKNOWN(x) => x,
        RecordType::A => 1,
        RecordType::NS => 2,
        RecordType::CNAME => 5,
        RecordType::MX => 15,
        RecordType::AAAA => 28,
        RecordType::HTTPS => 65,
    }
}

/// The record type a numeric wire value stands for.
pub open spec fn rt_of(num: u16) -> RecordType {
    if num == 1 {
        RecordType::A
    } else if num == 2 {
        RecordType::NS
    } else if num == 5 {
        RecordType::CNAME
    } else if num == 15 {
        RecordType::MX
    } else if num == 28 {
        RecordType::AAAA
    } else if num == 65 {
        RecordType::HTTPS
    } else {
        RecordType::UNKNOWN(num)
    }
}

impl RecordType {
    /// The numeric wire value of this type.
    pub fn to_num(&self) -> (r: u16)
        ensures
            r == rt_num(*self),
    {
        match *self {
            RecordType::UNKNOWN(x) => x,
            RecordType::A => 1,
            RecordType::NS => 2,
            RecordType::CNAME => 5,
            RecordType::MX => 15,
            RecordType::AAAA => 28,
            RecordType::HTTPS => 65,
        }
    }

    /// The record type a numeric value stands for.
    pub fn from_num(num: u16) -> (r: RecordType)
        ensures
            r == rt_of(num),
    {
        match num {
            1 => RecordType::A,
            2 => RecordType::NS,
            5 => RecordType::CNAME,
            15 => RecordType::MX,
            28 => RecordType::AAAA,
            65 => RecordType::HTTPS,
            _ => RecordType::UNKNOWN(num),
        }
    }
}

/// The twelve-byte DNS message header.
#[derive(Clone, Debug, PartialEq, Eq, Structural)]
pub struct DnsHeader {
    pub id: u16,
    pub recursion_desired: bool,
    pub truncated_message: bool,
    pub authoritative_answer: bool,
    pub opcode: u8,
    pub response: bool,
    pub result_code: ResultCode,
    pub checking_disabled: bool,
    pub authed_data: bool,
    pub z: bool,
    pub recursion_available: bool,
    pub questions: u16,
    pub answers: u16,
    pub authoritative_entries: u16,
    pub resource_entries: u16,
}

/// The high byte of the flag word: RD, TC, AA, opcode, QR from the
/// low bit up.
pub open spec fn header_flags_a(h: DnsHeader) -> u8 {
    (if h.recursion_desired {
        1u8
    } else {
        0u8
    }) | ((if h.truncated_message {
        1u8
    } else {
        0u8
    }) << 1) | ((if h.authoritative_answer {
        1u8
    } else {
        0u8
    }) << 2) | (h.opcode << 3) | ((if h.response {
        1u8
    } else {
        0u8
    }) << 7)
}

/// The low byte of the flag word: result code, CD, AD, Z, RA from the
/// low bit up.
pub open spec fn header_flags_b(h: DnsHeader) -> u8 {
    code_num(h.result_code) | ((if h.checking_disabled {
        1u8
    } else {
        0u8
    }) << 4) | ((if h.authed_data {
        1u8
    } else {
        0u8
    }) << 5) | ((if h.z {
        1u8
    } else {
        0u8
    }) << 6) | ((if h.recursion_available {
        1u8
    } else {
        0u8
    }) << 7)
}

/// The twelve bytes of a header on the wire.
pub open spec fn header_bytes(h: DnsHeader) -> Seq<u8> {
    u16_bytes(h.id) + seq![header_flags_a(h), header_flags_b(h)] + u16_bytes(h.questions)
        + u16_bytes(h.answers) + u16_bytes(h.authoritative_entries) + u16_bytes(h.resource_entries)
}

/// The header read from twelve bytes.
pub open spec fn header_from_bytes(a: Seq<u8>) -> DnsHeader {
    DnsHeader {
        id: be_u16(a[0], a[1]),
        recursion_desired: a[2] & 1 > 0,
        truncated_message: a[2] & 2 > 0,
        authoritative_answer: a[2] & 4 > 0,
        opcode: (a[2] >> 3) & 0x0f,
        response: a[2] & 128 > 0,
        result_code: code_of(a[3] & 0x0f),
        checking_disabled: a[3] & 16 > 0,
        authed_data: a[3] & 32 > 0,
        z: a[3] & 64 > 0,
        recursion_available: a[3] & 128 > 0,
        questions: be_u16(a[4], a[5]),
        answers: be_u16(a[6], a[7]),
        authoritative_entries: be_u16(a[8], a[9]),
        resource_entries: be_u16(a[10], a[11]),
    }
}

/// The header decoded at `pos`, with the position just past it.
pub open spec fn parse_header(buf: Seq<u8>, pos: int) -> Option<(DnsHeader, int)> {
    if 0 <= pos && pos + 12 <= buf.len() {
        Some((header_from_bytes(buf.subrange(pos, pos + 12)), pos + 12))
    } else {
        None
    }
}

/// Law: a header whose opcode fits its four wire bits decodes back to
/// itself from its own wire form.
pub proof fn lemma_header_round_trip(h: DnsHeader)
    requires
        h.opcode <= 15,
    ensures
        header_from_bytes(header_bytes(h)) == h,
{
    let bs = header_bytes(h);
    assert(bs.len() == 12);
    let rd: u8 = if h.recursion_desired {
        1
    } else {
        0
    };
    let tm: u8 = if h.truncated_message {
        1
    } else {
        0
    };
    let aa: u8 = if h.authoritative_answer {
        1
    } else {
        0
    };
    let op: u8 = h.opcode;
    let qr: u8 = if h.response {
        1
    } else {
        0
    };
    let a = header_flags_a(h);
    assert(a == rd | (tm << 1) | (aa << 2) | (op << 3) | (qr << 7));
    assert(rd <= 1 && tm <= 1 && aa <= 1 && op <= 15 && qr <= 1 ==> {
        let x = rd | (tm << 1) | (aa << 2) | (op << 3) | (qr << 7);
        ((x & 1 > 0) <==> rd == 1) && ((x & 2 > 0) <==> tm == 1) && ((x & 4 > 0) <==> aa == 1) && (
        (x >> 3) & 0x0f == op) && ((x & 128 > 0) <==> qr == 1)
    }) by (bit_vector);
    let rc: u8 = code_num(h.result_code);
    let cd: u8 = if h.checking_disabled {
        1
    } else {
        0
    };
    let ad: u8 = if h.authed_data {
        1
    } else {
        0
    };
    let zz: u8 = if h.z {
        1
    } else {
        0
    };
    let ra: u8 = if h.recursion_available {
        1
    } else {
        0
    };
    let b = header_flags_b(h);
    assert(b == rc | (cd << 4) | (ad << 5) | (zz << 6) | (ra << 7));
    assert(rc <= 15 && cd <= 1 && ad <= 1 && zz <= 1 && ra <= 1 ==> {
        let x = rc | (cd << 4) | (ad << 5) | (zz << 6) | (ra << 7);
        (x & 0x0f == rc) && ((x & 16 > 0) <==> cd == 1) && ((x & 32 > 0) <==> ad == 1) && ((x & 64
            > 0) <==> zz == 1) && ((x & 128 > 0) <==> ra == 1)
    }) by (bit_vector);
    lemma_u16_bytes_round_trip(u16_bytes(h.id)[0], u16_bytes(h.id)[1]);
    crate::packet::lemma_u16_round_trip(h.id);
    crate::packet::lemma_u16_round_trip(h.questions);
    crate::packet::lemma_u16_round_trip(h.answers);
    crate::packet::lemma_u16_round_trip(h.authoritative_entries);
    crate::packet::lemma_u16_round_trip(h.resource_entries);
    assert(bs[0] == u16_bytes(h.id)[0] && bs[1] == u16_bytes(h.id)[1]);
    assert(bs[2] == a && bs[3] == b);
    assert(bs[4] == u16_bytes(h.questions)[0] && bs[5] == u16_bytes(h.questions)[1]);
    assert(bs[6] == u16_bytes(h.answers)[0] && bs[7] == u16_bytes(h.answers)[1]);
    assert(bs[8] == u16_bytes(h.authoritative_entries)[0] && bs[9] == u16_bytes(
        h.authoritative_entries,
    )[1]);
    assert(bs[10] == u16_bytes(h.resource_entries)[0] && bs[11] == u16_bytes(
        h.resource_entries,
    )[1]);
}

impl DnsHeader {
    /// A header of all zeroes and `NOERROR`.
    pub fn new() -> (r: DnsHeader)
        ensures
            r == (DnsHeader {
                id: 0,
                recursion_desired: false,
                truncated_message: false,
                authoritative_answer: false,
                opcode: 0,
                response: false,
                result_code: ResultCode::NOERROR,
                checking_disabled: false,
                authed_data: false,
                z: false,
                recursion_available: false,
                questions: 0,
                answers: 0,
                authoritative_entries: 0,
                resource_entries: 0,
            }),
    {
        DnsHeader {
            id: 0,
            recursion_desired: false,
            truncated_message: false,
            authoritative_answer: false,
            opcode: 0,
            response: false,
            result_code: ResultCode::NOERROR,
            checking_disabled: false,
            authed_data: false,
            z: false,
            recursion_available: false,
            questions: 0,
            answers: 0,
            authoritative_entries: 0,
            resource_entries: 0,
        }
    }

    /// Decodes the header at the cursor into `self`, advancing the
    /// cursor twelve bytes; fails when fewer than twelve remain.
    pub fn read(&mut self, buffer: &mut BytePacketBuffer) -> (r: Result<(), DnsError>)
        requires
            old(buffer).wf(),
        ensures
            final(buffer).wf(),
            final(buffer).buf@ == old(buffer).buf@,
            match parse_header(old(buffer).buf@, old(buffer).pos as int) {
                Some(res) => r is Ok && *final(self) == res.0 && final(buffer).pos as int == res.1,
                None => r == Err::<(), DnsError>(DnsError::InvalidInput),
            },
    {
        let ghost sub = old(buffer).buf@.subrange(
            old(buffer).pos as int,
            old(buffer).pos + 12 as int,
        );
        self.id = buffer.read_u16()?;

        let flags = buffer.read_u16()?;
        let a = (flags >> 8) as u8;
        let b = flags as u8;
        proof {
            if old(buffer).pos + 12 <= PACKET_SIZE {
                lemma_u16_bytes_round_trip(sub[2], sub[3]);
                assert(u16_bytes(flags) == seq![sub[2], sub[3]]);
                assert(flags as u8 == (flags & 0xff) as u8) by (bit_vector);
            }
        }
        self.recursion_desired = (a & 1) > 0;
        self.truncated_message = (a & 2) > 0;
        self.authoritative_answer = (a & 4) > 0;
        self.opcode = (a >> 3) & 0x0f;
        self.response = (a & 128) > 0;

        self.result_code = ResultCode::from_num(b & 0x0f);
        self.checking_disabled = (b & 16) > 0;
        self.authed_data = (b & 32) > 0;
        self.z = (b & 64) > 0;
        self.recursion_available = (b & 128) > 0;

        self.questions = buffer.read_u16()?;
        self.answers = buffer.read_u16()?;
        self.authoritative_entries = buffer.read_u16()?;
        self.resource_entries = buffer.read_u16()?;
        proof {
            assert(sub[0] == old(buffer).buf@[old(buffer).pos as int]);
            assert(sub[1] == old(buffer).buf@[old(buffer).pos + 1]);
            assert(sub[4] == old(buffer).buf@[old(buffer).pos + 4]);
            assert(sub[5] == old(buffer).buf@[old(buffer).pos + 5]);
            assert(sub[6] == old(buffer).buf@[old(buffer).pos + 6]);
            assert(sub[7] == old(buffer).buf@[old(buffer).pos + 7]);
            assert(sub[8] == old(buffer).buf@[old(buffer).pos + 8]);
            assert(sub[9] == old(buffer).buf@[old(buffer).pos + 9]);
            assert(sub[10] == old(buffer).buf@[old(buffer).pos + 10]);
            assert(sub[11] == old(buffer).buf@[old(buffer).pos + 11]);
        }
        Ok(())
    }

    /// Encodes the header at the cursor, advancing it twelve bytes;
    /// fails exactly when fewer than twelve remain.
    #[verifier::rlimit(100)]
    pub fn write(&self, buffer: &mut BytePacketBuffer) -> (r: Result<(), DnsError>)
        requires
            old(buffer).wf(),
        ensures
            final(buffer).wf(),
            r is Ok <==> old(buffer).pos + 12 <= PACKET_SIZE,
            r is Ok ==> final(buffer).buf@ == splice(
                old(buffer).buf@,
                old(buffer).pos as int,
                header_bytes(*self),
            ) && final(buffer).pos == old(buffer).pos + 12,
            r !is Ok ==> r == Err::<(), DnsError>(DnsError::InvalidInput),
    {
        let ghost buf0 = old(buffer).buf@;
        let ghost pos0 = old(buffer).pos as int;
        buffer.write_u16(self.id)?;
        let a: u8 = (if self.recursion_desired {
            1u8
        } else {
            0u8
        }) | ((if self.truncated_message {
            1u8
        } else {
            0u8
        }) << 1) | ((if self.authoritative_answer {
            1u8
        } else {
            0u8
        }) << 2) | (self.opcode << 3) | ((if self.response {
            1u8
        } else {
            0u8
        }) << 7);
        buffer.write_u8(a)?;
        let b: u8 = self.result_code.to_num() | ((if self.checking_disabled {
            1u8
        } else {
            0u8
        }) << 4) | ((if self.authed_data {
            1u8
        } else {
            0u8
        }) << 5) | ((if self.z {
            1u8
        } else {
            0u8
        }) << 6) | ((if self.recursion_available {
            1u8
        } else {
            0u8
        }) << 7);
        buffer.write_u8(b)?;
        buffer.write_u16(self.questions)?;
        buffer.write_u16(self.answers)?;
        buffer.write_u16(self.authoritative_entries)?;
        buffer.write_u16(self.resource_entries)?;
        proof {
            assert(a == header_flags_a(*self));
            assert(b == header_flags_b(*self));
            assert(buffer.buf@ =~= splice(buf0, pos0, header_bytes(*self)));
        }
        Ok(())
    }
}

/// Spec-level question: the name as a byte sequence.
pub struct QuestionModel {
    pub name: Seq<u8>,
    pub record_type: RecordType,
}

/// A query: a dotted name (lower-cased on decode) and a record type.
/// The class is always written as 1 and ignored on read.
#[derive(Debug, Clone, PartialEq, Eq)]
pub struct DnsQuestion {
    pub name: Vec<u8>,
    pub record_type: RecordType,
}

impl View for DnsQuestion {
    type V = QuestionModel;

    open spec fn view(&self) -> QuestionModel {
        QuestionModel { name: self.name@, record_type: self.record_type }
    }
}

/// The wire form of a question: name, type, class 1.
pub open spec fn question_bytes(q: QuestionModel) -> Seq<u8> {
    qname_bytes(q.name) + u16_bytes(rt_num(q.record_type)) + u16_bytes(1)
}

/// The question decoded at `pos`, with the position just past it.
pub open spec fn parse_question(buf: Seq<u8>, pos: int) -> Option<(QuestionModel, int)> {
    match parse_qname(buf, pos, MAX_JUMPS as nat) {
        None => None,
        Some((name, p1)) => if p1 + 4 <= buf.len() {
            Some(
                (
                    QuestionModel { name, record_type: rt_of(be_u16(buf[p1], buf[p1 + 1])) },
                    p1 + 4,
                ),
            )
        } else {
            None
        },
    }
}

impl DnsQuestion {
    /// A question from its parts.
    pub fn new(name: Vec<u8>, record_type: RecordType) -> (r: DnsQuestion)
        ensures
            r.name == name,
            r.record_type == record_type,
    {
        DnsQuestion { name, record_type }
    }

    /// Decodes the question at the cursor, appending the decoded name
    /// to `self.name` and leaving the cursor just past the question.
    pub fn read(&mut self, buffer: &mut BytePacketBuffer) -> (r: Result<(), DnsError>)
        requires
            old(buffer).wf(),
        ensures
            final(buffer).wf(),
            final(buffer).buf@ == old(buffer).buf@,
            match parse_question(old(buffer).buf@, old(buffer).pos as int) {
                Some(res) => r is Ok && final(self).name@ == old(self).name@ + res.0.name
                    && final(self).record_type == res.0.record_type
                    && final(buffer).pos as int == res.1,
                None => r == Err::<(), DnsError>(DnsError::InvalidInput),
            },
    {
        buffer.read_qname(&mut self.name)?;
        self.record_type = RecordType::from_num(buffer.read_u16()?);
        let _ = buffer.read_u16()?;
        Ok(())
    }

    /// Encodes the question at the cursor.  Succeeds exactly when the
    /// name's labels are short enough and the wire form fits.
    pub fn write(&self, buffer: &mut BytePacketBuffer) -> (r: Result<(), DnsError>)
        requires
            old(buffer).wf(),
        ensures
            final(buffer).wf(),
            r is Ok <==> (qname_ok(self.name@) && old(buffer).pos + question_bytes(self@).len()
                <= PACKET_SIZE),
            r is Ok ==> final(buffer).buf@ == splice(
                old(buffer).buf@,
                old(buffer).pos as int,
                question_bytes(self@),
            ) && final(buffer).pos == old(buffer).pos + question_bytes(self@).len(),
            r !is Ok ==> r == Err::<(), DnsError>(DnsError::InvalidInput),
    {
        let ghost buf0 = old(buffer).buf@;
        let ghost pos0 = old(buffer).pos as int;
        let ghost qn = qname_bytes(self.name@);
        buffer.write_qname(&self.name)?;
        let type_as_num = self.record_type.to_num();
        match buffer.write_u16(type_as_num) {
            Ok(_) => {},
            Err(e) => {
                return Err(e);
            },
        }
        proof {
            assert(buffer.buf@ =~= splice(splice(buf0, pos0, qn), pos0 + qn.len(), u16_bytes(
                type_as_num,
            )));
            lemma_splice_append(buf0, pos0, qn, u16_bytes(type_as_num));
        }
        match buffer.write_u16(1) {
            Ok(_) => {},
            Err(e) => {
                return Err(e);
            },
        }
        proof {
            let x = qn + u16_bytes(rt_num(self.record_type));
            assert(buffer.buf@ =~= splice(splice(buf0, pos0, x), pos0 + x.len(), u16_bytes(1)));
            lemma_splice_append(buf0, pos0, x, u16_bytes(1u16));
            assert(x + u16_bytes(1u16) =~= question_bytes(self@));
        }
        Ok(())
    }
}

/// Law: a well-formed question decodes back from its own wire form,
/// wherever it stands in the buffer.
pub proof fn lemma_question_round_trip(buf: Seq<u8>, pos: int, q: QuestionModel)
    requires
        qname_wf(q.name),
        !(q.record_type is UNKNOWN),
        0 <= pos,
        pos + question_bytes(q).len() <= buf.len(),
        buf.subrange(pos, pos + question_bytes(q).len()) == question_bytes(q),
    ensures
        parse_question(buf, pos) == Some((q, pos + question_bytes(q).len())),
{
    let qn = qname_bytes(q.name);
    let qb = question_bytes(q);
    let sub = buf.subrange(pos, pos + qb.len());
    assert(forall|i: int| 0 <= i < qb.len() ==> #[trigger] sub[i] == buf[pos + i]);
    assert(buf.subrange(pos, pos + qn.len()) =~= qn) by {
        assert(forall|i: int|
            0 <= i < qn.len() ==> #[trigger] buf.subrange(pos, pos + qn.len())[i] == buf[pos + i]);
        assert(forall|i: int| 0 <= i < qn.len() ==> qb[i] == qn[i]);
    }
    lemma_qname_round_trip(buf, pos, q.name, MAX_JUMPS as nat);
    let p1 = pos + qn.len();
    assert(buf[p1] == qb[qn.len() as int] && buf[p1 + 1] == qb[qn.len() as int + 1]) by {
        assert(sub[qn.len() as int] == buf[pos + qn.len()]);
        assert(sub[qn.len() as int + 1] == buf[pos + qn.len() + 1]);
    }
    assert(qb[qn.len() as int] == u16_bytes(rt_num(q.record_type))[0]);
    assert(qb[qn.len() as int + 1] == u16_bytes(rt_num(q.record_type))[1]);
    crate::packet::lemma_u16_round_trip(rt_num(q.record_type));
    assert(rt_of(rt_num(q.record_type)) == q.record_type);
}

/// Spec-level record contents: names and addresses as sequences.
pub enum RecordModel {
    Unknown { domain: Seq<u8>, record_type: u16, data_len: u16, ttl: u32 },
    A { domain: Seq<u8>, addr: Seq<u8>, ttl: u32 },
    Ns { domain: Seq<u8>, host: Seq<u8>, ttl: u32 },
    Cname { domain: Seq<u8>, host: Seq<u8>, ttl: u32 },
    Mx { domain: Seq<u8>, priority: u16, host: Seq<u8>, ttl: u32 },
    Aaaa { domain: Seq<u8>, addr: Seq<u16>, ttl: u32 },
}

/// A resource record.  An `A` address is its four network-order
/// octets; an `AAAA` address is its eight network-order segments.
/// `UNKNOWN` keeps the numeric type; its RDATA is skipped on read and
/// nothing is emitted for it on write.
#[allow(non_camel_case_types)]
#[derive(Debug, Clone, PartialEq, Eq)]
pub enum DnsRecord {
    UNKNOWN { domain: Vec<u8>, record_type: u16, data_len: u16, ttl: u32 },
    A { domain: Vec<u8>, addr: Vec<u8>, ttl: u32 },
    NS { domain: Vec<u8>, host: Vec<u8>, ttl: u32 },
    CNAME { domain: Vec<u8>, host: Vec<u8>, ttl: u32 },
    MX { domain: Vec<u8>, priority: u16, host: Vec<u8>, ttl: u32 },
    AAAA { domain: Vec<u8>, addr: Vec<u16>, ttl: u32 },
}

impl View for DnsRecord {
    type V = RecordModel;

    open spec fn view(&self) -> RecordModel {
        match self {
            DnsRecord::UNKNOWN { domain, record_type, data_len, ttl } => RecordModel::Unknown {
                domain: domain@,
                record_type: *record_type,
                data_len: *data_len,
                ttl: *ttl,
            },
            DnsRecord::A { domain, addr, ttl } => RecordModel::A {
                domain: domain@,
                addr: addr@,
                ttl: *ttl,
            },
            DnsRecord::NS { domain, host, ttl } => RecordModel::Ns {
                domain: domain@,
                host: host@,
                ttl: *ttl,
            },
            DnsRecord::CNAME { domain, host, ttl } => RecordModel::Cname {
                domain: domain@,
                host: host@,
                ttl: *ttl,
            },
            DnsRecord::MX { domain, priority, host, ttl } => RecordModel::Mx {
                domain: domain@,
                priority: *priority,
                host: host@,
                ttl: *ttl,
            },
            DnsRecord::AAAA { domain, addr, ttl } => RecordModel::Aaaa {
                domain: domain@,
                addr: addr@,
                ttl: *ttl,
            },
        }
    }
}

/// Sixteen-bit segments laid out big-endian, in order.
pub open spec fn segs_bytes(segs: Seq<u16>) -> Seq<u8>
    decreases segs.len(),
{
    if segs.len() == 0 {
        Seq::empty()
    } else {
        u16_bytes(segs[0]) + segs_bytes(segs.drop_first())
    }
}

/// The common record prefix: name, type, class 1, TTL.
pub open spec fn record_prefix(domain: Seq<u8>, tnum: u16, ttl: u32) -> Seq<u8> {
    qname_bytes(domain) + u16_bytes(tnum) + u16_bytes(1) + u32_bytes(ttl)
}

/// The wire form of a record as the encoder emits it.  `UNKNOWN`
/// records are skipped entirely: their wire form is empty.
pub open spec fn record_bytes(r: RecordModel) -> Seq<u8> {
    match r {
        RecordModel::Unknown { .. } => Seq::empty(),
        RecordModel::A { domain, addr, ttl } => record_prefix(domain, 1, ttl) + u16_bytes(4) + addr,
        RecordModel::Ns { domain, host, ttl } => record_prefix(domain, 2, ttl) + u16_bytes(
            qname_bytes(host).len() as u16,
        ) + qname_bytes(host),
        RecordModel::Cname { domain, host, ttl } => record_prefix(domain, 5, ttl) + u16_bytes(
            qname_bytes(host).len() as u16,
        ) + qname_bytes(host),
        RecordModel::Mx { domain, priority, host, ttl } => record_prefix(domain, 15, ttl)
            + u16_bytes((qname_bytes(host).len() + 2) as u16) + u16_bytes(priority) + qname_bytes(
            host,
        ),
        RecordModel::Aaaa { domain, addr, ttl } => record_prefix(domain, 28, ttl) + u16_bytes(16)
            + segs_bytes(addr),
    }
}

/// Whether the encoder accepts a record: its names must have labels
/// of at most 63 bytes.  An `UNKNOWN` record is always accepted, as
/// nothing is emitted for it.
pub open spec fn record_ok(r: RecordModel) -> bool {
    match r {
        RecordModel::Unknown { .. } => true,
        RecordModel::A { domain, .. } => qname_ok(domain),
        RecordModel::Ns { domain, host, .. } => qname_ok(domain) && qname_ok(host),
        RecordModel::Cname { domain, host, .. } => qname_ok(domain) && qname_ok(host),
        RecordModel::Mx { domain, host, .. } => qname_ok(domain) && qname_ok(host),
        RecordModel::Aaaa { domain, .. } => qname_ok(domain),
    }
}

/// The record decoded at `pos`, with the position just past it (for a
/// skipped record, just past its declared RDATA length).
pub open spec fn parse_record(buf: Seq<u8>, pos: int) -> Option<(RecordModel, int)> {
    match parse_qname(buf, pos, MAX_JUMPS as nat) {
        None => None,
        Some((domain, p1)) => if p1 + 10 <= buf.len() {
            let tnum = be_u16(buf[p1], buf[p1 + 1]);
            let ttl = be_u32(buf[p1 + 4], buf[p1 + 5], buf[p1 + 6], buf[p1 + 7]);
            let data_len = be_u16(buf[p1 + 8], buf[p1 + 9]);
            let p2 = p1 + 10;
            if rt_of(tnum) is A {
                if p2 + 4 <= buf.len() {
                    Some(
                        (
                            RecordModel::A { domain, addr: buf.subrange(p2, p2 + 4), ttl },
                            p2 + 4,
                        ),
                    )
                } else {
                    None
                }
            } else if rt_of(tnum) is AAAA {
                if p2 + 16 <= buf.len() {
                    Some(
                        (
                            RecordModel::Aaaa {
                                domain,
                                addr: Seq::new(
                                    8,
                                    |i: int| be_u16(buf[p2 + 2 * i], buf[p2 + 2 * i + 1]),
                                ),
                                ttl,
                            },
                            p2 + 16,
                        ),
                    )
                } else {
                    None
                }
            } else if rt_of(tnum) is NS {
                match parse_qname(buf, p2, MAX_JUMPS as nat) {
                    Some((host, p3)) => Some((RecordModel::Ns { domain, host, ttl }, p3)),
                    None => None,
                }
            } else if rt_of(tnum) is CNAME {
                match parse_qname(buf, p2, MAX_JUMPS as nat) {
                    Some((host, p3)) => Some((RecordModel::Cname { domain, host, ttl }, p3)),
                    None => None,
                }
            } else if rt_of(tnum) is MX {
                if p2 + 2 <= buf.len() {
                    let priority = be_u16(buf[p2], buf[p2 + 1]);
                    match parse_qname(buf, p2 + 2, MAX_JUMPS as nat) {
                        Some((host, p3)) => Some(
                            (RecordModel::Mx { domain, priority, host, ttl }, p3),
                        ),
                        None => None,
                    }
                } else {
                    None
                }
            } else {
                Some(
                    (
                        RecordModel::Unknown { domain, record_type: tnum, data_len, ttl },
                        p2 + data_len,
                    ),
                )
            }
        } else {
            None
        },
    }
}

/// Writes the common record prefix: name, type, class 1, TTL.
fn write_record_prefix(
    buffer: &mut BytePacketBuffer,
    domain: &Vec<u8>,
    tnum: u16,
    ttl: u32,
) -> (r: Result<(), DnsError>)
    requires
        old(buffer).wf(),
    ensures
        final(buffer).wf(),
        r is Ok <==> (qname_ok(domain@) && old(buffer).pos + record_prefix(
            domain@,
            tnum,
            ttl,
        ).len() <= PACKET_SIZE),
        r is Ok ==> final(buffer).buf@ == splice(
            old(buffer).buf@,
            old(buffer).pos as int,
            record_prefix(domain@, tnum, ttl),
        ) && final(buffer).pos == old(buffer).pos + record_prefix(domain@, tnum, ttl).len(),
        r !is Ok ==> r == Err::<(), DnsError>(DnsError::InvalidInput),
{
    let ghost buf0 = old(buffer).buf@;
    let ghost pos0 = old(buffer).pos as int;
    let ghost qn = qname_bytes(domain@);
    buffer.write_qname(domain)?;
    match buffer.write_u16(tnum) {
        Ok(_) => {},
        Err(e) => {
            return Err(e);
        },
    }
    proof {
        assert(buffer.buf@ =~= splice(splice(buf0, pos0, qn), pos0 + qn.len(), u16_bytes(tnum)));
        lemma_splice_append(buf0, pos0, qn, u16_bytes(tnum));
    }
    match buffer.write_u16(1) {
        Ok(_) => {},
        Err(e) => {
            return Err(e);
        },
    }
    proof {
        let x = qn + u16_bytes(tnum);
        assert(buffer.buf@ =~= splice(splice(buf0, pos0, x), pos0 + x.len(), u16_bytes(1)));
        lemma_splice_append(buf0, pos0, x, u16_bytes(1u16));
    }
    match buffer.write_u32(ttl) {
        Ok(_) => {},
        Err(e) => {
            return Err(e);
        },
    }
    proof {
        let x = qn + u16_bytes(tnum) + u16_bytes(1u16);
        assert(buffer.buf@ =~= splice(splice(buf0, pos0, x), pos0 + x.len(), u32_bytes(ttl)));
        lemma_splice_append(buf0, pos0, x, u32_bytes(ttl));
        assert(x + u32_bytes(ttl) =~= record_prefix(domain@, tnum, ttl));
    }
    Ok(())
}

impl DnsRecord {
    /// Decodes the record at the cursor.  The RDATA of an unrecognised
    /// type is skipped: the cursor moves past it by its declared
    /// length.
    pub fn read(buffer: &mut BytePacketBuffer) -> (r: Result<DnsRecord, DnsError>)
        requires
            old(buffer).wf(),
        ensures
            final(buffer).wf(),
            final(buffer).buf@ == old(buffer).buf@,
            match parse_record(old(buffer).buf@, old(buffer).pos as int) {
                Some(res) => r is Ok && r->Ok_0@ == res.0 && final(buffer).pos as int == res.1,
                None => r == Err::<DnsRecord, DnsError>(DnsError::InvalidInput),
            },
    {
        let ghost buf0 = old(buffer).buf@;
        let mut domain: Vec<u8> = Vec::new();
        buffer.read_qname(&mut domain)?;
        let ghost p1 = buffer.pos as int;

        let record_type_num = buffer.read_u16()?;
        let record_type = RecordType::from_num(record_type_num);
        let _ = buffer.read_u16()?;
        let ttl = buffer.read_u32()?;
        let data_len = buffer.read_u16()?;
        let ghost p2 = buffer.pos as int;

        match record_type {
            RecordType::A => {
                let raw_addr = buffer.read_u32()?;
                let mut addr: Vec<u8> = Vec::new();
                addr.push((raw_addr >> 24) as u8);
                addr.push((raw_addr >> 16) as u8);
                addr.push((raw_addr >> 8) as u8);
                addr.push(raw_addr as u8);
                proof {
                    lemma_u32_bytes_round_trip(buf0[p2], buf0[p2 + 1], buf0[p2 + 2], buf0[p2 + 3]);
                    assert(addr@ =~= buf0.subrange(p2, p2 + 4));
                }
                Ok(DnsRecord::A { domain, addr, ttl })
            },
            RecordType::AAAA => {
                let raw_addr1 = buffer.read_u32()?;
                let raw_addr2 = buffer.read_u32()?;
                let raw_addr3 = buffer.read_u32()?;
                let raw_addr4 = buffer.read_u32()?;
                let mut addr: Vec<u16> = Vec::new();
                addr.push((raw_addr1 >> 16) as u16);
                addr.push(raw_addr1 as u16);
                addr.push((raw_addr2 >> 16) as u16);
                addr.push(raw_addr2 as u16);
                addr.push((raw_addr3 >> 16) as u16);
                addr.push(raw_addr3 as u16);
                addr.push((raw_addr4 >> 16) as u16);
                addr.push(raw_addr4 as u16);
                proof {
                    crate::packet::lemma_u32_halves(buf0[p2], buf0[p2 + 1], buf0[p2 + 2], buf0[p2 + 3]);
                    crate::packet::lemma_u32_halves(buf0[p2 + 4], buf0[p2 + 5], buf0[p2 + 6], buf0[p2 + 7]);
                    crate::packet::lemma_u32_halves(buf0[p2 + 8], buf0[p2 + 9], buf0[p2 + 10], buf0[p2 + 11]);
                    crate::packet::lemma_u32_halves(buf0[p2 + 12], buf0[p2 + 13], buf0[p2 + 14], buf0[p2 + 15]);
                    assert(addr@ =~= Seq::new(8, |i: int| be_u16(buf0[p2 + 2 * i], buf0[p2 + 2 * i + 1])));
                }
                Ok(DnsRecord::AAAA { domain, addr, ttl })
            },
            RecordType::NS => {
                let mut ns: Vec<u8> = Vec::new();
                buffer.read_qname(&mut ns)?;
                Ok(DnsRecord::NS { domain, host: ns, ttl })
            },
            RecordType::CNAME => {
                let mut cname: Vec<u8> = Vec::new();
                buffer.read_qname(&mut cname)?;
                Ok(DnsRecord::CNAME { domain, host: cname, ttl })
            },
            RecordType::MX => {
                let priority = buffer.read_u16()?;
                let mut mx: Vec<u8> = Vec::new();
                buffer.read_qname(&mut mx)?;
                Ok(DnsRecord::MX { domain, priority, host: mx, ttl })
            },
            RecordType::UNKNOWN(_) => {
                buffer.step(data_len as usize)?;
                Ok(DnsRecord::UNKNOWN { domain, record_type: record_type_num, data_len, ttl })
            },
            RecordType::HTTPS => {
                buffer.step(data_len as usize)?;
                Ok(DnsRecord::UNKNOWN { domain, record_type: record_type_num, data_len, ttl })
            },
        }
    }

    /// Encodes the record at the cursor and returns how many bytes it
    /// wrote.  An `UNKNOWN` record is skipped and writes nothing.  For
    /// the others, success means exactly that every label fits and the
    /// record's wire form has room; RDATA lengths of name-bearing
    /// records are back-patched once their size is known.
    #[verifier::rlimit(100)]
    #[verifier::loop_isolation(false)]
    pub fn write(&self, buffer: &mut BytePacketBuffer) -> (r: Result<usize, DnsError>)
        requires
            old(buffer).wf(),
        ensures
            final(buffer).wf(),
            self@ is Unknown ==> r == Ok::<usize, DnsError>(0) && *final(buffer) == *old(buffer),
            !(self@ is Unknown) ==> (r is Ok <==> (record_ok(self@) && old(buffer).pos
                + record_bytes(self@).len() <= PACKET_SIZE)),
            !(self@ is Unknown) && r is Ok ==> final(buffer).buf@ == splice(
                old(buffer).buf@,
                old(buffer).pos as int,
                record_bytes(self@),
            ) && final(buffer).pos == old(buffer).pos + record_bytes(self@).len(),
            r is Ok ==> r->Ok_0 == record_bytes(self@).len(),
            r !is Ok ==> r == Err::<usize, DnsError>(DnsError::InvalidInput),
    {
        let ghost buf0 = old(buffer).buf@;
        let ghost pos0 = old(buffer).pos as int;
        let start_pos = buffer.pos();

        match self {
            DnsRecord::A { domain, addr, ttl } => {
                let ghost pre = record_prefix(domain@, 1, *ttl);
                write_record_prefix(buffer, domain, RecordType::A.to_num(), *ttl)?;
                match buffer.write_u16(4) {
                    Ok(_) => {},
                    Err(e) => {
                        return Err(e);
                    },
                }
                proof {
                    assert(buffer.buf@ =~= splice(splice(buf0, pos0, pre), pos0 + pre.len(),
                        u16_bytes(4)));
                    lemma_splice_append(buf0, pos0, pre, u16_bytes(4u16));
                }
                let mut k: usize = 0;
                while k < addr.len()
                    invariant
                        buffer.wf(),
                        k <= addr.len(),
                        buffer.pos == pos0 + pre.len() + 2 + k,
                        pos0 + pre.len() + 2 + k <= PACKET_SIZE,
                        buffer.buf@ == splice(
                            buf0,
                            pos0,
                            pre + u16_bytes(4u16) + addr@.subrange(0, k as int),
                        ),
                    decreases addr.len() - k,
                {
                    match buffer.write_u8(addr[k]) {
                        Ok(_) => {},
                        Err(e) => {
                            proof {
                                assert(record_bytes(self@).len() == pre.len() + 2 + addr@.len());
                            }
                            return Err(e);
                        },
                    }
                    proof {
                        let x = pre + u16_bytes(4u16) + addr@.subrange(0, k as int);
                        assert(buffer.buf@ =~= splice(splice(buf0, pos0, x), pos0 + x.len(),
                            seq![addr@[k as int]]));
                        lemma_splice_append(buf0, pos0, x, seq![addr@[k as int]]);
                        assert(x + seq![addr@[k as int]] =~= pre + u16_bytes(4u16)
                            + addr@.subrange(0, k + 1));
                    }
                    k = k + 1;
                }
                proof {
                    assert(addr@.subrange(0, addr@.len() as int) =~= addr@);
                    assert(pre + u16_bytes(4u16) + addr@ =~= record_bytes(self@));
                }
                Ok(buffer.pos() - start_pos)
            },
            DnsRecord::NS { domain, host, ttl } => {
                let ghost pre = record_prefix(domain@, 2, *ttl);
                write_record_prefix(buffer, domain, RecordType::NS.to_num(), *ttl)?;
                let pos = buffer.pos();
                match buffer.write_u16(0) {
                    Ok(_) => {},
                    Err(e) => {
                        return Err(e);
                    },
                }
                proof {
                    assert(buffer.buf@ =~= splice(splice(buf0, pos0, pre), pos0 + pre.len(),
                        u16_bytes(0)));
                    lemma_splice_append(buf0, pos0, pre, u16_bytes(0u16));
                }
                match buffer.write_qname(host) {
                    Ok(_) => {},
                    Err(e) => {
                        return Err(e);
                    },
                }
                proof {
                    lemma_splice_append(buf0, pos0, pre + u16_bytes(0u16), qname_bytes(host@));
                }
                let size = buffer.pos() - (pos + 2);
                match buffer.set_u16(pos, size as u16) {
                    Ok(_) => {},
                    Err(e) => {
                        proof {
                            assert(false);
                        }
                        return Err(e);
                    },
                }
                proof {
                    let x = pre + u16_bytes(0u16) + qname_bytes(host@);
                    crate::packet::lemma_splice_patch(
                        buf0,
                        pos0,
                        x,
                        pre.len() as int,
                        u16_bytes(size as u16)[0],
                        u16_bytes(size as u16)[1],
                    );
                    assert(x.update(pre.len() as int, u16_bytes(size as u16)[0]).update(
                        pre.len() as int + 1,
                        u16_bytes(size as u16)[1],
                    ) =~= pre + u16_bytes(size as u16) + qname_bytes(host@));
                    assert(pre + u16_bytes(size as u16) + qname_bytes(host@) =~= record_bytes(
                        self@,
                    ));
                }
                Ok(buffer.pos() - start_pos)
            },
            DnsRecord::CNAME { domain, host, ttl } => {
                let ghost pre = record_prefix(domain@, 5, *ttl);
                write_record_prefix(buffer, domain, RecordType::CNAME.to_num(), *ttl)?;
                let pos = buffer.pos();
                match buffer.write_u16(0) {
                    Ok(_) => {},
                    Err(e) => {
                        return Err(e);
                    },
                }
                proof {
                    assert(buffer.buf@ =~= splice(splice(buf0, pos0, pre), pos0 + pre.len(),
                        u16_bytes(0)));
                    lemma_splice_append(buf0, pos0, pre, u16_bytes(0u16));
                }
                match buffer.write_qname(host) {
                    Ok(_) => {},
                    Err(e) => {
                        return Err(e);
                    },
                }
                proof {
                    lemma_splice_append(buf0, pos0, pre + u16_bytes(0u16), qname_bytes(host@));
                }
                let size = buffer.pos() - (pos + 2);
                match buffer.set_u16(pos, size as u16) {
                    Ok(_) => {},
                    Err(e) => {
                        proof {
                            assert(false);
                        }
                        return Err(e);
                    },
                }
                proof {
                    let x = pre + u16_bytes(0u16) + qname_bytes(host@);
                    crate::packet::lemma_splice_patch(
                        buf0,
                        pos0,
                        x,
                        pre.len() as int,
                        u16_bytes(size as u16)[0],
                        u16_bytes(size as u16)[1],
                    );
                    assert(x.update(pre.len() as int, u16_bytes(size as u16)[0]).update(
                        pre.len() as int + 1,
                        u16_bytes(size as u16)[1],
                    ) =~= pre + u16_bytes(size as u16) + qname_bytes(host@));
                    assert(pre + u16_bytes(size as u16) + qname_bytes(host@) =~= record_bytes(
                        self@,
                    ));
                }
                Ok(buffer.pos() - start_pos)
            },
            DnsRecord::MX { domain, priority, host, ttl } => {
                let ghost pre = record_prefix(domain@, 15, *ttl);
                write_record_prefix(buffer, domain, RecordType::MX.to_num(), *ttl)?;
                let pos = buffer.pos();
                match buffer.write_u16(0) {
                    Ok(_) => {},
                    Err(e) => {
                        return Err(e);
                    },
                }
                proof {
                    assert(buffer.buf@ =~= splice(splice(buf0, pos0, pre), pos0 + pre.len(),
                        u16_bytes(0)));
                    lemma_splice_append(buf0, pos0, pre, u16_bytes(0u16));
                }
                match buffer.write_u16(*priority) {
                    Ok(_) => {},
                    Err(e) => {
                        return Err(e);
                    },
                }
                proof {
                    let x = pre + u16_bytes(0u16);
                    assert(buffer.buf@ =~= splice(splice(buf0, pos0, x), pos0 + x.len(),
                        u16_bytes(*priority)));
                    lemma_splice_append(buf0, pos0, x, u16_bytes(*priority));
                }
                match buffer.write_qname(host) {
                    Ok(_) => {},
                    Err(e) => {
                        return Err(e);
                    },
                }
                proof {
                    lemma_splice_append(
                        buf0,
                        pos0,
                        pre + u16_bytes(0u16) + u16_bytes(*priority),
                        qname_bytes(host@),
                    );
                }
                let size = buffer.pos() - (pos + 2);
                match buffer.set_u16(pos, size as u16) {
                    Ok(_) => {},
                    Err(e) => {
                        proof {
                            assert(false);
                        }
                        return Err(e);
                    },
                }
                proof {
                    let x = pre + u16_bytes(0u16) + u16_bytes(*priority) + qname_bytes(host@);
                    assert(x =~= (pre + u16_bytes(0u16)) + (u16_bytes(*priority) + qname_bytes(
                        host@,
                    )));
                    crate::packet::lemma_splice_patch(
                        buf0,
                        pos0,
                        x,
                        pre.len() as int,
                        u16_bytes(size as u16)[0],
                        u16_bytes(size as u16)[1],
                    );
                    assert(x.update(pre.len() as int, u16_bytes(size as u16)[0]).update(
                        pre.len() as int + 1,
                        u16_bytes(size as u16)[1],
                    ) =~= pre + u16_bytes(size as u16) + u16_bytes(*priority) + qname_bytes(
                        host@,
                    ));
                    assert(pre + u16_bytes(size as u16) + u16_bytes(*priority) + qname_bytes(host@)
                        =~= record_bytes(self@));
                }
                Ok(buffer.pos() - start_pos)
            },
            DnsRecord::AAAA { domain, addr, ttl } => {
                let ghost pre = record_prefix(domain@, 28, *ttl);
                write_record_prefix(buffer, domain, RecordType::AAAA.to_num(), *ttl)?;
                match buffer.write_u16(16) {
                    Ok(_) => {},
                    Err(e) => {
                        return Err(e);
                    },
                }
                proof {
                    assert(buffer.buf@ =~= splice(splice(buf0, pos0, pre), pos0 + pre.len(),
                        u16_bytes(16)));
                    lemma_splice_append(buf0, pos0, pre, u16_bytes(16u16));
                }
                let mut k: usize = 0;
                while k < addr.len()
                    invariant
                        buffer.wf(),
                        k <= addr.len(),
                        buffer.pos == pos0 + pre.len() + 2 + 2 * k,
                        pos0 + pre.len() + 2 + 2 * k <= PACKET_SIZE,
                        buffer.buf@ == splice(
                            buf0,
                            pos0,
                            pre + u16_bytes(16u16) + segs_bytes(addr@.subrange(0, k as int)),
                        ),
                        segs_bytes(addr@.subrange(0, k as int)).len() == 2 * k,
                    decreases addr.len() - k,
                {
                    match buffer.write_u16(addr[k]) {
                        Ok(_) => {},
                        Err(e) => {
                            proof {
                                lemma_segs_bytes_len(addr@);
                                assert(record_bytes(self@).len() == pre.len() + 2 + 2 * addr@.len());
                            }
                            return Err(e);
                        },
                    }
                    proof {
                        let x = pre + u16_bytes(16u16) + segs_bytes(addr@.subrange(0, k as int));
                        assert(buffer.buf@ =~= splice(splice(buf0, pos0, x), pos0 + x.len(),
                            u16_bytes(addr@[k as int])));
                        lemma_splice_append(buf0, pos0, x, u16_bytes(addr@[k as int]));
                        lemma_segs_bytes_snoc(addr@, k as int);
                        assert(x + u16_bytes(addr@[k as int]) =~= pre + u16_bytes(16u16)
                            + segs_bytes(addr@.subrange(0, k + 1)));
                    }
                    k = k + 1;
                }
                proof {
                    assert(addr@.subrange(0, addr@.len() as int) =~= addr@);
                    assert(pre + u16_bytes(16u16) + segs_bytes(addr@) =~= record_bytes(self@));
                    lemma_segs_bytes_len(addr@);
                }
                Ok(buffer.pos() - start_pos)
            },
            DnsRecord::UNKNOWN { .. } => Ok(buffer.pos() - start_pos),
        }
    }
}

impl DeepView for DnsQuestion {
    type V = QuestionModel;

    open spec fn deep_view(&self) -> QuestionModel {
        self.view()
    }
}

impl DeepView for DnsRecord {
    type V = RecordModel;

    open spec fn deep_view(&self) -> RecordModel {
        self.view()
    }
}

/// Spec-level packet: a header and its four ordered sections.
#[verifier::ext_equal]
pub struct PacketModel {
    pub header: DnsHeader,
    pub questions: Seq<QuestionModel>,
    pub answers: Seq<RecordModel>,
    pub authorities: Seq<RecordModel>,
    pub resources: Seq<RecordModel>,
}

/// `n` questions decoded one after another from `pos`.
pub open spec fn parse_questions(buf: Seq<u8>, pos: int, n: nat) -> Option<
    (Seq<QuestionModel>, int),
>
    decreases n,
{
    if n == 0 {
        Some((Seq::empty(), pos))
    } else {
        match parse_question(buf, pos) {
            None => None,
            Some((q, p1)) => match parse_questions(buf, p1, (n - 1) as nat) {
                None => None,
                Some((rest, end)) => Some((seq![q] + rest, end)),
            },
        }
    }
}

/// `n` records decoded one after another from `pos`.
pub open spec fn parse_records(buf: Seq<u8>, pos: int, n: nat) -> Option<(Seq<RecordModel>, int)>
    decreases n,
{
    if n == 0 {
        Some((Seq::empty(), pos))
    } else {
        match parse_record(buf, pos) {
            None => None,
            Some((r, p1)) => match parse_records(buf, p1, (n - 1) as nat) {
                None => None,
                Some((rest, end)) => Some((seq![r] + rest, end)),
            },
        }
    }
}

/// The whole packet decoded at `pos`: a header, then as many
/// questions, answers, authorities and additional records as the
/// header counts announce.  Any decode error fails the packet whole.
pub open spec fn parse_packet(buf: Seq<u8>, pos: int) -> Option<PacketModel> {
    match parse_header(buf, pos) {
        None => None,
        Some((header, p1)) => match parse_questions(buf, p1, header.questions as nat) {
            None => None,
            Some((questions, p2)) => match parse_records(buf, p2, header.answers as nat) {
                None => None,
                Some((answers, p3)) => match parse_records(
                    buf,
                    p3,
                    header.authoritative_entries as nat,
                ) {
                    None => None,
                    Some((authorities, p4)) => match parse_records(
                        buf,
                        p4,
                        header.resource_entries as nat,
                    ) {
                        None => None,
                        Some((resources, _)) => Some(
                            PacketModel { header, questions, answers, authorities, resources },
                        ),
                    },
                },
            },
        },
    }
}

/// The wire form of a question section.
pub open spec fn questions_bytes(qs: Seq<QuestionModel>) -> Seq<u8>
    decreases qs.len(),
{
    if qs.len() == 0 {
        Seq::empty()
    } else {
        question_bytes(qs[0]) + questions_bytes(qs.drop_first())
    }
}

/// The wire form of a record section.
pub open spec fn records_bytes(rs: Seq<RecordModel>) -> Seq<u8>
    decreases rs.len(),
{
    if rs.len() == 0 {
        Seq::empty()
    } else {
        record_bytes(rs[0]) + records_bytes(rs.drop_first())
    }
}

/// The header with its counts reconciled to the section lengths, as
/// the packet writer emits it.
pub open spec fn recount(p: PacketModel) -> DnsHeader {
    DnsHeader {
        questions: p.questions.len() as u16,
        answers: p.answers.len() as u16,
        authoritative_entries: p.authorities.len() as u16,
        resource_entries: p.resources.len() as u16,
        ..p.header
    }
}

/// The wire form of a whole packet: reconciled header, then the four
/// sections in order.
pub open spec fn packet_bytes(p: PacketModel) -> Seq<u8> {
    header_bytes(recount(p)) + questions_bytes(p.questions) + records_bytes(p.answers)
        + records_bytes(p.authorities) + records_bytes(p.resources)
}

/// Whether the encoder accepts every name in the packet.
pub open spec fn packet_ok(p: PacketModel) -> bool {
    &&& forall|i: int| 0 <= i < p.questions.len() ==> qname_ok(#[trigger] p.questions[i].name)
    &&& forall|i: int| 0 <= i < p.answers.len() ==> record_ok(#[trigger] p.answers[i])
    &&& forall|i: int| 0 <= i < p.authorities.len() ==> record_ok(#[trigger] p.authorities[i])
    &&& forall|i: int| 0 <= i < p.resources.len() ==> record_ok(#[trigger] p.resources[i])
}

/// A DNS packet: header plus questions, answers, authorities and
/// additional resources.  On write the header counts are reconciled
/// to the section lengths before anything is emitted.
#[derive(Debug, Clone, PartialEq, Eq)]
pub struct DnsPacket {
    pub header: DnsHeader,
    pub questions: Vec<DnsQuestion>,
    pub answers: Vec<DnsRecord>,
    pub authorities: Vec<DnsRecord>,
    pub resources: Vec<DnsRecord>,
}

impl View for DnsPacket {
    type V = PacketModel;

    open spec fn view(&self) -> PacketModel {
        PacketModel {
            header: self.header,
            questions: self.questions.deep_view(),
            answers: self.answers.deep_view(),
            authorities: self.authorities.deep_view(),
            resources: self.resources.deep_view(),
        }
    }
}

impl DnsPacket {
    /// An empty packet with a zeroed header.
    pub fn new() -> (r: DnsPacket)
        ensures
            r.header == (DnsHeader {
                id: 0,
                recursion_desired: false,
                truncated_message: false,
                authoritative_answer: false,
                opcode: 0,
                response: false,
                result_code: ResultCode::NOERROR,
                checking_disabled: false,
                authed_data: false,
                z: false,
                recursion_available: false,
                questions: 0,
                answers: 0,
                authoritative_entries: 0,
                resource_entries: 0,
            }),
            r.questions@.len() == 0,
            r.answers@.len() == 0,
            r.authorities@.len() == 0,
            r.resources@.len() == 0,
    {
        DnsPacket {
            header: DnsHeader::new(),
            questions: Vec::new(),
            answers: Vec::new(),
            authorities: Vec::new(),
            resources: Vec::new(),
        }
    }

    /// Decodes a whole packet at the cursor; the header counts drive
    /// how many questions and records are read, and any decode error
    /// fails the packet as a whole.
    pub fn from_buffer(buffer: &mut BytePacketBuffer) -> (r: Result<DnsPacket, DnsError>)
        requires
            old(buffer).wf(),
        ensures
            final(buffer).wf(),
            final(buffer).buf@ == old(buffer).buf@,
            match parse_packet(old(buffer).buf@, old(buffer).pos as int) {
                Some(m) => r is Ok && r->Ok_0@ == m,
                None => r == Err::<DnsPacket, DnsError>(DnsError::InvalidInput),
            },
    {
        let mut result = DnsPacket::new();
        result.header.read(buffer)?;
        result.questions = read_questions(buffer, result.header.questions)?;
        result.answers = read_records(buffer, result.header.answers)?;
        result.authorities = read_records(buffer, result.header.authoritative_entries)?;
        result.resources = read_records(buffer, result.header.resource_entries)?;
        Ok(result)
    }

    /// Encodes the packet at the cursor.  The header counts are first
    /// reconciled to the section lengths; then the header and the four
    /// sections are written in order.  Succeeds exactly when every
    /// name's labels fit and the whole wire form has room.
    pub fn write(&mut self, buffer: &mut BytePacketBuffer) -> (r: Result<(), DnsError>)
        requires
            old(buffer).wf(),
        ensures
            final(buffer).wf(),
            final(self).header == recount(old(self)@),
            final(self).questions == old(self).questions,
            final(self).answers == old(self).answers,
            final(self).authorities == old(self).authorities,
            final(self).resources == old(self).resources,
            r is Ok <==> (packet_ok(old(self)@) && old(buffer).pos + packet_bytes(
                old(self)@,
            ).len() <= PACKET_SIZE),
            r is Ok ==> final(buffer).buf@ == splice(
                old(buffer).buf@,
                old(buffer).pos as int,
                packet_bytes(old(self)@),
            ) && final(buffer).pos == old(buffer).pos + packet_bytes(old(self)@).len(),
            r !is Ok ==> r == Err::<(), DnsError>(DnsError::InvalidInput),
    {
        let ghost buf0 = old(buffer).buf@;
        let ghost pos0 = old(buffer).pos as int;
        let ghost m = old(self)@;
        self.header.questions = self.questions.len() as u16;
        self.header.answers = self.answers.len() as u16;
        self.header.authoritative_entries = self.authorities.len() as u16;
        self.header.resource_entries = self.resources.len() as u16;
        proof {
            assert(self.header == recount(m));
        }

        match self.header.write(buffer) {
            Ok(_) => {},
            Err(e) => {
                return Err(e);
            },
        }
        match write_questions(buffer, &self.questions) {
            Ok(_) => {},
            Err(e) => {
                return Err(e);
            },
        }
        proof {
            lemma_splice_append(buf0, pos0, header_bytes(recount(m)), questions_bytes(m.questions));
        }
        match write_records(buffer, &self.answers) {
            Ok(_) => {},
            Err(e) => {
                return Err(e);
            },
        }
        proof {
            lemma_splice_append(
                buf0,
                pos0,
                header_bytes(recount(m)) + questions_bytes(m.questions),
                records_bytes(m.answers),
            );
        }
        match write_records(buffer, &self.authorities) {
            Ok(_) => {},
            Err(e) => {
                return Err(e);
            },
        }
        proof {
            lemma_splice_append(
                buf0,
                pos0,
                header_bytes(recount(m)) + questions_bytes(m.questions) + records_bytes(m.answers),
                records_bytes(m.authorities),
            );
        }
        match write_records(buffer, &self.resources) {
            Ok(_) => {},
            Err(e) => {
                return Err(e);
            },
        }
        proof {
            lemma_splice_append(
                buf0,
                pos0,
                header_bytes(recount(m)) + questions_bytes(m.questions) + records_bytes(m.answers)
                    + records_bytes(m.authorities),
                records_bytes(m.resources),
            );
        }
        Ok(())
    }
}

/// Decodes `n` questions one after another at the cursor.
#[verifier::loop_isolation(false)]
fn read_questions(buffer: &mut BytePacketBuffer, n: u16) -> (r: Result<Vec<DnsQuestion>, DnsError>)
    requires
        old(buffer).wf(),
    ensures
        final(buffer).wf(),
        final(buffer).buf@ == old(buffer).buf@,
        match parse_questions(old(buffer).buf@, old(buffer).pos as int, n as nat) {
            Some(res) => r is Ok && r->Ok_0.deep_view() == res.0 && final(buffer).pos as int
                == res.1,
            None => r == Err::<Vec<DnsQuestion>, DnsError>(DnsError::InvalidInput),
        },
{
    let ghost buf0 = old(buffer).buf@;
    let mut out: Vec<DnsQuestion> = Vec::new();
    let mut i: u16 = 0;
    while i < n
        invariant
            buffer.wf(),
            buffer.buf@ == buf0,
            i <= n,
            out.deep_view().len() == i,
            match parse_questions(buf0, buffer.pos as int, (n - i) as nat) {
                Some(res) => parse_questions(buf0, old(buffer).pos as int, n as nat) == Some(
                    (out.deep_view() + res.0, res.1),
                ),
                None => parse_questions(buf0, old(buffer).pos as int, n as nat) is None,
            },
        decreases n - i,
    {
        let mut question = DnsQuestion::new(Vec::new(), RecordType::UNKNOWN(0));
        match question.read(buffer) {
            Ok(_) => {},
            Err(e) => {
                return Err(e);
            },
        }
        let ghost prev = out.deep_view();
        let ghost qm = question@;
        out.push(question);
        proof {
            assert(out.deep_view() =~= prev + seq![qm]);
            let rest = parse_questions(buf0, buffer.pos as int, (n - i - 1) as nat);
            if rest is Some {
                assert((prev + seq![qm]) + rest->Some_0.0 =~= prev + (seq![qm] + rest->Some_0.0));
            }
        }
        i = i + 1;
    }
    proof {
        assert(out.deep_view() + Seq::<QuestionModel>::empty() =~= out.deep_view());
    }
    Ok(out)
}

/// Decodes `n` records one after another at the cursor.
#[verifier::loop_isolation(false)]
fn read_records(buffer: &mut BytePacketBuffer, n: u16) -> (r: Result<Vec<DnsRecord>, DnsError>)
    requires
        old(buffer).wf(),
    ensures
        final(buffer).wf(),
        final(buffer).buf@ == old(buffer).buf@,
        match parse_records(old(buffer).buf@, old(buffer).pos as int, n as nat) {
            Some(res) => r is Ok && r->Ok_0.deep_view() == res.0 && final(buffer).pos as int
                == res.1,
            None => r == Err::<Vec<DnsRecord>, DnsError>(DnsError::InvalidInput),
        },
{
    let ghost buf0 = old(buffer).buf@;
    let mut out: Vec<DnsRecord> = Vec::new();
    let mut i: u16 = 0;
    while i < n
        invariant
            buffer.wf(),
            buffer.buf@ == buf0,
            i <= n,
            out.deep_view().len() == i,
            match parse_records(buf0, buffer.pos as int, (n - i) as nat) {
                Some(res) => parse_records(buf0, old(buffer).pos as int, n as nat) == Some(
                    (out.deep_view() + res.0, res.1),
                ),
                None => parse_records(buf0, old(buffer).pos as int, n as nat) is None,
            },
        decreases n - i,
    {
        let rec = match DnsRecord::read(buffer) {
            Ok(rec) => rec,
            Err(e) => {
                return Err(e);
            },
        };
        let ghost prev = out.deep_view();
        let ghost rm = rec@;
        out.push(rec);
        proof {
            assert(out.deep_view() =~= prev + seq![rm]);
            let rest = parse_records(buf0, buffer.pos as int, (n - i - 1) as nat);
            if rest is Some {
                assert((prev + seq![rm]) + rest->Some_0.0 =~= prev + (seq![rm] + rest->Some_0.0));
            }
        }
        i = i + 1;
    }
    proof {
        assert(out.deep_view() + Seq::<RecordModel>::empty() =~= out.deep_view());
    }
    Ok(out)
}

/// The question-section wire form distributes over concatenation.
pub proof fn lemma_questions_bytes_concat(a: Seq<QuestionModel>, b: Seq<QuestionModel>)
    ensures
        questions_bytes(a + b) == questions_bytes(a) + questions_bytes(b),
    decreases a.len(),
{
    if a.len() == 0 {
        assert(a + b =~= b);
        assert(questions_bytes(a + b) =~= questions_bytes(a) + questions_bytes(b));
    } else {
        assert((a + b).drop_first() =~= a.drop_first() + b);
        lemma_questions_bytes_concat(a.drop_first(), b);
        assert(questions_bytes(a + b) =~= questions_bytes(a) + questions_bytes(b));
    }
}

/// The record-section wire form distributes over concatenation.
pub proof fn lemma_records_bytes_concat(a: Seq<RecordModel>, b: Seq<RecordModel>)
    ensures
        records_bytes(a + b) == records_bytes(a) + records_bytes(b),
    decreases a.len(),
{
    if a.len() == 0 {
        assert(a + b =~= b);
        assert(records_bytes(a + b) =~= records_bytes(a) + records_bytes(b));
    } else {
        assert((a + b).drop_first() =~= a.drop_first() + b);
        lemma_records_bytes_concat(a.drop_first(), b);
        assert(records_bytes(a + b) =~= records_bytes(a) + records_bytes(b));
    }
}

/// A section's wire form around its `i`-th element.
pub proof fn lemma_questions_bytes_split(qs: Seq<QuestionModel>, i: int)
    requires
        0 <= i < qs.len(),
    ensures
        questions_bytes(qs) == questions_bytes(qs.take(i)) + question_bytes(qs[i])
            + questions_bytes(qs.skip(i + 1)),
        questions_bytes(qs.take(i + 1)) == questions_bytes(qs.take(i)) + question_bytes(qs[i]),
{
    assert(qs =~= qs.take(i) + (seq![qs[i]] + qs.skip(i + 1)));
    lemma_questions_bytes_concat(qs.take(i), seq![qs[i]] + qs.skip(i + 1));
    lemma_questions_bytes_concat(seq![qs[i]], qs.skip(i + 1));
    assert(seq![qs[i]].drop_first() =~= Seq::<QuestionModel>::empty());
    assert(questions_bytes(seq![qs[i]]) == question_bytes(qs[i]) + questions_bytes(
        seq![qs[i]].drop_first(),
    ));
    assert(questions_bytes(seq![qs[i]]) =~= question_bytes(qs[i]));
    assert(qs.take(i + 1) =~= qs.take(i) + seq![qs[i]]);
    lemma_questions_bytes_concat(qs.take(i), seq![qs[i]]);
}

/// A section's wire form around its `i`-th record.
pub proof fn lemma_records_bytes_split(rs: Seq<RecordModel>, i: int)
    requires
        0 <= i < rs.len(),
    ensures
        records_bytes(rs) == records_bytes(rs.take(i)) + record_bytes(rs[i]) + records_bytes(
            rs.skip(i + 1),
        ),
        records_bytes(rs.take(i + 1)) == records_bytes(rs.take(i)) + record_bytes(rs[i]),
{
    assert(rs =~= rs.take(i) + (seq![rs[i]] + rs.skip(i + 1)));
    lemma_records_bytes_concat(rs.take(i), seq![rs[i]] + rs.skip(i + 1));
    lemma_records_bytes_concat(seq![rs[i]], rs.skip(i + 1));
    assert(seq![rs[i]].drop_first() =~= Seq::<RecordModel>::empty());
    assert(records_bytes(seq![rs[i]]) == record_bytes(rs[i]) + records_bytes(
        seq![rs[i]].drop_first(),
    ));
    assert(records_bytes(seq![rs[i]]) =~= record_bytes(rs[i]));
    assert(rs.take(i + 1) =~= rs.take(i) + seq![rs[i]]);
    lemma_records_bytes_concat(rs.take(i), seq![rs[i]]);
}

/// Encodes a question section at the cursor, in order.
#[verifier::loop_isolation(false)]
fn write_questions(buffer: &mut BytePacketBuffer, questions: &Vec<DnsQuestion>) -> (r: Result<
    (),
    DnsError,
>)
    requires
        old(buffer).wf(),
    ensures
        final(buffer).wf(),
        r is Ok <==> ((forall|i: int|
            0 <= i < questions.deep_view().len() ==> qname_ok(
                #[trigger] questions.deep_view()[i].name,
            )) && old(buffer).pos + questions_bytes(questions.deep_view()).len() <= PACKET_SIZE),
        r is Ok ==> final(buffer).buf@ == splice(
            old(buffer).buf@,
            old(buffer).pos as int,
            questions_bytes(questions.deep_view()),
        ) && final(buffer).pos == old(buffer).pos + questions_bytes(questions.deep_view()).len(),
        r !is Ok ==> r == Err::<(), DnsError>(DnsError::InvalidInput),
{
    let ghost buf0 = old(buffer).buf@;
    let ghost pos0 = old(buffer).pos as int;
    let ghost qsv = questions.deep_view();
    if buffer.pos() > PACKET_SIZE {
        return Err(DnsError::InvalidInput);
    }
    let mut i: usize = 0;
    proof {
        assert(qsv.take(0) =~= Seq::<QuestionModel>::empty());
        lemma_splice_empty(buf0, pos0);
    }
    while i < questions.len()
        invariant
            buffer.wf(),
            i <= qsv.len(),
            forall|j: int| 0 <= j < i ==> qname_ok(#[trigger] qsv[j].name),
            buffer.pos == pos0 + questions_bytes(qsv.take(i as int)).len(),
            buffer.buf@ == splice(buf0, pos0, questions_bytes(qsv.take(i as int))),
            pos0 + questions_bytes(qsv.take(i as int)).len() <= PACKET_SIZE,
        decreases qsv.len() - i,
    {
        proof {
            lemma_questions_bytes_split(qsv, i as int);
        }
        match questions[i].write(buffer) {
            Ok(_) => {},
            Err(e) => {
                return Err(e);
            },
        }
        proof {
            lemma_splice_append(buf0, pos0, questions_bytes(qsv.take(i as int)), question_bytes(
                qsv[i as int],
            ));
        }
        i = i + 1;
    }
    proof {
        assert(qsv.take(qsv.len() as int) =~= qsv);
    }
    Ok(())
}

/// Encodes a record section at the cursor, in order; skipped records
/// contribute nothing.
#[verifier::loop_isolation(false)]
fn write_records(buffer: &mut BytePacketBuffer, records: &Vec<DnsRecord>) -> (r: Result<
    (),
    DnsError,
>)
    requires
        old(buffer).wf(),
    ensures
        final(buffer).wf(),
        r is Ok <==> ((forall|i: int|
            0 <= i < records.deep_view().len() ==> record_ok(#[trigger] records.deep_view()[i]))
            && old(buffer).pos + records_bytes(records.deep_view()).len() <= PACKET_SIZE),
        r is Ok ==> final(buffer).buf@ == splice(
            old(buffer).buf@,
            old(buffer).pos as int,
            records_bytes(records.deep_view()),
        ) && final(buffer).pos == old(buffer).pos + records_bytes(records.deep_view()).len(),
        r !is Ok ==> r == Err::<(), DnsError>(DnsError::InvalidInput),
{
    let ghost buf0 = old(buffer).buf@;
    let ghost pos0 = old(buffer).pos as int;
    let ghost rsv = records.deep_view();
    if buffer.pos() > PACKET_SIZE {
        return Err(DnsError::InvalidInput);
    }
    let mut i: usize = 0;
    proof {
        assert(rsv.take(0) =~= Seq::<RecordModel>::empty());
        lemma_splice_empty(buf0, pos0);
    }
    while i < records.len()
        invariant
            buffer.wf(),
            i <= rsv.len(),
            forall|j: int| 0 <= j < i ==> record_ok(#[trigger] rsv[j]),
            buffer.pos == pos0 + records_bytes(rsv.take(i as int)).len(),
            buffer.buf@ == splice(buf0, pos0, records_bytes(rsv.take(i as int))),
            pos0 + records_bytes(rsv.take(i as int)).len() <= PACKET_SIZE,
        decreases rsv.len() - i,
    {
        proof {
            lemma_records_bytes_split(rsv, i as int);
        }
        let n = match records[i].write(buffer) {
            Ok(n) => n,
            Err(e) => {
                return Err(e);
            },
        };
        proof {
            if rsv[i as int] is Unknown {
                assert(records_bytes(rsv.take(i as int)) + record_bytes(rsv[i as int])
                    =~= records_bytes(rsv.take(i as int)));
            } else {
                lemma_splice_append(buf0, pos0, records_bytes(rsv.take(i as int)), record_bytes(
                    rsv[i as int],
                ));
            }
        }
        i = i + 1;
    }
    proof {
        assert(rsv.take(rsv.len() as int) =~= rsv);
    }
    Ok(())
}

/// A record the codec round-trips: a supported type, well-formed
/// names, and an address of the right width.  `UNKNOWN` records are
/// lost on re-encode, so they are not well-formed.
pub open spec fn record_wf(r: RecordModel) -> bool {
    match r {
        RecordModel::Unknown { .. } => false,
        RecordModel::A { domain, addr, .. } => qname_wf(domain) && addr.len() == 4,
        RecordModel::Ns { domain, host, .. } => qname_wf(domain) && qname_wf(host),
        RecordModel::Cname { domain, host, .. } => qname_wf(domain) && qname_wf(host),
        RecordModel::Mx { domain, host, .. } => qname_wf(domain) && qname_wf(host),
        RecordModel::Aaaa { domain, addr, .. } => qname_wf(domain) && addr.len() == 8,
    }
}

/// Each segment's two bytes stand at twice its index.
pub proof fn lemma_segs_bytes_index(segs: Seq<u16>, i: int)
    requires
        0 <= i < segs.len(),
    ensures
        segs_bytes(segs)[2 * i] == (segs[i] >> 8) as u8,
        segs_bytes(segs)[2 * i + 1] == (segs[i] & 0xff) as u8,
    decreases i,
{
    lemma_segs_bytes_len(segs.drop_first());
    if i == 0 {
    } else {
        lemma_segs_bytes_index(segs.drop_first(), i - 1);
    }
}
/// Law: a well-formed record decodes back from its own wire form,
/// wherever it stands in the buffer.
#[verifier::rlimit(100)]
pub proof fn lemma_record_round_trip(buf: Seq<u8>, pos: int, r: RecordModel)
    requires
        record_wf(r),
        0 <= pos,
        pos + record_bytes(r).len() <= buf.len(),
        buf.subrange(pos, pos + record_bytes(r).len()) == record_bytes(r),
    ensures
        parse_record(buf, pos) == Some((r, pos + record_bytes(r).len())),
{
    let wire = record_bytes(r);
    let domain = match r {
        RecordModel::Unknown { domain, .. } => domain,
        RecordModel::A { domain, .. } => domain,
        RecordModel::Ns { domain, .. } => domain,
        RecordModel::Cname { domain, .. } => domain,
        RecordModel::Mx { domain, .. } => domain,
        RecordModel::Aaaa { domain, .. } => domain,
    };
    let tnum = match r {
        RecordModel::Unknown { record_type, .. } => record_type,
        RecordModel::A { .. } => 1u16,
        RecordModel::Ns { .. } => 2u16,
        RecordModel::Cname { .. } => 5u16,
        RecordModel::Mx { .. } => 15u16,
        RecordModel::Aaaa { .. } => 28u16,
    };
    let ttl = match r {
        RecordModel::Unknown { ttl, .. } => ttl,
        RecordModel::A { ttl, .. } => ttl,
        RecordModel::Ns { ttl, .. } => ttl,
        RecordModel::Cname { ttl, .. } => ttl,
        RecordModel::Mx { ttl, .. } => ttl,
        RecordModel::Aaaa { ttl, .. } => ttl,
    };
    let qn = qname_bytes(domain);
    let qlen = qn.len() as int;
    // the name stands first
    crate::packet::lemma_subrange_of_prefix(buf, pos, wire, 0, qlen);
    assert(wire.subrange(0, qlen) =~= qn);
    assert(buf.subrange(pos, pos + qn.len()) == qn);
    lemma_qname_round_trip(buf, pos, domain, MAX_JUMPS as nat);
    let p1 = pos + qn.len();
    assert(p1 + 10 <= buf.len());
    // the fixed fields follow it byte by byte
    crate::packet::lemma_byte_of_prefix(buf, pos, wire, qlen);
    crate::packet::lemma_byte_of_prefix(buf, pos, wire, qlen + 1);
    crate::packet::lemma_byte_of_prefix(buf, pos, wire, qlen + 4);
    crate::packet::lemma_byte_of_prefix(buf, pos, wire, qlen + 5);
    crate::packet::lemma_byte_of_prefix(buf, pos, wire, qlen + 6);
    crate::packet::lemma_byte_of_prefix(buf, pos, wire, qlen + 7);
    assert(wire[qlen] == u16_bytes(tnum)[0] && wire[qlen + 1] == u16_bytes(tnum)[1]);
    assert(wire[qlen + 4] == u32_bytes(ttl)[0] && wire[qlen + 5] == u32_bytes(ttl)[1]
        && wire[qlen + 6] == u32_bytes(ttl)[2] && wire[qlen + 7] == u32_bytes(ttl)[3]);
    assert(buf[p1] == wire[qlen] && buf[p1 + 1] == wire[qlen + 1]);
    assert(buf[p1 + 4] == wire[qlen + 4] && buf[p1 + 5] == wire[qlen + 5]
        && buf[p1 + 6] == wire[qlen + 6] && buf[p1 + 7] == wire[qlen + 7]);
    crate::packet::lemma_u16_round_trip(tnum);
    crate::packet::lemma_u32_round_trip(ttl);
    assert(be_u16(buf[p1], buf[p1 + 1]) == tnum);
    assert(be_u32(buf[p1 + 4], buf[p1 + 5], buf[p1 + 6], buf[p1 + 7]) == ttl);
    let p2 = p1 + 10;
    assert(p2 == pos + (qlen + 10));
    match r {
        RecordModel::Unknown { .. } => {
            assert(false);
        },
        RecordModel::A { addr, .. } => {
            assert(rt_of(tnum) is A);
            assert(p2 + 4 <= buf.len());
            crate::packet::lemma_subrange_of_prefix(buf, pos, wire, qlen + 10, qlen + 14);
            assert(wire.subrange(qlen + 10, qlen + 14) =~= addr);
            assert(buf.subrange(p2, p2 + 4) == addr);
            assert(parse_record(buf, pos) == Some((r, p2 + 4)));
            assert(p2 + 4 == pos + wire.len());
        },
        RecordModel::Ns { host, .. } => {
            assert(rt_of(tnum) is NS);
            let hn = qname_bytes(host);
            crate::packet::lemma_subrange_of_prefix(buf, pos, wire, qlen + 10, wire.len() as int);
            assert(wire.subrange(qlen + 10, wire.len() as int) =~= hn);
            assert(buf.subrange(p2, p2 + hn.len()) == hn);
            lemma_qname_round_trip(buf, p2, host, MAX_JUMPS as nat);
            assert(parse_record(buf, pos) == Some((r, p2 + hn.len())));
            assert(p2 + hn.len() == pos + wire.len());
        },
        RecordModel::Cname { host, .. } => {
            assert(rt_of(tnum) is CNAME);
            let hn = qname_bytes(host);
            crate::packet::lemma_subrange_of_prefix(buf, pos, wire, qlen + 10, wire.len() as int);
            assert(wire.subrange(qlen + 10, wire.len() as int) =~= hn);
            assert(buf.subrange(p2, p2 + hn.len()) == hn);
            lemma_qname_round_trip(buf, p2, host, MAX_JUMPS as nat);
            assert(parse_record(buf, pos) == Some((r, p2 + hn.len())));
            assert(p2 + hn.len() == pos + wire.len());
        },
        RecordModel::Mx { priority, host, .. } => {
            assert(rt_of(tnum) is MX);
            assert(p2 + 2 <= buf.len());
            crate::packet::lemma_byte_of_prefix(buf, pos, wire, qlen + 10);
            crate::packet::lemma_byte_of_prefix(buf, pos, wire, qlen + 11);
            assert(wire[qlen + 10] == u16_bytes(priority)[0] && wire[qlen + 11] == u16_bytes(
                priority,
            )[1]);
            assert(buf[p2] == wire[qlen + 10] && buf[p2 + 1] == wire[qlen + 11]);
            crate::packet::lemma_u16_round_trip(priority);
            assert(be_u16(buf[p2], buf[p2 + 1]) == priority);
            let hn = qname_bytes(host);
            crate::packet::lemma_subrange_of_prefix(buf, pos, wire, qlen + 12, wire.len() as int);
            assert(wire.subrange(qlen + 12, wire.len() as int) =~= hn);
            assert(buf.subrange(p2 + 2, p2 + 2 + hn.len()) == hn);
            lemma_qname_round_trip(buf, p2 + 2, host, MAX_JUMPS as nat);
            assert(parse_record(buf, pos) == Some((r, p2 + 2 + hn.len())));
            assert(p2 + 2 + hn.len() == pos + wire.len());
        },
        RecordModel::Aaaa { addr, .. } => {
            assert(rt_of(tnum) is AAAA);
            lemma_segs_bytes_len(addr);
            assert(p2 + 16 <= buf.len());
            crate::packet::lemma_subrange_of_prefix(buf, pos, wire, qlen + 10, qlen + 26);
            assert(wire.subrange(qlen + 10, qlen + 26) =~= segs_bytes(addr));
            let sb = buf.subrange(p2, p2 + 16);
            assert(sb == segs_bytes(addr));
            let parsed = Seq::new(8, |i: int| be_u16(buf[p2 + 2 * i], buf[p2 + 2 * i + 1]));
            assert(parsed =~= addr) by {
                assert forall|i: int| 0 <= i < 8 implies parsed[i] == addr[i] by {
                    lemma_segs_bytes_index(addr, i);
                    assert(sb[2 * i] == buf[p2 + 2 * i]);
                    assert(sb[2 * i + 1] == buf[p2 + 2 * i + 1]);
                    assert(buf[p2 + 2 * i] == (addr[i] >> 8) as u8);
                    assert(buf[p2 + 2 * i + 1] == (addr[i] & 0xff) as u8);
                    crate::packet::lemma_u16_round_trip(addr[i]);
                }
            }
            assert(parse_record(buf, pos) == Some((r, p2 + 16)));
            assert(p2 + 16 == pos + wire.len());
        },
    }
}

/// Law: a sequence of well-formed questions decodes back in order
/// from its wire form.
pub proof fn lemma_questions_seq_round_trip(buf: Seq<u8>, pos: int, qs: Seq<QuestionModel>)
    requires
        forall|i: int|
            0 <= i < qs.len() ==> qname_wf(#[trigger] qs[i].name) && !(qs[i].record_type
                is UNKNOWN),
        0 <= pos,
        pos + questions_bytes(qs).len() <= buf.len(),
        buf.subrange(pos, pos + questions_bytes(qs).len()) == questions_bytes(qs),
    ensures
        parse_questions(buf, pos, qs.len()) == Some((qs, pos + questions_bytes(qs).len())),
    decreases qs.len(),
{
    let wire = questions_bytes(qs);
    if qs.len() == 0 {
        assert(qs =~= Seq::<QuestionModel>::empty());
    } else {
        let q0 = qs[0];
        let qb = question_bytes(q0);
        let rest = qs.drop_first();
        assert(wire == qb + questions_bytes(rest));
        crate::packet::lemma_subrange_of_prefix(buf, pos, wire, 0, qb.len() as int);
        assert(wire.subrange(0, qb.len() as int) =~= qb);
        assert(buf.subrange(pos, pos + qb.len()) == qb);
        lemma_question_round_trip(buf, pos, q0);
        crate::packet::lemma_subrange_of_prefix(buf, pos, wire, qb.len() as int, wire.len() as int);
        assert(wire.subrange(qb.len() as int, wire.len() as int) =~= questions_bytes(rest));
        assert(buf.subrange(pos + qb.len(), pos + qb.len() + questions_bytes(rest).len())
            == questions_bytes(rest));
        lemma_questions_seq_round_trip(buf, pos + qb.len(), rest);
        assert(seq![q0] + rest =~= qs);
        assert(parse_questions(buf, pos, qs.len()) == Some((qs, pos + wire.len())));
    }
}

/// Law: a sequence of well-formed records decodes back in order from
/// its wire form.
pub proof fn lemma_records_seq_round_trip(buf: Seq<u8>, pos: int, rs: Seq<RecordModel>)
    requires
        forall|i: int| 0 <= i < rs.len() ==> record_wf(#[trigger] rs[i]),
        0 <= pos,
        pos + records_bytes(rs).len() <= buf.len(),
        buf.subrange(pos, pos + records_bytes(rs).len()) == records_bytes(rs),
    ensures
        parse_records(buf, pos, rs.len()) == Some((rs, pos + records_bytes(rs).len())),
    decreases rs.len(),
{
    let wire = records_bytes(rs);
    if rs.len() == 0 {
        assert(rs =~= Seq::<RecordModel>::empty());
    } else {
        let r0 = rs[0];
        let rb = record_bytes(r0);
        let rest = rs.drop_first();
        assert(wire == rb + records_bytes(rest));
        crate::packet::lemma_subrange_of_prefix(buf, pos, wire, 0, rb.len() as int);
        assert(wire.subrange(0, rb.len() as int) =~= rb);
        assert(buf.subrange(pos, pos + rb.len()) == rb);
        lemma_record_round_trip(buf, pos, r0);
        crate::packet::lemma_subrange_of_prefix(buf, pos, wire, rb.len() as int, wire.len() as int);
        assert(wire.subrange(rb.len() as int, wire.len() as int) =~= records_bytes(rest));
        assert(buf.subrange(pos + rb.len(), pos + rb.len() + records_bytes(rest).len())
            == records_bytes(rest));
        lemma_records_seq_round_trip(buf, pos + rb.len(), rest);
        assert(seq![r0] + rest =~= rs);
        assert(parse_records(buf, pos, rs.len()) == Some((rs, pos + wire.len())));
    }
}

/// A packet the codec round-trips: its header counts match its
/// section lengths, the opcode fits its four wire bits, every name is
/// well formed, every question type is supported, and every record is
/// well formed (so no `UNKNOWN` records, which re-encoding loses).
pub open spec fn packet_wf(p: PacketModel) -> bool {
    &&& p.header.opcode <= 15
    &&& p.header.questions == p.questions.len()
    &&& p.header.answers == p.answers.len()
    &&& p.header.authoritative_entries == p.authorities.len()
    &&& p.header.resource_entries == p.resources.len()
    &&& forall|i: int|
        0 <= i < p.questions.len() ==> qname_wf(#[trigger] p.questions[i].name)
            && !(p.questions[i].record_type is UNKNOWN)
    &&& forall|i: int| 0 <= i < p.answers.len() ==> record_wf(#[trigger] p.answers[i])
    &&& forall|i: int| 0 <= i < p.authorities.len() ==> record_wf(#[trigger] p.authorities[i])
    &&& forall|i: int| 0 <= i < p.resources.len() ==> record_wf(#[trigger] p.resources[i])
}

/// Law: a well-formed packet decodes back from its own wire form,
/// wherever it stands in the buffer.
#[verifier::rlimit(100)]
pub proof fn lemma_packet_round_trip(buf: Seq<u8>, pos: int, p: PacketModel)
    requires
        packet_wf(p),
        0 <= pos,
        pos + packet_bytes(p).len() <= buf.len(),
        buf.subrange(pos, pos + packet_bytes(p).len()) == packet_bytes(p),
    ensures
        parse_packet(buf, pos) == Some(p),
{
    let wire = packet_bytes(p);
    assert(recount(p) == p.header);
    let hb = header_bytes(p.header);
    let qb = questions_bytes(p.questions);
    let ab = records_bytes(p.answers);
    let tb = records_bytes(p.authorities);
    let rb = records_bytes(p.resources);
    assert(hb.len() == 12);
    let o1: int = 12;
    let o2 = o1 + qb.len() as int;
    let o3 = o2 + ab.len() as int;
    let o4 = o3 + tb.len() as int;
    crate::packet::lemma_subrange_of_prefix(buf, pos, wire, 0, o1);
    assert(wire.subrange(0, o1) =~= hb);
    assert(buf.subrange(pos, pos + 12) == hb);
    lemma_header_round_trip(p.header);
    assert(parse_header(buf, pos) == Some((p.header, pos + 12)));
    crate::packet::lemma_subrange_of_prefix(buf, pos, wire, o1, o2);
    assert(wire.subrange(o1, o2) =~= qb);
    assert(buf.subrange(pos + o1, pos + o1 + qb.len()) == qb);
    lemma_questions_seq_round_trip(buf, pos + o1, p.questions);
    crate::packet::lemma_subrange_of_prefix(buf, pos, wire, o2, o3);
    assert(wire.subrange(o2, o3) =~= ab);
    assert(buf.subrange(pos + o2, pos + o2 + ab.len()) == ab);
    lemma_records_seq_round_trip(buf, pos + o2, p.answers);
    crate::packet::lemma_subrange_of_prefix(buf, pos, wire, o3, o4);
    assert(wire.subrange(o3, o4) =~= tb);
    assert(buf.subrange(pos + o3, pos + o3 + tb.len()) == tb);
    lemma_records_seq_round_trip(buf, pos + o3, p.authorities);
    crate::packet::lemma_subrange_of_prefix(buf, pos, wire, o4, wire.len() as int);
    assert(wire.subrange(o4, wire.len() as int) =~= rb);
    assert(buf.subrange(pos + o4, pos + o4 + rb.len()) == rb);
    lemma_records_seq_round_trip(buf, pos + o4, p.resources);
}

/// Law: decoding the encoder's output gives the packet back, for
/// every well-formed packet.
pub proof fn lemma_packet_encode_decode(p: PacketModel)
    requires
        packet_wf(p),
    ensures
        parse_packet(packet_bytes(p), 0) == Some(p),
{
    let wire = packet_bytes(p);
    assert(wire.subrange(0, wire.len() as int) =~= wire);
    lemma_packet_round_trip(wire, 0, p);
}

/// Law: decoding a datagram and re-encoding the result yields bytes
/// that decode to the same packet, whenever the decoded packet is
/// well formed — byte equality is not required, only agreement of the
/// decoded packets.
pub proof fn lemma_reencode_interop(d: Seq<u8>, p: PacketModel)
    requires
        parse_packet(d, 0) == Some(p),
        packet_wf(p),
    ensures
        parse_packet(packet_bytes(p), 0) == Some(p),
{
    lemma_packet_encode_decode(p);
}

/// Decoding `n` questions yields `n` questions.
pub proof fn lemma_parse_questions_len(buf: Seq<u8>, pos: int, n: nat)
    requires
        parse_questions(buf, pos, n) is Some,
    ensures
        parse_questions(buf, pos, n)->Some_0.0.len() == n,
    decreases n,
{
    if n != 0 {
        let p1 = parse_question(buf, pos)->Some_0.1;
        lemma_parse_questions_len(buf, p1, (n - 1) as nat);
    }
}

/// Decoding `n` records yields `n` records.
pub proof fn lemma_parse_records_len(buf: Seq<u8>, pos: int, n: nat)
    requires
        parse_records(buf, pos, n) is Some,
    ensures
        parse_records(buf, pos, n)->Some_0.0.len() == n,
    decreases n,
{
    if n != 0 {
        let p1 = parse_record(buf, pos)->Some_0.1;
        lemma_parse_records_len(buf, p1, (n - 1) as nat);
    }
}

/// What decoding always establishes of a packet: the section lengths
/// match the header counts, and the opcode fits its four wire bits.
/// So only the names and records need checking before the re-encode
/// law applies to a decoded packet.
pub proof fn lemma_parse_packet_counts(buf: Seq<u8>, pos: int)
    requires
        parse_packet(buf, pos) is Some,
    ensures
        ({
            let m = parse_packet(buf, pos)->Some_0;
            &&& m.header.questions == m.questions.len()
            &&& m.header.answers == m.answers.len()
            &&& m.header.authoritative_entries == m.authorities.len()
            &&& m.header.resource_entries == m.resources.len()
            &&& m.header.opcode <= 15
        }),
{
    let m = parse_packet(buf, pos)->Some_0;
    let h = parse_header(buf, pos)->Some_0.0;
    let a2 = buf.subrange(pos, pos + 12)[2];
    assert(h.opcode == (a2 >> 3) & 0x0f);
    assert(((a2 >> 3) & 0x0f) <= 15) by (bit_vector);
    let p1 = pos + 12;
    lemma_parse_questions_len(buf, p1, h.questions as nat);
    let p2 = parse_questions(buf, p1, h.questions as nat)->Some_0.1;
    lemma_parse_records_len(buf, p2, h.answers as nat);
    let p3 = parse_records(buf, p2, h.answers as nat)->Some_0.1;
    lemma_parse_records_len(buf, p3, h.authoritative_entries as nat);
    let p4 = parse_records(buf, p3, h.authoritative_entries as nat)->Some_0.1;
    lemma_parse_records_len(buf, p4, h.resource_entries as nat);
}

/// The wire length of a segment list: two bytes per segment.
pub proof fn lemma_segs_bytes_len(segs: Seq<u16>)
    ensures
        segs_bytes(segs).len() == 2 * segs.len(),
    decreases segs.len(),
{
    if segs.len() > 0 {
        lemma_segs_bytes_len(segs.drop_first());
    }
}

/// Extending a segment prefix by one appends its two bytes.
pub proof fn lemma_segs_bytes_snoc(segs: Seq<u16>, k: int)
    requires
        0 <= k < segs.len(),
    ensures
        segs_bytes(segs.subrange(0, k + 1)) == segs_bytes(segs.subrange(0, k)) + u16_bytes(
            segs[k],
        ),
    decreases k,
{
    if k == 0 {
        assert(segs.subrange(0, 0) =~= Seq::<u16>::empty());
        let s1 = segs.subrange(0, 1);
        assert(s1[0] == segs[0]);
        assert(s1.drop_first() =~= Seq::<u16>::empty());
        assert(segs_bytes(s1) == u16_bytes(segs[0]) + segs_bytes(s1.drop_first()));
        assert(segs_bytes(segs.subrange(0, 1)) =~= segs_bytes(segs.subrange(0, 0)) + u16_bytes(
            segs[0],
        ));
    } else {
        lemma_segs_bytes_snoc(segs.drop_first(), k - 1);
        let a = segs.subrange(0, k + 1);
        let b = segs.subrange(0, k);
        assert(a.drop_first() =~= segs.drop_first().subrange(0, k));
        assert(b.drop_first() =~= segs.drop_first().subrange(0, k - 1));
        assert(a[0] == segs[0] && b[0] == segs[0]);
        assert(segs_bytes(a) == u16_bytes(segs[0]) + segs_bytes(a.drop_first()));
        assert(segs_bytes(b) == u16_bytes(segs[0]) + segs_bytes(b.drop_first()));
        assert(segs.drop_first()[k - 1] == segs[k as int]);
        assert(segs_bytes(a) =~= segs_bytes(b) + u16_bytes(segs[k as int]));
    }
}

} // verus!

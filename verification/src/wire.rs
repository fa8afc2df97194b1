//! Mathematical model of the RFC 1035 wire format: spec functions that give
//! the exact byte sequence of an encoded message, well-formedness of
//! messages, and a spec-level parser that the executable codec is proved
//! equal to.
use vstd::prelude::*;
use vstd::utf8::{encode_utf8, valid_utf8, decode_utf8};

use crate::message::{DnsHeader, DnsOpcode, DnsRcode, DnsType, DnsClass};
use crate::message::{Ipv4Address, Ipv6Address};
use crate::message::{SpecMessage, SpecQuestion, SpecResourceRecord, SpecRRData};

verus! {

/// Decoding errors that abort a whole message.
#[derive(Copy, Clone, Debug, PartialEq, Eq, Structural)]
pub enum CodecError {
    /// The header's opcode field holds an unrecognized value.
    UnknownOpcode(u8),
    /// The header's response-code field holds an unrecognized value.
    UnknownRcode(u8),
    /// A length byte of a domain name uses a reserved form, or a pointer
    /// chain exceeds the hop limit.
    MalformedName,
    /// The buffer ends before a field that the message promises.
    UnexpectedEnd,
}

/// Upper bound on compression-pointer hops followed while decoding one name;
/// chains beyond it are treated as malformed.
pub const MAX_POINTER_HOPS: u16 = 256;

// ---------------------------------------------------------------------------
// Byte-level helpers
// ---------------------------------------------------------------------------

/// The two big-endian bytes of a 16-bit value.
pub open spec fn u16_wire(x: u16) -> Seq<u8> {
    seq![(x / 256) as u8, (x % 256) as u8]
}

/// The 16-bit value read from two big-endian bytes.
pub open spec fn be16(hi: u8, lo: u8) -> u16 {
    (hi as int * 256 + lo as int) as u16
}

/// The four big-endian bytes of a 32-bit value.
pub open spec fn u32_wire(x: u32) -> Seq<u8> {
    seq![
        (x / 0x1000000) as u8,
        ((x / 0x10000) % 256) as u8,
        ((x / 256) % 256) as u8,
        (x % 256) as u8,
    ]
}

/// The 32-bit value read from four big-endian bytes.
pub open spec fn be32(b0: u8, b1: u8, b2: u8, b3: u8) -> u32 {
    (b0 as int * 0x1000000 + b1 as int * 0x10000 + b2 as int * 256 + b3 as int) as u32
}

// ---------------------------------------------------------------------------
// Wire encoding of names, questions, records, messages
// ---------------------------------------------------------------------------

/// One label on the wire: its byte length, then its UTF-8 bytes.
pub open spec fn label_wire(l: Seq<char>) -> Seq<u8> {
    seq![encode_utf8(l).len() as u8] + encode_utf8(l)
}

/// A label must occupy 1 to 63 bytes on the wire.
pub open spec fn label_wf(l: Seq<char>) -> bool {
    1 <= encode_utf8(l).len() <= 63
}

/// A name on the wire: its labels in order, terminated by a zero byte.
/// Names are always written without compression.
pub open spec fn name_wire(n: Seq<Seq<char>>) -> Seq<u8>
    decreases n.len(),
{
    if n.len() == 0 {
        seq![0u8]
    } else {
        label_wire(n[0]) + name_wire(n.drop_first())
    }
}

pub open spec fn name_wf(n: Seq<Seq<char>>) -> bool {
    forall|i: int| 0 <= i < n.len() ==> label_wf(#[trigger] n[i])
}

/// A question on the wire: name, then type and class codes.
pub open spec fn question_wire(q: SpecQuestion) -> Seq<u8> {
    name_wire(q.qname) + u16_wire(q.qtype.code_spec()) + u16_wire(q.qclass.code_spec())
}

pub open spec fn question_wf(q: SpecQuestion) -> bool {
    name_wf(q.qname)
}

/// The character strings of TXT data on the wire: each length-prefixed.
pub open spec fn txt_wire(txt: Seq<Seq<char>>) -> Seq<u8>
    decreases txt.len(),
{
    if txt.len() == 0 {
        Seq::<u8>::empty()
    } else {
        seq![encode_utf8(txt[0]).len() as u8] + encode_utf8(txt[0]) + txt_wire(txt.drop_first())
    }
}

/// The RDATA bytes of a record.
pub open spec fn rdata_wire(d: SpecRRData) -> Seq<u8> {
    match d {
        SpecRRData::A(a) => seq![a.o0, a.o1, a.o2, a.o3],
        SpecRRData::AAAA(a) => u16_wire(a.s0) + u16_wire(a.s1) + u16_wire(a.s2) + u16_wire(a.s3)
            + u16_wire(a.s4) + u16_wire(a.s5) + u16_wire(a.s6) + u16_wire(a.s7),
        SpecRRData::MX(pref, name) => u16_wire(pref) + name_wire(name),
        SpecRRData::CNAME(name) => name_wire(name),
        SpecRRData::TXT(txt) => txt_wire(txt),
        SpecRRData::SOA(mname, rname, serial, refresh, retry, expire, minimum) => name_wire(mname)
            + name_wire(rname) + u32_wire(serial) + u32_wire(refresh) + u32_wire(retry) + u32_wire(
            expire,
        ) + u32_wire(minimum),
        SpecRRData::NS(name) => name_wire(name),
    }
}

/// The record type that each data variant is carried under.
pub open spec fn data_type(d: SpecRRData) -> DnsType {
    match d {
        SpecRRData::A(_) => DnsType::A,
        SpecRRData::AAAA(_) => DnsType::AAAA,
        SpecRRData::MX(_, _) => DnsType::MX,
        SpecRRData::CNAME(_) => DnsType::CNAME,
        SpecRRData::TXT(_) => DnsType::TXT,
        SpecRRData::SOA(_, _, _, _, _, _, _) => DnsType::SOA,
        SpecRRData::NS(_) => DnsType::NS,
    }
}

/// Every TXT character string fits its one-byte length prefix.
pub open spec fn txt_strings_wf(txt: Seq<Seq<char>>) -> bool {
    forall|i: int| 0 <= i < txt.len() ==> encode_utf8(#[trigger] txt[i]).len() <= 255
}

/// Names inside the record data are well formed, and TXT strings fit their
/// one-byte length prefix.
pub open spec fn rdata_wf(d: SpecRRData) -> bool {
    match d {
        SpecRRData::A(_) => true,
        SpecRRData::AAAA(_) => true,
        SpecRRData::MX(_, name) => name_wf(name),
        SpecRRData::CNAME(name) => name_wf(name),
        SpecRRData::TXT(txt) => txt_strings_wf(txt),
        SpecRRData::SOA(mname, rname, _, _, _, _, _) => name_wf(mname) && name_wf(rname),
        SpecRRData::NS(name) => name_wf(name),
    }
}

/// A record on the wire: name, type, class, ttl, RDLENGTH, then the RDATA.
/// RDLENGTH is derived from the RDATA being written.
pub open spec fn rr_wire(r: SpecResourceRecord) -> Seq<u8> {
    name_wire(r.name) + u16_wire(r.rtype.code_spec()) + u16_wire(r.rclass.code_spec()) + u32_wire(
        r.ttl,
    ) + u16_wire(rdata_wire(r.data).len() as u16) + rdata_wire(r.data)
}

/// A record is well formed when its names are, its RDATA fits the 16-bit
/// RDLENGTH field, and its stated type and class agree with the data it
/// carries (the supported record types are all of class Internet).
pub open spec fn rr_wf(r: SpecResourceRecord) -> bool {
    &&& name_wf(r.name)
    &&& rdata_wf(r.data)
    &&& rdata_wire(r.data).len() <= 0xffff
    &&& r.rtype == data_type(r.data)
    &&& r.rclass == DnsClass::Internet
    &&& (r.data matches SpecRRData::A(_) ==> rdata_wire(r.data).len() == 4)
    &&& (r.data matches SpecRRData::AAAA(_) ==> rdata_wire(r.data).len() == 16)
}

/// The flags byte at offset 2: QR, OPCODE, AA, TC, RD.
pub open spec fn flags1_byte(h: DnsHeader) -> u8 {
    ((if h.query {
        0int
    } else {
        128int
    }) + h.opcode.code_spec() as int * 8 + (if h.authoritative {
        4int
    } else {
        0int
    }) + (if h.truncated {
        2int
    } else {
        0int
    }) + (if h.recur_desired {
        1int
    } else {
        0int
    })) as u8
}

/// The flags byte at offset 3: RA, Z (written as zero), RCODE.
pub open spec fn flags2_byte(h: DnsHeader) -> u8 {
    ((if h.recur_available {
        128int
    } else {
        0int
    }) + h.rcode.code_spec() as int) as u8
}

/// The 12 header bytes; the four counts are the section lengths.
pub open spec fn header_wire(m: SpecMessage) -> Seq<u8> {
    u16_wire(m.header.id) + seq![flags1_byte(m.header), flags2_byte(m.header)] + u16_wire(
        m.question.len() as u16,
    ) + u16_wire(m.answer.len() as u16) + u16_wire(m.authority.len() as u16) + u16_wire(
        m.additional.len() as u16,
    )
}

pub open spec fn questions_wire(qs: Seq<SpecQuestion>) -> Seq<u8>
    decreases qs.len(),
{
    if qs.len() == 0 {
        Seq::<u8>::empty()
    } else {
        question_wire(qs[0]) + questions_wire(qs.drop_first())
    }
}

pub open spec fn rrs_wire(rs: Seq<SpecResourceRecord>) -> Seq<u8>
    decreases rs.len(),
{
    if rs.len() == 0 {
        Seq::<u8>::empty()
    } else {
        rr_wire(rs[0]) + rrs_wire(rs.drop_first())
    }
}

/// The full message on the wire, before any datagram truncation.
pub open spec fn msg_wire(m: SpecMessage) -> Seq<u8> {
    header_wire(m) + questions_wire(m.question) + rrs_wire(m.answer) + rrs_wire(m.authority)
        + rrs_wire(m.additional)
}

/// A message the codec can faithfully write: every name well formed, every
/// section count expressible in its 16-bit header field, every record well
/// formed.
pub open spec fn msg_wf(m: SpecMessage) -> bool {
    &&& m.question.len() <= 0xffff
    &&& m.answer.len() <= 0xffff
    &&& m.authority.len() <= 0xffff
    &&& m.additional.len() <= 0xffff
    &&& (forall|i: int| 0 <= i < m.question.len() ==> question_wf(#[trigger] m.question[i]))
    &&& (forall|i: int| 0 <= i < m.answer.len() ==> rr_wf(#[trigger] m.answer[i]))
    &&& (forall|i: int| 0 <= i < m.authority.len() ==> rr_wf(#[trigger] m.authority[i]))
    &&& (forall|i: int| 0 <= i < m.additional.len() ==> rr_wf(#[trigger] m.additional[i]))
}

/// The same message with the truncated flag replaced.
pub open spec fn with_tc(m: SpecMessage, tc: bool) -> SpecMessage {
    SpecMessage {
        header: DnsHeader { truncated: tc, ..m.header },
        question: m.question,
        answer: m.answer,
        authority: m.authority,
        additional: m.additional,
    }
}

/// Datagram-mode bytes: when the encoding exceeds 512 bytes the truncated
/// bit is set and the buffer is cut to exactly 512 bytes; otherwise the
/// truncated bit is written as zero.
pub open spec fn dgram_wire(m: SpecMessage) -> Seq<u8> {
    if msg_wire(m).len() > 512 {
        msg_wire(with_tc(m, true)).take(512)
    } else {
        msg_wire(with_tc(m, false))
    }
}

/// Stream-mode bytes: the 16-bit big-endian message length, then the message.
pub open spec fn stream_wire(m: SpecMessage) -> Seq<u8> {
    u16_wire(msg_wire(m).len() as u16) + msg_wire(m)
}

// ---------------------------------------------------------------------------
// Spec-level parser
// ---------------------------------------------------------------------------

/// What `String::from_utf8_lossy` turns a byte sequence into.
pub uninterp spec fn utf8_lossy(b: Seq<u8>) -> Seq<char>;

/// The characters a decoded label presents: UTF-8 where the bytes are valid
/// UTF-8, with lossy replacement otherwise.
pub open spec fn label_chars(b: Seq<u8>) -> Seq<char> {
    if valid_utf8(b) {
        decode_utf8(b)
    } else {
        utf8_lossy(b)
    }
}

/// Parses a name at `pos`: length-prefixed labels up to a zero byte or a
/// compression pointer. Returns the labels and the position just past the
/// name in the outer byte stream. `hops` bounds the pointer chain.
pub open spec fn spec_parse_name(b: Seq<u8>, pos: int, hops: int) -> Result<
    (Seq<Seq<char>>, int),
    CodecError,
>
    decreases hops, b.len() - pos,
    when hops >= 0
{
    if pos < 0 || pos >= b.len() {
        Err(CodecError::UnexpectedEnd)
    } else {
        let len = b[pos] as int;
        if len == 0 {
            Ok((seq![], pos + 1))
        } else if len < 64 {
            if pos + 1 + len > b.len() {
                Err(CodecError::UnexpectedEnd)
            } else {
                match spec_parse_name(b, pos + 1 + len, hops) {
                    Ok((rest, end)) => Ok(
                        (seq![label_chars(b.subrange(pos + 1, pos + 1 + len))] + rest, end),
                    ),
                    Err(e) => Err(e),
                }
            }
        } else if len >= 192 {
            if pos + 2 > b.len() {
                Err(CodecError::UnexpectedEnd)
            } else if hops == 0 {
                Err(CodecError::MalformedName)
            } else {
                match spec_parse_name(b, (len - 192) * 256 + b[pos + 1] as int, hops - 1) {
                    Ok((labels, _)) => Ok((labels, pos + 2)),
                    Err(e) => Err(e),
                }
            }
        } else {
            Err(CodecError::MalformedName)
        }
    }
}

/// Prefixes the labels of a name-parse outcome with already-parsed labels.
pub open spec fn prepend_labels(
    pre: Seq<Seq<char>>,
    r: Result<(Seq<Seq<char>>, int), CodecError>,
) -> Result<(Seq<Seq<char>>, int), CodecError> {
    match r {
        Ok(p) => Ok((pre + p.0, p.1)),
        Err(e) => Err(e),
    }
}

/// A successful name parse starts inside the buffer and ends inside it.
pub proof fn lemma_parse_name_bounds(b: Seq<u8>, pos: int, hops: int)
    requires
        hops >= 0,
    ensures
        spec_parse_name(b, pos, hops) matches Ok(p) ==> 0 <= pos < p.1 <= b.len(),
    decreases hops, b.len() - pos,
{
    if pos < 0 || pos >= b.len() {
    } else {
        let len = b[pos] as int;
        if len == 0 {
        } else if len < 64 {
            if pos + 1 + len <= b.len() {
                lemma_parse_name_bounds(b, pos + 1 + len, hops);
            }
        } else {
        }
    }
}

/// Parses one question. An unknown type or class value skips the question
/// (`None`), leaving the cursor just past it.
pub open spec fn spec_parse_question(b: Seq<u8>, pos: int) -> Result<
    (Option<SpecQuestion>, int),
    CodecError,
> {
    match spec_parse_name(b, pos, MAX_POINTER_HOPS as int) {
        Err(e) => Err(e),
        Ok((n, name_end)) => if name_end + 4 > b.len() {
            Err(CodecError::UnexpectedEnd)
        } else {
            let t = be16(b[name_end], b[name_end + 1]);
            let c = be16(b[name_end + 2], b[name_end + 3]);
            match (DnsType::try_from_spec(t), DnsClass::try_from_spec(c)) {
                (Some(qtype), Some(qclass)) => Ok(
                    (Some(SpecQuestion { qname: n, qtype, qclass }), name_end + 4),
                ),
                _ => Ok((None, name_end + 4)),
            }
        },
    }
}

/// Parses `count` questions, dropping the skipped ones.
pub open spec fn spec_parse_questions(b: Seq<u8>, pos: int, count: int) -> Result<
    (Seq<SpecQuestion>, int),
    CodecError,
>
    decreases count,
{
    if count <= 0 {
        Ok((seq![], pos))
    } else {
        match spec_parse_question(b, pos) {
            Err(e) => Err(e),
            Ok((q, next)) => match spec_parse_questions(b, next, count - 1) {
                Err(e) => Err(e),
                Ok((rest, end)) => match q {
                    Some(q) => Ok((seq![q] + rest, end)),
                    None => Ok((rest, end)),
                },
            },
        }
    }
}

/// The character strings of TXT data: length-prefixed strings that must fill
/// the RDATA exactly. `None` when a string overruns the RDATA end.
pub open spec fn spec_parse_txt(b: Seq<u8>, pos: int, fin: int) -> Option<Seq<Seq<char>>>
    decreases fin - pos,
{
    if pos >= fin {
        if pos == fin {
            Some(seq![])
        } else {
            None
        }
    } else {
        let len = b[pos] as int;
        if pos + 1 + len > fin {
            None
        } else {
            match spec_parse_txt(b, pos + 1 + len, fin) {
                Some(rest) => Some(seq![label_chars(b.subrange(pos + 1, pos + 1 + len))] + rest),
                None => None,
            }
        }
    }
}

/// Parses the RDATA of a record of the given class and type, lying between
/// `pos` and `fin` (its declared end). `None` means the record is skipped:
/// an unsupported (class, type) pair or RDATA that does not fit its type.
pub open spec fn spec_parse_rdata(
    b: Seq<u8>,
    pos: int,
    fin: int,
    rclass: DnsClass,
    rtype: DnsType,
) -> Option<SpecRRData> {
    if rclass != DnsClass::Internet {
        None
    } else {
        match rtype {
            DnsType::A => if fin - pos == 4 {
                Some(SpecRRData::A(Ipv4Address {
                    o0: b[pos],
                    o1: b[pos + 1],
                    o2: b[pos + 2],
                    o3: b[pos + 3],
                }))
            } else {
                None
            },
            DnsType::AAAA => if fin - pos == 16 {
                Some(SpecRRData::AAAA(Ipv6Address {
                    s0: be16(b[pos], b[pos + 1]),
                    s1: be16(b[pos + 2], b[pos + 3]),
                    s2: be16(b[pos + 4], b[pos + 5]),
                    s3: be16(b[pos + 6], b[pos + 7]),
                    s4: be16(b[pos + 8], b[pos + 9]),
                    s5: be16(b[pos + 10], b[pos + 11]),
                    s6: be16(b[pos + 12], b[pos + 13]),
                    s7: be16(b[pos + 14], b[pos + 15]),
                }))
            } else {
                None
            },
            DnsType::MX => if fin - pos < 2 {
                None
            } else {
                match spec_parse_name(b, pos + 2, MAX_POINTER_HOPS as int) {
                    Ok((n, _)) => Some(SpecRRData::MX(be16(b[pos], b[pos + 1]), n)),
                    Err(_) => None,
                }
            },
            DnsType::CNAME => match spec_parse_name(b, pos, MAX_POINTER_HOPS as int) {
                Ok((n, _)) => Some(SpecRRData::CNAME(n)),
                Err(_) => None,
            },
            DnsType::TXT => match spec_parse_txt(b, pos, fin) {
                Some(txt) => Some(SpecRRData::TXT(txt)),
                None => None,
            },
            DnsType::SOA => match spec_parse_name(b, pos, MAX_POINTER_HOPS as int) {
                Err(_) => None,
                Ok((mname, mend)) => match spec_parse_name(b, mend, MAX_POINTER_HOPS as int) {
                    Err(_) => None,
                    Ok((rname, rend)) => if rend + 20 > b.len() {
                        None
                    } else {
                        Some(SpecRRData::SOA(
                            mname,
                            rname,
                            be32(b[rend], b[rend + 1], b[rend + 2], b[rend + 3]),
                            be32(b[rend + 4], b[rend + 5], b[rend + 6], b[rend + 7]),
                            be32(b[rend + 8], b[rend + 9], b[rend + 10], b[rend + 11]),
                            be32(b[rend + 12], b[rend + 13], b[rend + 14], b[rend + 15]),
                            be32(b[rend + 16], b[rend + 17], b[rend + 18], b[rend + 19]),
                        ))
                    },
                },
            },
            DnsType::NS => match spec_parse_name(b, pos, MAX_POINTER_HOPS as int) {
                Ok((n, _)) => Some(SpecRRData::NS(n)),
                Err(_) => None,
            },
            _ => None,
        }
    }
}

/// Parses one resource record. Before the type and class are examined, the
/// RDLENGTH at ten bytes past the name's end determines the exact position
/// of the record's end; any record-level problem skips to it (`None`).
pub open spec fn spec_parse_rr(b: Seq<u8>, pos: int) -> Result<
    (Option<SpecResourceRecord>, int),
    CodecError,
> {
    match spec_parse_name(b, pos, MAX_POINTER_HOPS as int) {
        Err(e) => Err(e),
        Ok((n, name_end)) => if name_end + 10 > b.len() {
            Err(CodecError::UnexpectedEnd)
        } else {
            let rdlen = be16(b[name_end + 8], b[name_end + 9]) as int;
            let fin = name_end + 10 + rdlen;
            if fin > b.len() {
                Err(CodecError::UnexpectedEnd)
            } else {
                let t = be16(b[name_end], b[name_end + 1]);
                let c = be16(b[name_end + 2], b[name_end + 3]);
                let ttl = be32(b[name_end + 4], b[name_end + 5], b[name_end + 6], b[name_end + 7]);
                match (DnsType::try_from_spec(t), DnsClass::try_from_spec(c)) {
                    (Some(rtype), Some(rclass)) => match spec_parse_rdata(
                        b,
                        name_end + 10,
                        fin,
                        rclass,
                        rtype,
                    ) {
                        Some(data) => Ok(
                            (Some(SpecResourceRecord { name: n, rtype, rclass, ttl, data }), fin),
                        ),
                        None => Ok((None, fin)),
                    },
                    _ => Ok((None, fin)),
                }
            }
        },
    }
}

/// Parses `count` resource records, dropping the skipped ones.
pub open spec fn spec_parse_rrs(b: Seq<u8>, pos: int, count: int) -> Result<
    (Seq<SpecResourceRecord>, int),
    CodecError,
>
    decreases count,
{
    if count <= 0 {
        Ok((seq![], pos))
    } else {
        match spec_parse_rr(b, pos) {
            Err(e) => Err(e),
            Ok((r, next)) => match spec_parse_rrs(b, next, count - 1) {
                Err(e) => Err(e),
                Ok((rest, end)) => match r {
                    Some(r) => Ok((seq![r] + rest, end)),
                    None => Ok((rest, end)),
                },
            },
        }
    }
}

/// Parses the 12-byte header. Unknown opcode or rcode values abort the whole
/// message. The reserved Z bits are read and discarded.
pub open spec fn spec_parse_header(b: Seq<u8>) -> Result<(DnsHeader, int, int, int, int), CodecError> {
    if b.len() < 12 {
        Err(CodecError::UnexpectedEnd)
    } else {
        let id = be16(b[0], b[1]);
        let flags1 = b[2] as int;
        let flags2 = b[3] as int;
        let opcode_val = ((flags1 / 8) % 16) as u8;
        let rcode_val = (flags2 % 16) as u8;
        match DnsOpcode::try_from_spec(opcode_val) {
            None => Err(CodecError::UnknownOpcode(opcode_val)),
            Some(opcode) => match DnsRcode::try_from_spec(rcode_val) {
                None => Err(CodecError::UnknownRcode(rcode_val)),
                Some(rcode) => Ok(
                    (
                        DnsHeader {
                            id,
                            query: (flags1 / 128) % 2 == 0,
                            opcode,
                            authoritative: (flags1 / 4) % 2 == 1,
                            truncated: (flags1 / 2) % 2 == 1,
                            recur_desired: flags1 % 2 == 1,
                            recur_available: (flags2 / 128) % 2 == 1,
                            rcode,
                        },
                        be16(b[4], b[5]) as int,
                        be16(b[6], b[7]) as int,
                        be16(b[8], b[9]) as int,
                        be16(b[10], b[11]) as int,
                    ),
                ),
            },
        }
    }
}

/// A successful question parse ends inside the buffer.
pub proof fn lemma_parse_question_bounds(b: Seq<u8>, pos: int)
    ensures
        spec_parse_question(b, pos) matches Ok(p) ==> 0 <= pos < p.1 <= b.len(),
{
    lemma_parse_name_bounds(b, pos, MAX_POINTER_HOPS as int);
}

/// A successful question-section parse ends inside the buffer.
pub proof fn lemma_parse_questions_bounds(b: Seq<u8>, pos: int, count: int)
    requires
        0 <= pos <= b.len(),
    ensures
        spec_parse_questions(b, pos, count) matches Ok(p) ==> 0 <= p.1 <= b.len(),
    decreases count,
{
    if count <= 0 {
    } else {
        lemma_parse_question_bounds(b, pos);
        match spec_parse_question(b, pos) {
            Err(_) => {},
            Ok((_, next)) => {
                lemma_parse_questions_bounds(b, next, count - 1);
            },
        }
    }
}

/// A successful record parse ends inside the buffer.
pub proof fn lemma_parse_rr_bounds(b: Seq<u8>, pos: int)
    ensures
        spec_parse_rr(b, pos) matches Ok(p) ==> 0 <= pos < p.1 <= b.len(),
{
    lemma_parse_name_bounds(b, pos, MAX_POINTER_HOPS as int);
}

/// A successful record-section parse ends inside the buffer.
pub proof fn lemma_parse_rrs_bounds(b: Seq<u8>, pos: int, count: int)
    requires
        0 <= pos <= b.len(),
    ensures
        spec_parse_rrs(b, pos, count) matches Ok(p) ==> 0 <= p.1 <= b.len(),
    decreases count,
{
    if count <= 0 {
    } else {
        lemma_parse_rr_bounds(b, pos);
        match spec_parse_rr(b, pos) {
            Err(_) => {},
            Ok((_, next)) => {
                lemma_parse_rrs_bounds(b, next, count - 1);
            },
        }
    }
}

/// Parses a whole message from the start of `b`, returning it and the
/// position just past its last record.
pub open spec fn spec_parse_msg(b: Seq<u8>) -> Result<(SpecMessage, int), CodecError> {
    match spec_parse_header(b) {
        Err(e) => Err(e),
        Ok((header, qd, an, ns, ar)) => match spec_parse_questions(b, 12, qd) {
            Err(e) => Err(e),
            Ok((question, p1)) => match spec_parse_rrs(b, p1, an) {
                Err(e) => Err(e),
                Ok((answer, p2)) => match spec_parse_rrs(b, p2, ns) {
                    Err(e) => Err(e),
                    Ok((authority, p3)) => match spec_parse_rrs(b, p3, ar) {
                        Err(e) => Err(e),
                        Ok((additional, p4)) => Ok(
                            (SpecMessage { header, question, answer, authority, additional }, p4),
                        ),
                    },
                },
            },
        },
    }
}

/// A successful message parse ends inside the buffer.
pub proof fn lemma_parse_msg_bounds(b: Seq<u8>)
    ensures
        spec_parse_msg(b) matches Ok(p) ==> 0 <= p.1 <= b.len(),
{
    match spec_parse_header(b) {
        Err(_) => {},
        Ok((_, qd, an, ns, ar)) => {
            lemma_parse_questions_bounds(b, 12, qd);
            match spec_parse_questions(b, 12, qd) {
                Err(_) => {},
                Ok((_, p1)) => {
                    lemma_parse_rrs_bounds(b, p1, an);
                    match spec_parse_rrs(b, p1, an) {
                        Err(_) => {},
                        Ok((_, p2)) => {
                            lemma_parse_rrs_bounds(b, p2, ns);
                            match spec_parse_rrs(b, p2, ns) {
                                Err(_) => {},
                                Ok((_, p3)) => {
                                    lemma_parse_rrs_bounds(b, p3, ar);
                                },
                            }
                        },
                    }
                },
            }
        },
    }
}


/// Replacing the truncated flag changes only the flags byte at offset 2 of
/// the header; in particular the encoded length is unchanged.
pub proof fn lemma_msg_wire_with_tc(m: SpecMessage, tc: bool)
    ensures
        msg_wire(with_tc(m, tc)).len() == msg_wire(m).len(),
        msg_wire(m).len() == 12 + questions_wire(m.question).len() + rrs_wire(m.answer).len()
            + rrs_wire(m.authority).len() + rrs_wire(m.additional).len(),
        with_tc(m, tc).question == m.question,
        with_tc(m, tc).answer == m.answer,
        with_tc(m, tc).authority == m.authority,
        with_tc(m, tc).additional == m.additional,
{
    assert(header_wire(m).len() == 12);
    assert(header_wire(with_tc(m, tc)).len() == 12);
}

/// Taking a prefix of a concatenation that covers all of the first part
/// takes just a prefix of the second.
pub proof fn lemma_take_concat(a: Seq<u8>, b: Seq<u8>, k: int)
    requires
        0 <= k <= b.len(),
    ensures
        (a + b).take(a.len() + k) == a + b.take(k),
{
    assert((a + b).take(a.len() + k) =~= a + b.take(k));
}

} // verus!

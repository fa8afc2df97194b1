//! Executable DNS message codec, verified against the wire model in
//! `wire`: encoding in datagram mode (512-byte cap with truncation bit)
//! and stream mode (2-byte length prefix), and decoding with compression
//! pointers and per-record resynchronization.
use vstd::prelude::*;
use vstd::utf8::{encode_utf8, valid_utf8, decode_utf8};

use crate::message::{DnsMessage, DnsHeader, DnsQuestion, DnsResourceRecord, DnsRRData};
use crate::message::{DnsOpcode, DnsRcode, DnsType, DnsClass, Ipv4Address, Ipv6Address};
use crate::message::{SpecQuestion, SpecResourceRecord, SpecRRData};
use crate::wire::{CodecError, MAX_POINTER_HOPS, utf8_lossy, label_chars};
use crate::wire::{u16_wire, be16, u32_wire, be32, label_wire, label_wf, name_wire, name_wf};
use crate::wire::{question_wire, question_wf, txt_wire, txt_strings_wf, rdata_wire, data_type, rdata_wf};
use crate::wire::{rr_wire, rr_wf, flags1_byte, flags2_byte, header_wire};
use crate::wire::{questions_wire, rrs_wire, msg_wire, msg_wf, with_tc, dgram_wire, stream_wire};
use crate::wire::{spec_parse_name, spec_parse_question, spec_parse_questions, spec_parse_txt};
use crate::wire::{spec_parse_rdata, spec_parse_rr, spec_parse_rrs, spec_parse_header, spec_parse_msg};
use crate::wire::{prepend_labels, lemma_parse_name_bounds, lemma_parse_question_bounds};
use crate::wire::{lemma_parse_questions_bounds, lemma_parse_rr_bounds, lemma_parse_rrs_bounds};
use crate::wire::{lemma_parse_msg_bounds, lemma_msg_wire_with_tc, lemma_take_concat};

verus! {

/// Turns label bytes into their presentation string.
///
/// Relies on `String::from_utf8_lossy`: the result is a pure function of the
/// bytes, and on valid UTF-8 input the conversion is lossless, so it returns
/// exactly the characters whose UTF-8 encoding the bytes are.
#[verifier::external_body]
fn bytes_to_string_lossy(bytes: &[u8]) -> (r: String)
    ensures
        r@ == utf8_lossy(bytes@),
        valid_utf8(bytes@) ==> r@ == decode_utf8(bytes@),
{
    String::from_utf8_lossy(bytes).into_owned()
}

/// Appends the two big-endian bytes of `x`.
fn push_u16(buf: &mut Vec<u8>, x: u16)
    ensures
        final(buf)@ == old(buf)@ + u16_wire(x),
{
    buf.push((x / 256) as u8);
    buf.push((x % 256) as u8);
    assert(buf@ =~= old(buf)@ + u16_wire(x));
}

/// Appends the four big-endian bytes of `x`.
fn push_u32(buf: &mut Vec<u8>, x: u32)
    ensures
        final(buf)@ == old(buf)@ + u32_wire(x),
{
    buf.push((x / 0x1000000) as u8);
    buf.push(((x / 0x10000) % 256) as u8);
    buf.push(((x / 256) % 256) as u8);
    buf.push((x % 256) as u8);
    assert(buf@ =~= old(buf)@ + u32_wire(x));
}

/// Appends all bytes of a slice.
fn push_bytes(buf: &mut Vec<u8>, bytes: &[u8])
    ensures
        final(buf)@ == old(buf)@ + bytes@,
{
    let n = bytes.len();
    let mut i: usize = 0;
    while i < n
        invariant
            n == bytes@.len(),
            i <= n,
            buf@ == old(buf)@ + bytes@.take(i as int),
        decreases n - i,
    {
        buf.push(bytes[i]);
        assert(buf@ =~= old(buf)@ + bytes@.take(i + 1));
        i = i + 1;
    }
    assert(buf@ =~= old(buf)@ + bytes@);
}

/// Writes a name without compression: each label length-prefixed, then a
/// zero byte.
fn encode_name(name: &Vec<String>, buf: &mut Vec<u8>)
    requires
        name_wf(name.deep_view()),
    ensures
        final(buf)@ == old(buf)@ + name_wire(name.deep_view()),
{
    let ghost n = name.deep_view();
    proof {
        assert(n.skip(0) =~= n);
    }
    let mut i: usize = 0;
    while i < name.len()
        invariant
            name_wf(n),
            n == name.deep_view(),
            i <= name.len(),
            buf@ + name_wire(n.skip(i as int)) == old(buf)@ + name_wire(n),
        decreases name.len() - i,
    {
        let ghost buf_before = buf@;
        let label = name[i].as_str();
        let bytes = label.as_bytes();
        proof {
            assert(n[i as int] == label@);
            assert(bytes@ == encode_utf8(label@));
            assert(label_wf(n[i as int]));
        }
        buf.push(bytes.len() as u8);
        push_bytes(buf, bytes);
        proof {
            assert(buf@ =~= buf_before + label_wire(n[i as int]));
            assert(n.skip(i as int).drop_first() =~= n.skip(i as int + 1));
            assert(name_wire(n.skip(i as int)) == label_wire(n.skip(i as int)[0]) + name_wire(
                n.skip(i as int).drop_first(),
            ));
            assert(n.skip(i as int)[0] == n[i as int]);
            assert(buf@ + name_wire(n.skip(i as int + 1)) =~= buf_before + name_wire(
                n.skip(i as int),
            ));
        }
        i = i + 1;
    }
    proof {
        assert(n.skip(i as int) =~= Seq::<Seq<char>>::empty());
        assert(name_wire(Seq::<Seq<char>>::empty()) =~= seq![0u8]);
    }
    buf.push(0);
    assert(buf@ =~= old(buf)@ + name_wire(n));
}

/// Writes TXT character strings, each length-prefixed.
fn encode_txt(txt: &Vec<String>, buf: &mut Vec<u8>)
    requires
        txt_strings_wf(txt.deep_view()),
    ensures
        final(buf)@ == old(buf)@ + txt_wire(txt.deep_view()),
{
    let ghost t = txt.deep_view();
    proof {
        assert(t.skip(0) =~= t);
    }
    let mut i: usize = 0;
    while i < txt.len()
        invariant
            t == txt.deep_view(),
            txt_strings_wf(t),
            i <= txt.len(),
            buf@ + txt_wire(t.skip(i as int)) == old(buf)@ + txt_wire(t),
        decreases txt.len() - i,
    {
        let ghost buf_before = buf@;
        let s = txt[i].as_str();
        let bytes = s.as_bytes();
        proof {
            assert(t[i as int] == s@);
            assert(bytes@ == encode_utf8(s@));
        }
        buf.push(bytes.len() as u8);
        push_bytes(buf, bytes);
        proof {
            assert(t.skip(i as int).drop_first() =~= t.skip(i as int + 1));
            assert(t.skip(i as int)[0] == t[i as int]);
            assert(buf@ + txt_wire(t.skip(i as int + 1)) =~= buf_before + txt_wire(
                t.skip(i as int),
            ));
        }
        i = i + 1;
    }
    proof {
        assert(t.skip(i as int) =~= Seq::<Seq<char>>::empty());
        assert(buf@ =~= old(buf)@ + txt_wire(t));
    }
}

/// Writes the RDATA of a record (without the RDLENGTH field).
fn encode_rdata(data: &DnsRRData, buf: &mut Vec<u8>)
    requires
        rdata_wf(data@),
    ensures
        final(buf)@ == old(buf)@ + rdata_wire(data@),
{
    match data {
        DnsRRData::A(a) => {
            buf.push(a.o0);
            buf.push(a.o1);
            buf.push(a.o2);
            buf.push(a.o3);
            assert(buf@ =~= old(buf)@ + rdata_wire(data@));
        },
        DnsRRData::AAAA(a) => {
            push_u16(buf, a.s0);
            push_u16(buf, a.s1);
            push_u16(buf, a.s2);
            push_u16(buf, a.s3);
            push_u16(buf, a.s4);
            push_u16(buf, a.s5);
            push_u16(buf, a.s6);
            push_u16(buf, a.s7);
            assert(buf@ =~= old(buf)@ + rdata_wire(data@));
        },
        DnsRRData::MX(pref, name) => {
            push_u16(buf, *pref);
            encode_name(name, buf);
            assert(buf@ =~= old(buf)@ + rdata_wire(data@));
        },
        DnsRRData::CNAME(name) => {
            encode_name(name, buf);
        },
        DnsRRData::TXT(txt) => {
            proof {
                assert(data@ == SpecRRData::TXT(txt.deep_view()));
                assert(rdata_wf(SpecRRData::TXT(txt.deep_view())));
            }
            encode_txt(txt, buf);
        },
        DnsRRData::SOA(mname, rname, serial, refresh, retry, expire, minimum) => {
            encode_name(mname, buf);
            encode_name(rname, buf);
            push_u32(buf, *serial);
            push_u32(buf, *refresh);
            push_u32(buf, *retry);
            push_u32(buf, *expire);
            push_u32(buf, *minimum);
            assert(buf@ =~= old(buf)@ + rdata_wire(data@));
        },
        DnsRRData::NS(name) => {
            encode_name(name, buf);
        },
    }
}

/// Writes one resource record: name, type, class, ttl, then the RDLENGTH
/// computed from the RDATA being written, then the RDATA.
fn encode_rr(rr: &DnsResourceRecord, buf: &mut Vec<u8>)
    requires
        rr_wf(rr@),
    ensures
        final(buf)@ == old(buf)@ + rr_wire(rr@),
{
    encode_name(&rr.name, buf);
    push_u16(buf, rr.rtype.code());
    push_u16(buf, rr.rclass.code());
    push_u32(buf, rr.ttl);
    let mut rdata: Vec<u8> = Vec::new();
    encode_rdata(&rr.data, &mut rdata);
    assert(rdata@ == rdata_wire(rr@.data));
    push_u16(buf, rdata.len() as u16);
    let mut i: usize = 0;
    let ghost mid = buf@;
    while i < rdata.len()
        invariant
            i <= rdata.len(),
            buf@ == mid + rdata@.take(i as int),
        decreases rdata.len() - i,
    {
        buf.push(rdata[i]);
        assert(buf@ =~= mid + rdata@.take(i + 1));
        i = i + 1;
    }
    assert(buf@ =~= old(buf)@ + rr_wire(rr@));
}

/// Writes the 12 header bytes; the counts are the given section lengths.
fn encode_header(
    header: &DnsHeader,
    qd: u16,
    an: u16,
    ns: u16,
    ar: u16,
    buf: &mut Vec<u8>,
)
    ensures
        final(buf)@ == old(buf)@ + u16_wire(header.id) + seq![flags1_byte(*header), flags2_byte(*header)]
            + u16_wire(qd) + u16_wire(an) + u16_wire(ns) + u16_wire(ar),
{
    push_u16(buf, header.id);
    let opcode = header.opcode.code();
    assert(opcode <= 2);
    let flags1: u8 = (if header.query {
        0u8
    } else {
        128u8
    }) + opcode * 8 + (if header.authoritative {
        4u8
    } else {
        0u8
    }) + (if header.truncated {
        2u8
    } else {
        0u8
    }) + (if header.recur_desired {
        1u8
    } else {
        0u8
    });
    buf.push(flags1);
    let rcode = header.rcode.code();
    assert(rcode <= 5);
    let flags2: u8 = (if header.recur_available {
        128u8
    } else {
        0u8
    }) + rcode;
    buf.push(flags2);
    push_u16(buf, qd);
    push_u16(buf, an);
    push_u16(buf, ns);
    push_u16(buf, ar);
    assert(flags1 == flags1_byte(*header));
    assert(flags2 == flags2_byte(*header));
    assert(buf@ =~= old(buf)@ + u16_wire(header.id) + seq![
        flags1_byte(*header),
        flags2_byte(*header),
    ] + u16_wire(qd) + u16_wire(an) + u16_wire(ns) + u16_wire(ar));
}

/// The body of a message: the four sections, without the header.
fn encode_sections(item: &DnsMessage, buf: &mut Vec<u8>)
    requires
        msg_wf(item@),
    ensures
        final(buf)@ == old(buf)@ + questions_wire(item@.question) + rrs_wire(item@.answer) + rrs_wire(
            item@.authority,
        ) + rrs_wire(item@.additional),
{
    let ghost qs = item@.question;
    proof {
        assert(qs.skip(0) =~= qs);
    }
    let mut i: usize = 0;
    while i < item.question.len()
        invariant
            msg_wf(item@),
            qs == item@.question,
            i <= item.question.len(),
            buf@ + questions_wire(qs.skip(i as int)) == old(buf)@ + questions_wire(qs),
        decreases item.question.len() - i,
    {
        let ghost buf_before = buf@;
        let q = &item.question[i];
        assert(question_wf(qs[i as int]));
        encode_name(&q.qname, buf);
        push_u16(buf, q.qtype.code());
        push_u16(buf, q.qclass.code());
        proof {
            assert(qs.skip(i as int).drop_first() =~= qs.skip(i as int + 1));
            assert(qs.skip(i as int)[0] == qs[i as int]);
            assert(buf@ =~= buf_before + question_wire(qs[i as int]));
            assert(buf@ + questions_wire(qs.skip(i as int + 1)) =~= buf_before + questions_wire(
                qs.skip(i as int),
            ));
        }
        i = i + 1;
    }
    proof {
        assert(qs.skip(i as int) =~= Seq::<SpecQuestion>::empty());
        assert(buf@ =~= old(buf)@ + questions_wire(qs));
    }
    encode_rr_section(&item.answer, buf);
    encode_rr_section(&item.authority, buf);
    encode_rr_section(&item.additional, buf);
    assert(buf@ =~= old(buf)@ + questions_wire(item@.question) + rrs_wire(item@.answer) + rrs_wire(
        item@.authority,
    ) + rrs_wire(item@.additional));
}

/// Writes one record section in order.
fn encode_rr_section(rrs: &Vec<DnsResourceRecord>, buf: &mut Vec<u8>)
    requires
        forall|i: int| 0 <= i < rrs.deep_view().len() ==> rr_wf(#[trigger] rrs.deep_view()[i]),
    ensures
        final(buf)@ == old(buf)@ + rrs_wire(rrs.deep_view()),
{
    let ghost rs = rrs.deep_view();
    proof {
        assert(rs.skip(0) =~= rs);
    }
    let mut i: usize = 0;
    while i < rrs.len()
        invariant
            forall|j: int| 0 <= j < rs.len() ==> rr_wf(#[trigger] rs[j]),
            rs == rrs.deep_view(),
            i <= rrs.len(),
            buf@ + rrs_wire(rs.skip(i as int)) == old(buf)@ + rrs_wire(rs),
        decreases rrs.len() - i,
    {
        let ghost buf_before = buf@;
        encode_rr(&rrs[i], buf);
        proof {
            assert(rs.skip(i as int).drop_first() =~= rs.skip(i as int + 1));
            assert(rs.skip(i as int)[0] == rs[i as int]);
            assert(buf@ + rrs_wire(rs.skip(i as int + 1)) =~= buf_before + rrs_wire(
                rs.skip(i as int),
            ));
        }
        i = i + 1;
    }
    proof {
        assert(rs.skip(i as int) =~= Seq::<SpecResourceRecord>::empty());
        assert(buf@ =~= old(buf)@ + rrs_wire(rs));
    }
}

/// The message codec. `tcp` selects stream mode (messages prefixed by their
/// 16-bit big-endian length) against datagram mode (no prefix, 512-byte cap
/// with the truncation bit). The codec itself is stateless: every call
/// works from the buffer it is given.
#[derive(Copy, Clone, Debug)]
pub struct DnsMessageCodec {
    tcp: bool,
}

impl DnsMessageCodec {
    /// True when this codec frames messages for a byte stream.
    pub closed spec fn stream_mode(&self) -> bool {
        self.tcp
    }

    pub fn new(tcp: bool) -> (r: DnsMessageCodec)
        ensures
            r.stream_mode() == tcp,
    {
        DnsMessageCodec { tcp }
    }

    /// Encodes `item` and appends the result to `buf`.
    ///
    /// In stream mode the bytes are exactly `stream_wire(item@)`; in
    /// datagram mode exactly `dgram_wire(item@)`: at most 512 bytes, with
    /// the truncation bit set if and only if the full encoding was longer.
    /// Decodes one message from the front of `src`, consuming its bytes.
    ///
    /// In datagram mode: fewer than 12 bytes is an incomplete message
    /// (`Ok(None)`, buffer untouched); otherwise the result and the bytes
    /// consumed are exactly those of `spec_parse_msg`, and a malformed
    /// header aborts with the buffer untouched.
    ///
    /// In stream mode: with fewer than 2 bytes, or fewer than the 2-byte
    /// length prefix promises, `Ok(None)` and the buffer is untouched;
    /// otherwise exactly `2 + length` bytes are consumed and the message is
    /// parsed from that frame alone.
    pub fn decode(&self, src: &mut Vec<u8>) -> (r: Result<Option<DnsMessage>, CodecError>)
        ensures
            !self.stream_mode() ==> dgram_decode_post(old(src)@, final(src)@, r),
            self.stream_mode() ==> stream_decode_post(old(src)@, final(src)@, r),
    {
        if !self.tcp {
            if src.len() < 12 {
                return Ok(None);
            }
            match parse_message(src) {
                Err(e) => Err(e),
                Ok(mp) => {
                    proof {
                        lemma_parse_msg_bounds(src@);
                    }
                    let msg = mp.0;
                    consume_front(src, mp.1);
                    Ok(Some(msg))
                },
            }
        } else {
            if src.len() < 2 {
                return Ok(None);
            }
            let flen = (src[0] as usize) * 256 + (src[1] as usize);
            if src.len() - 2 < flen {
                return Ok(None);
            }
            let window_end = 2 + flen;
            let wslice = vstd::slice::slice_subrange(src.as_slice(), 2, window_end);
            let window = vstd::slice::slice_to_vec(wslice);
            proof {
                assert(window@ == src@.subrange(2, window_end as int));
            }
            match parse_message(&window) {
                Err(e) => {
                    consume_front(src, window_end);
                    Err(e)
                },
                Ok(mp) => {
                    consume_front(src, window_end);
                    Ok(Some(mp.0))
                },
            }
        }
    }

    pub fn encode(&self, item: DnsMessage, buf: &mut Vec<u8>) -> (r: Result<(), CodecError>)
        requires
            msg_wf(item@),
            self.stream_mode() ==> msg_wire(item@).len() <= 0xffff,
        ensures
            r is Ok,
            self.stream_mode() ==> final(buf)@ == old(buf)@ + stream_wire(item@),
            !self.stream_mode() ==> final(buf)@ == old(buf)@ + dgram_wire(item@),
    {
        if self.tcp {
            encode_stream_mode(&item, buf);
        } else {
            encode_dgram_mode(&item, buf);
        }
        Ok(())
    }
}

/// Whether every label of a name occupies 1 to 63 bytes.
fn name_ok(name: &Vec<String>) -> (r: bool)
    ensures
        r == name_wf(name.deep_view()),
{
    let mut i: usize = 0;
    while i < name.len()
        invariant
            i <= name.len(),
            forall|j: int| 0 <= j < i ==> label_wf(#[trigger] name.deep_view()[j]),
        decreases name.len() - i,
    {
        let bytes = name[i].as_str().as_bytes();
        let len = bytes.len();
        proof {
            assert(bytes@ == encode_utf8(name[i as int]@));
        }
        if len < 1 || len > 63 {
            proof {
                assert(name.deep_view()[i as int] == name[i as int]@);
                assert(!label_wf(name.deep_view()[i as int]));
            }
            return false;
        }
        proof {
            assert(name.deep_view()[i as int] == name[i as int]@);
            assert(label_wf(name.deep_view()[i as int]));
        }
        i = i + 1;
    }
    true
}

/// Whether the RDATA of a record can be written faithfully.
fn rdata_ok(data: &DnsRRData) -> (r: bool)
    ensures
        r == rdata_wf(data@),
{
    match data {
        DnsRRData::A(_) => true,
        DnsRRData::AAAA(_) => true,
        DnsRRData::MX(_, name) => name_ok(name),
        DnsRRData::CNAME(name) => name_ok(name),
        DnsRRData::TXT(txt) => txt_ok(txt),
        DnsRRData::SOA(mname, rname, _, _, _, _, _) => name_ok(mname) && name_ok(rname),
        DnsRRData::NS(name) => name_ok(name),
    }
}

/// Whether every TXT character string fits its one-byte length prefix.
fn txt_ok(txt: &Vec<String>) -> (r: bool)
    ensures
        r == txt_strings_wf(txt.deep_view()),
{
    let mut i: usize = 0;
    while i < txt.len()
        invariant
            i <= txt.len(),
            forall|j: int| 0 <= j < i ==> encode_utf8(#[trigger] txt.deep_view()[j]).len() <= 255,
        decreases txt.len() - i,
    {
        let bytes = txt[i].as_str().as_bytes();
        proof {
            assert(bytes@ == encode_utf8(txt[i as int]@));
            assert(txt.deep_view()[i as int] == txt[i as int]@);
        }
        if bytes.len() > 255 {
            return false;
        }
        i = i + 1;
    }
    true
}

/// The record type a data variant belongs under.
fn data_type_of(data: &DnsRRData) -> (r: DnsType)
    ensures
        r == data_type(data@),
{
    match data {
        DnsRRData::A(_) => DnsType::A,
        DnsRRData::AAAA(_) => DnsType::AAAA,
        DnsRRData::MX(_, _) => DnsType::MX,
        DnsRRData::CNAME(_) => DnsType::CNAME,
        DnsRRData::TXT(_) => DnsType::TXT,
        DnsRRData::SOA(_, _, _, _, _, _, _) => DnsType::SOA,
        DnsRRData::NS(_) => DnsType::NS,
    }
}

/// Whether one record can be written faithfully: names well formed, RDATA
/// within its 16-bit length field, type and class matching the data.
fn rr_ok(rr: &DnsResourceRecord) -> (r: bool)
    ensures
        r == rr_wf(rr@),
{
    if !name_ok(&rr.name) {
        return false;
    }
    if !rdata_ok(&rr.data) {
        return false;
    }
    if !(rr.rtype == data_type_of(&rr.data)) {
        return false;
    }
    if !matches!(rr.rclass, DnsClass::Internet) {
        return false;
    }
    let mut tmp: Vec<u8> = Vec::new();
    encode_rdata(&rr.data, &mut tmp);
    if tmp.len() > 0xffff {
        return false;
    }
    proof {
        assert(tmp@ == rdata_wire(rr@.data));
        assert(rr@.data matches SpecRRData::A(_) ==> rdata_wire(rr@.data).len() == 4);
        assert(rr@.data matches SpecRRData::AAAA(_) ==> rdata_wire(rr@.data).len() == 16);
    }
    true
}

/// Whether every record of a section can be written faithfully.
fn rr_section_ok(rrs: &Vec<DnsResourceRecord>) -> (r: bool)
    ensures
        r == ((rrs.deep_view().len() <= 0xffff) && (forall|i: int|
            0 <= i < rrs.deep_view().len() ==> rr_wf(#[trigger] rrs.deep_view()[i]))),
{
    if rrs.len() > 0xffff {
        return false;
    }
    let mut i: usize = 0;
    while i < rrs.len()
        invariant
            i <= rrs.len(),
            rrs.len() <= 0xffff,
            forall|j: int| 0 <= j < i ==> rr_wf(#[trigger] rrs.deep_view()[j]),
        decreases rrs.len() - i,
    {
        if !rr_ok(&rrs[i]) {
            proof {
                assert(rrs.deep_view()[i as int] == rrs[i as int]@);
            }
            return false;
        }
        proof {
            assert(rrs.deep_view()[i as int] == rrs[i as int]@);
        }
        i = i + 1;
    }
    true
}

/// Whether a message is one the codec writes faithfully: every name's
/// labels fit their length bytes, every section count fits its header
/// field, and every record is well formed. `encode` asks for this.
pub fn msg_well_formed(item: &DnsMessage) -> (r: bool)
    ensures
        r == msg_wf(item@),
{
    if item.question.len() > 0xffff {
        return false;
    }
    let mut i: usize = 0;
    while i < item.question.len()
        invariant
            i <= item.question.len(),
            item.question.len() <= 0xffff,
            forall|j: int| 0 <= j < i ==> question_wf(#[trigger] item.question.deep_view()[j]),
        decreases item.question.len() - i,
    {
        if !name_ok(&item.question[i].qname) {
            proof {
                assert(item.question.deep_view()[i as int] == item.question[i as int]@);
            }
            return false;
        }
        proof {
            assert(item.question.deep_view()[i as int] == item.question[i as int]@);
        }
        i = i + 1;
    }
    rr_section_ok(&item.answer) && rr_section_ok(&item.authority) && rr_section_ok(
        &item.additional,
    )
}

/// The exact length of the message on the wire, before any datagram
/// truncation.
pub fn wire_length(item: &DnsMessage) -> (r: u128)
    requires
        msg_wf(item@),
    ensures
        r == msg_wire(item@).len(),
{
    let mut body: Vec<u8> = Vec::new();
    encode_sections(item, &mut body);
    proof {
        lemma_msg_wire_with_tc(item@, item@.header.truncated);
    }
    12 + body.len() as u128
}

/// What datagram-mode decoding guarantees: `pre` is the buffer before the
/// call, `post` after it.
pub open spec fn dgram_decode_post(
    pre: Seq<u8>,
    post: Seq<u8>,
    r: Result<Option<DnsMessage>, CodecError>,
) -> bool {
    if pre.len() < 12 {
        r is Ok && r->Ok_0 is None && post == pre
    } else {
        match spec_parse_msg(pre) {
            Ok(p) => r is Ok && r->Ok_0 is Some && (r->Ok_0->Some_0)@ == p.0 && post == pre.skip(
                p.1,
            ),
            Err(e) => r is Err && r->Err_0 == e && post == pre,
        }
    }
}

/// What stream-mode decoding guarantees: a complete `[length][message]`
/// frame is consumed whole and parsed on its own; an incomplete frame
/// leaves the buffer untouched and yields no message.
pub open spec fn stream_decode_post(
    pre: Seq<u8>,
    post: Seq<u8>,
    r: Result<Option<DnsMessage>, CodecError>,
) -> bool {
    if pre.len() < 2 {
        r is Ok && r->Ok_0 is None && post == pre
    } else {
        let flen = be16(pre[0], pre[1]) as int;
        if pre.len() < 2 + flen {
            r is Ok && r->Ok_0 is None && post == pre
        } else {
            let window = pre.subrange(2, 2 + flen);
            match spec_parse_msg(window) {
                Ok(p) => r is Ok && r->Ok_0 is Some && (r->Ok_0->Some_0)@ == p.0 && post
                    == pre.skip(2 + flen),
                Err(e) => r is Err && r->Err_0 == e && post == pre.skip(2 + flen),
            }
        }
    }
}

/// Stream-mode encoding: the 16-bit message length, then the message with
/// its truncated flag written as given.
#[verifier::rlimit(60)]
fn encode_stream_mode(item: &DnsMessage, buf: &mut Vec<u8>)
    requires
        msg_wf(item@),
        msg_wire(item@).len() <= 0xffff,
    ensures
        final(buf)@ == old(buf)@ + stream_wire(item@),
{
    let ghost m = item@;
    let mut body: Vec<u8> = Vec::new();
    encode_sections(item, &mut body);
    proof {
        assert(m.question.len() == item.question@.len());
        assert(m.answer.len() == item.answer@.len());
        assert(m.authority.len() == item.authority@.len());
        assert(m.additional.len() == item.additional@.len());
        lemma_msg_wire_with_tc(m, item.header.truncated);
        assert(msg_wire(m).len() == 12 + body@.len());
    }
    let qd = item.question.len() as u16;
    let an = item.answer.len() as u16;
    let ns = item.authority.len() as u16;
    let ar = item.additional.len() as u16;
    let total = (12 + body.len()) as u16;
    push_u16(buf, total);
    encode_header(&item.header, qd, an, ns, ar, buf);
    buf.append(&mut body);
    proof {
        assert(header_wire(m) =~= u16_wire(m.header.id) + seq![
            flags1_byte(m.header),
            flags2_byte(m.header),
        ] + u16_wire(qd) + u16_wire(an) + u16_wire(ns) + u16_wire(ar));
        assert(buf@ =~= old(buf)@ + stream_wire(m));
    }
}

/// Datagram-mode encoding: after a full encode, an encoding longer than 512
/// bytes has the truncation bit set and is cut to exactly 512 bytes;
/// otherwise the truncation bit is written as zero.
#[verifier::spinoff_prover]
#[verifier::rlimit(100)]
fn encode_dgram_mode(item: &DnsMessage, buf: &mut Vec<u8>)
    requires
        msg_wf(item@),
    ensures
        final(buf)@ == old(buf)@ + dgram_wire(item@),
{
    let ghost m = item@;
    let mut body: Vec<u8> = Vec::new();
    encode_sections(item, &mut body);
    proof {
        assert(m.question.len() == item.question@.len());
        assert(m.answer.len() == item.answer@.len());
        assert(m.authority.len() == item.authority@.len());
        assert(m.additional.len() == item.additional@.len());
    }
    let qd = item.question.len() as u16;
    let an = item.answer.len() as u16;
    let ns = item.authority.len() as u16;
    let ar = item.additional.len() as u16;
    let start = buf.len();
    let tc = body.len() > 500;
    let header2 = DnsHeader { truncated: tc, ..item.header };
    let ghost mtc = with_tc(m, tc);
    proof {
        lemma_msg_wire_with_tc(m, tc);
        assert(header2 == mtc.header);
        assert(msg_wire(mtc).len() == 12 + body@.len());
    }
    encode_header(&header2, qd, an, ns, ar, buf);
    buf.append(&mut body);
    proof {
        assert(header_wire(mtc) =~= u16_wire(mtc.header.id) + seq![
            flags1_byte(mtc.header),
            flags2_byte(mtc.header),
        ] + u16_wire(qd) + u16_wire(an) + u16_wire(ns) + u16_wire(ar));
        assert(buf@ =~= old(buf)@ + msg_wire(mtc));
    }
    if tc {
        let blen = buf.len();
        proof {
            assert(blen == start + msg_wire(mtc).len());
            assert(msg_wire(mtc).len() > 512);
            assert(start + 512 < blen);
        }
        buf.truncate(start + 512);
        proof {
            lemma_take_concat(old(buf)@, msg_wire(mtc), 512);
            assert(buf@ == old(buf)@ + msg_wire(mtc).take(512));
            assert(dgram_wire(m) == msg_wire(mtc).take(512));
        }
    } else {
        assert(buf@ =~= old(buf)@ + dgram_wire(m));
    }
}

/// Reads a name at `pos`: literal labels until a zero byte ends the name or
/// a compression pointer continues it elsewhere, with at most `hops`
/// pointer hops. Returns the labels and the position just past the name.
#[verifier::rlimit(60)]
fn next_name(src: &Vec<u8>, pos: usize, hops: u16) -> (r: Result<(Vec<String>, usize), CodecError>)
    ensures
        ({
            let s = spec_parse_name(src@, pos as int, hops as int);
            match s {
                Ok(p) => r is Ok && r->Ok_0.0.deep_view() == p.0 && r->Ok_0.1 == p.1,
                Err(e) => r is Err && r->Err_0 == e,
            }
        }),
    decreases hops,
{
    let ghost orig = spec_parse_name(src@, pos as int, hops as int);
    let mut labels: Vec<String> = Vec::new();
    let mut cur: usize = pos;
    proof {
        assert(labels.deep_view() =~= Seq::<Seq<char>>::empty());
        match orig {
            Ok(p) => {
                assert(Seq::<Seq<char>>::empty() + p.0 =~= p.0);
            },
            Err(_) => {},
        }
        assert(orig == prepend_labels(labels.deep_view(), orig));
    }
    loop
        invariant
            orig == spec_parse_name(src@, pos as int, hops as int),
            orig == prepend_labels(
                labels.deep_view(),
                spec_parse_name(src@, cur as int, hops as int),
            ),
        decreases src@.len() - cur,
    {
        let ghost here = spec_parse_name(src@, cur as int, hops as int);
        if cur >= src.len() {
            return Err(CodecError::UnexpectedEnd);
        }
        let len = src[cur];
        if len == 0 {
            proof {
                assert(here == Ok::<(Seq<Seq<char>>, int), CodecError>((
                    Seq::<Seq<char>>::empty(),
                    cur + 1,
                )));
                assert(labels.deep_view() + Seq::<Seq<char>>::empty() =~= labels.deep_view());
            }
            return Ok((labels, cur + 1));
        } else if len < 64 {
            if (len as usize) > src.len() - cur - 1 {
                return Err(CodecError::UnexpectedEnd);
            }
            let lbl_end = cur + 1 + (len as usize);
            let bytes = vstd::slice::slice_subrange(src.as_slice(), cur + 1, lbl_end);
            let s = bytes_to_string_lossy(bytes);
            proof {
                assert(bytes@ == src@.subrange(cur + 1, lbl_end as int));
                assert(s@ == label_chars(src@.subrange(cur + 1, lbl_end as int)));
            }
            let ghost labels_before = labels.deep_view();
            labels.push(s);
            proof {
                assert(labels.deep_view() =~= labels_before + seq![s@]);
                let next = spec_parse_name(src@, lbl_end as int, hops as int);
                match next {
                    Ok(p) => {
                        assert(here == Ok::<(Seq<Seq<char>>, int), CodecError>((
                            seq![s@] + p.0,
                            p.1,
                        )));
                        assert((labels_before + seq![s@]) + p.0 =~= labels_before + (seq![s@]
                            + p.0));
                    },
                    Err(_) => {
                        assert(here == next);
                    },
                }
            }
            cur = lbl_end;
        } else if len >= 192 {
            if src.len() - cur < 2 {
                return Err(CodecError::UnexpectedEnd);
            }
            if hops == 0 {
                return Err(CodecError::MalformedName);
            }
            let target = ((len - 192) as usize) * 256 + (src[cur + 1] as usize);
            match next_name(src, target, hops - 1) {
                Ok(tail) => {
                    let mut tail_labels = tail.0;
                    let ghost labels_before = labels.deep_view();
                    labels.append(&mut tail_labels);
                    proof {
                        assert(labels.deep_view() =~= labels_before
                            + spec_label_seq_of(
                            spec_parse_name(src@, target as int, hops as int - 1),
                        ));
                    }
                    return Ok((labels, cur + 2));
                },
                Err(e) => {
                    return Err(e);
                },
            }
        } else {
            return Err(CodecError::MalformedName);
        }
    }
}

/// An executable question relates to a spec parse outcome.
pub open spec fn question_opt_matches(o: Option<DnsQuestion>, s: Option<SpecQuestion>) -> bool {
    match (o, s) {
        (Some(q), Some(sq)) => q@ == sq,
        (None, None) => true,
        _ => false,
    }
}

/// An executable record relates to a spec parse outcome.
pub open spec fn rr_opt_matches(o: Option<DnsResourceRecord>, s: Option<SpecResourceRecord>) -> bool {
    match (o, s) {
        (Some(r), Some(sr)) => r@ == sr,
        (None, None) => true,
        _ => false,
    }
}

/// Reads one question at `pos`. An unknown type or class skips it, leaving
/// the cursor just past the question.
fn next_question(src: &Vec<u8>, pos: usize) -> (r: Result<(Option<DnsQuestion>, usize), CodecError>)
    ensures
        ({
            let s = spec_parse_question(src@, pos as int);
            match s {
                Ok(p) => r is Ok && question_opt_matches(r->Ok_0.0, p.0) && r->Ok_0.1 == p.1,
                Err(e) => r is Err && r->Err_0 == e,
            }
        }),
{
    match next_name(src, pos, MAX_POINTER_HOPS) {
        Err(e) => Err(e),
        Ok(nm) => {
            let qname = nm.0;
            let name_end = nm.1;
            proof {
                lemma_parse_name_bounds(src@, pos as int, MAX_POINTER_HOPS as int);
            }
            if src.len() - name_end < 4 {
                return Err(CodecError::UnexpectedEnd);
            }
            let t = (src[name_end] as u16) * 256 + (src[name_end + 1] as u16);
            let c = (src[name_end + 2] as u16) * 256 + (src[name_end + 3] as u16);
            match (DnsType::try_from(t), DnsClass::try_from(c)) {
                (Some(qtype), Some(qclass)) => Ok(
                    (Some(DnsQuestion { qname, qtype, qclass }), name_end + 4),
                ),
                _ => Ok((None, name_end + 4)),
            }
        },
    }
}

/// Reads TXT character strings between `pos` and `fin`; they must fill that
/// range exactly.
fn next_txt(src: &Vec<u8>, pos: usize, fin: usize) -> (r: Option<Vec<String>>)
    requires
        fin <= src@.len(),
    ensures
        ({
            let s = spec_parse_txt(src@, pos as int, fin as int);
            &&& (s is Some <==> r is Some)
            &&& (s is Some ==> r->Some_0.deep_view() == s->Some_0)
        }),
    decreases fin - pos,
{
    if pos >= fin {
        if pos == fin {
            Some(Vec::new())
        } else {
            None
        }
    } else {
        let len = src[pos] as usize;
        if len > fin - pos - 1 {
            None
        } else {
            let bytes = vstd::slice::slice_subrange(src.as_slice(), pos + 1, pos + 1 + len);
            let s = bytes_to_string_lossy(bytes);
            proof {
                assert(bytes@ == src@.subrange(pos + 1, pos + 1 + len));
                assert(s@ == label_chars(src@.subrange(pos + 1, pos + 1 + len)));
            }
            match next_txt(src, pos + 1 + len, fin) {
                Some(rest) => {
                    let mut rest = rest;
                    let ghost rest_view = rest.deep_view();
                    rest.insert(0, s);
                    proof {
                        assert(rest.deep_view() =~= seq![s@] + rest_view);
                    }
                    Some(rest)
                },
                None => None,
            }
        }
    }
}

/// Reads the RDATA of a record of the given class and type between `pos`
/// and its declared end `fin`. `None` skips the record.
fn next_rdata(src: &Vec<u8>, pos: usize, fin: usize, rclass: DnsClass, rtype: DnsType) -> (r:
    Option<DnsRRData>)
    requires
        pos <= fin <= src@.len(),
    ensures
        ({
            let s = spec_parse_rdata(src@, pos as int, fin as int, rclass, rtype);
            &&& (s is Some <==> r is Some)
            &&& (s is Some ==> r->Some_0@ == s->Some_0)
        }),
{
    if !matches!(rclass, DnsClass::Internet) {
        return None;
    }
    match rtype {
        DnsType::A => {
            if fin - pos == 4 {
                Some(
                    DnsRRData::A(
                        Ipv4Address {
                            o0: src[pos],
                            o1: src[pos + 1],
                            o2: src[pos + 2],
                            o3: src[pos + 3],
                        },
                    ),
                )
            } else {
                None
            }
        },
        DnsType::AAAA => {
            if fin - pos == 16 {
                Some(
                    DnsRRData::AAAA(
                        Ipv6Address {
                            s0: (src[pos] as u16) * 256 + (src[pos + 1] as u16),
                            s1: (src[pos + 2] as u16) * 256 + (src[pos + 3] as u16),
                            s2: (src[pos + 4] as u16) * 256 + (src[pos + 5] as u16),
                            s3: (src[pos + 6] as u16) * 256 + (src[pos + 7] as u16),
                            s4: (src[pos + 8] as u16) * 256 + (src[pos + 9] as u16),
                            s5: (src[pos + 10] as u16) * 256 + (src[pos + 11] as u16),
                            s6: (src[pos + 12] as u16) * 256 + (src[pos + 13] as u16),
                            s7: (src[pos + 14] as u16) * 256 + (src[pos + 15] as u16),
                        },
                    ),
                )
            } else {
                None
            }
        },
        DnsType::MX => {
            if fin - pos < 2 {
                None
            } else {
                let pref = (src[pos] as u16) * 256 + (src[pos + 1] as u16);
                match next_name(src, pos + 2, MAX_POINTER_HOPS) {
                    Ok(nm) => Some(DnsRRData::MX(pref, nm.0)),
                    Err(_) => None,
                }
            }
        },
        DnsType::CNAME => {
            match next_name(src, pos, MAX_POINTER_HOPS) {
                Ok(nm) => Some(DnsRRData::CNAME(nm.0)),
                Err(_) => None,
            }
        },
        DnsType::TXT => {
            match next_txt(src, pos, fin) {
                Some(txt) => Some(DnsRRData::TXT(txt)),
                None => None,
            }
        },
        DnsType::SOA => {
            match next_name(src, pos, MAX_POINTER_HOPS) {
                Err(_) => None,
                Ok(mn) => {
                    let mname = mn.0;
                    match next_name(src, mn.1, MAX_POINTER_HOPS) {
                        Err(_) => None,
                        Ok(rn) => {
                            let rname = rn.0;
                            let rend = rn.1;
                            proof {
                                lemma_parse_name_bounds(src@, mn.1 as int, MAX_POINTER_HOPS as int);
                            }
                            if src.len() - rend < 20 {
                                None
                            } else {
                                Some(
                                    DnsRRData::SOA(
                                        mname,
                                        rname,
                                        read_u32(src, rend),
                                        read_u32(src, rend + 4),
                                        read_u32(src, rend + 8),
                                        read_u32(src, rend + 12),
                                        read_u32(src, rend + 16),
                                    ),
                                )
                            }
                        },
                    }
                },
            }
        },
        DnsType::NS => {
            match next_name(src, pos, MAX_POINTER_HOPS) {
                Ok(nm) => Some(DnsRRData::NS(nm.0)),
                Err(_) => None,
            }
        },
        _ => None,
    }
}

/// Reads a 32-bit big-endian value.
fn read_u32(src: &Vec<u8>, pos: usize) -> (r: u32)
    requires
        pos + 4 <= src@.len(),
    ensures
        r == be32(src@[pos as int], src@[pos as int + 1], src@[pos as int + 2], src@[pos as int + 3]),
{
    let n = src.len();
    assert(pos + 4 <= n);
    (src[pos] as u32) * 0x1000000 + (src[pos + 1] as u32) * 0x10000 + (src[pos + 2] as u32) * 256 + (
    src[pos + 3] as u32)
}

/// Reads one resource record at `pos`. The RDLENGTH read ten bytes past the
/// name's end fixes the record's exact end; unknown type or class, or RDATA
/// that does not fit its type, skips to it.
fn next_rr(src: &Vec<u8>, pos: usize) -> (r: Result<(Option<DnsResourceRecord>, usize), CodecError>)
    ensures
        ({
            let s = spec_parse_rr(src@, pos as int);
            match s {
                Ok(p) => r is Ok && rr_opt_matches(r->Ok_0.0, p.0) && r->Ok_0.1 == p.1,
                Err(e) => r is Err && r->Err_0 == e,
            }
        }),
{
    match next_name(src, pos, MAX_POINTER_HOPS) {
        Err(e) => Err(e),
        Ok(nm) => {
            let name = nm.0;
            let ne = nm.1;
            proof {
                lemma_parse_name_bounds(src@, pos as int, MAX_POINTER_HOPS as int);
            }
            if src.len() - ne < 10 {
                return Err(CodecError::UnexpectedEnd);
            }
            let rdlen = (src[ne + 8] as usize) * 256 + (src[ne + 9] as usize);
            if rdlen > src.len() - ne - 10 {
                return Err(CodecError::UnexpectedEnd);
            }
            let fin = ne + 10 + rdlen;
            let t = (src[ne] as u16) * 256 + (src[ne + 1] as u16);
            let c = (src[ne + 2] as u16) * 256 + (src[ne + 3] as u16);
            let ttl = read_u32(src, ne + 4);
            match (DnsType::try_from(t), DnsClass::try_from(c)) {
                (Some(rtype), Some(rclass)) => {
                    match next_rdata(src, ne + 10, fin, rclass, rtype) {
                        Some(data) => Ok(
                            (Some(DnsResourceRecord { name, rtype, rclass, ttl, data }), fin),
                        ),
                        None => Ok((None, fin)),
                    }
                },
                _ => Ok((None, fin)),
            }
        },
    }
}

/// Prefixes a question-section parse outcome with already-parsed questions.
pub open spec fn prepend_questions(
    pre: Seq<SpecQuestion>,
    r: Result<(Seq<SpecQuestion>, int), CodecError>,
) -> Result<(Seq<SpecQuestion>, int), CodecError> {
    match r {
        Ok(p) => Ok((pre + p.0, p.1)),
        Err(e) => Err(e),
    }
}

/// Prefixes a record-section parse outcome with already-parsed records.
pub open spec fn prepend_rrs(
    pre: Seq<SpecResourceRecord>,
    r: Result<(Seq<SpecResourceRecord>, int), CodecError>,
) -> Result<(Seq<SpecResourceRecord>, int), CodecError> {
    match r {
        Ok(p) => Ok((pre + p.0, p.1)),
        Err(e) => Err(e),
    }
}

/// Reads `count` questions, dropping the skipped ones.
#[verifier::rlimit(60)]
fn next_questions(src: &Vec<u8>, pos: usize, count: u16) -> (r: Result<
    (Vec<DnsQuestion>, usize),
    CodecError,
>)
    requires
        pos <= src@.len(),
    ensures
        ({
            let s = spec_parse_questions(src@, pos as int, count as int);
            match s {
                Ok(p) => r is Ok && r->Ok_0.0.deep_view() == p.0 && r->Ok_0.1 == p.1,
                Err(e) => r is Err && r->Err_0 == e,
            }
        }),
{
    let ghost orig = spec_parse_questions(src@, pos as int, count as int);
    let mut acc: Vec<DnsQuestion> = Vec::new();
    let mut cur: usize = pos;
    let mut remaining: u16 = count;
    proof {
        assert(acc.deep_view() =~= Seq::<SpecQuestion>::empty());
        match orig {
            Ok(p) => {
                assert(Seq::<SpecQuestion>::empty() + p.0 =~= p.0);
            },
            Err(_) => {},
        }
    }
    while remaining > 0
        invariant
            cur <= src@.len(),
            orig == spec_parse_questions(src@, pos as int, count as int),
            orig == prepend_questions(
                acc.deep_view(),
                spec_parse_questions(src@, cur as int, remaining as int),
            ),
        decreases remaining,
    {
        let ghost here = spec_parse_questions(src@, cur as int, remaining as int);
        let ghost q_spec = spec_parse_question(src@, cur as int);
        match next_question(src, cur) {
            Err(e) => {
                return Err(e);
            },
            Ok(qn) => {
                proof {
                    lemma_parse_question_bounds(src@, cur as int);
                }
                let ghost acc_before = acc.deep_view();
                let qo = qn.0;
                match qo {
                    Some(q) => {
                        let ghost qv = q@;
                        acc.push(q);
                        proof {
                            assert(acc.deep_view() =~= acc_before + seq![qv]);
                        }
                    },
                    None => {},
                }
                cur = qn.1;
                remaining = remaining - 1;
                proof {
                    let next_res = spec_parse_questions(src@, cur as int, remaining as int);
                    match next_res {
                        Ok(p) => {
                            match q_spec {
                                Ok(qp) => {
                                    match qp.0 {
                                        Some(sq) => {
                                            assert(here == Ok::<
                                                (Seq<SpecQuestion>, int),
                                                CodecError,
                                            >((seq![sq] + p.0, p.1)));
                                            assert((acc_before + seq![sq]) + p.0 =~= acc_before
                                                + (seq![sq] + p.0));
                                        },
                                        None => {},
                                    }
                                },
                                Err(_) => {},
                            }
                        },
                        Err(_) => {},
                    }
                }
            },
        }
    }
    proof {
        assert(acc.deep_view() + Seq::<SpecQuestion>::empty() =~= acc.deep_view());
    }
    Ok((acc, cur))
}

/// Reads `count` resource records, dropping the skipped ones.
#[verifier::rlimit(60)]
fn next_rrs(src: &Vec<u8>, pos: usize, count: u16) -> (r: Result<
    (Vec<DnsResourceRecord>, usize),
    CodecError,
>)
    requires
        pos <= src@.len(),
    ensures
        ({
            let s = spec_parse_rrs(src@, pos as int, count as int);
            match s {
                Ok(p) => r is Ok && r->Ok_0.0.deep_view() == p.0 && r->Ok_0.1 == p.1,
                Err(e) => r is Err && r->Err_0 == e,
            }
        }),
{
    let ghost orig = spec_parse_rrs(src@, pos as int, count as int);
    let mut acc: Vec<DnsResourceRecord> = Vec::new();
    let mut cur: usize = pos;
    let mut remaining: u16 = count;
    proof {
        assert(acc.deep_view() =~= Seq::<SpecResourceRecord>::empty());
        match orig {
            Ok(p) => {
                assert(Seq::<SpecResourceRecord>::empty() + p.0 =~= p.0);
            },
            Err(_) => {},
        }
    }
    while remaining > 0
        invariant
            cur <= src@.len(),
            orig == spec_parse_rrs(src@, pos as int, count as int),
            orig == prepend_rrs(
                acc.deep_view(),
                spec_parse_rrs(src@, cur as int, remaining as int),
            ),
        decreases remaining,
    {
        let ghost here = spec_parse_rrs(src@, cur as int, remaining as int);
        let ghost rr_spec = spec_parse_rr(src@, cur as int);
        match next_rr(src, cur) {
            Err(e) => {
                return Err(e);
            },
            Ok(rn) => {
                proof {
                    lemma_parse_rr_bounds(src@, cur as int);
                }
                let ghost acc_before = acc.deep_view();
                let ro = rn.0;
                match ro {
                    Some(rr) => {
                        let ghost rv = rr@;
                        acc.push(rr);
                        proof {
                            assert(acc.deep_view() =~= acc_before + seq![rv]);
                        }
                    },
                    None => {},
                }
                cur = rn.1;
                remaining = remaining - 1;
                proof {
                    let next_res = spec_parse_rrs(src@, cur as int, remaining as int);
                    match next_res {
                        Ok(p) => {
                            match rr_spec {
                                Ok(rp) => {
                                    match rp.0 {
                                        Some(sr) => {
                                            assert(here == Ok::<
                                                (Seq<SpecResourceRecord>, int),
                                                CodecError,
                                            >((seq![sr] + p.0, p.1)));
                                            assert((acc_before + seq![sr]) + p.0 =~= acc_before
                                                + (seq![sr] + p.0));
                                        },
                                        None => {},
                                    }
                                },
                                Err(_) => {},
                            }
                        },
                        Err(_) => {},
                    }
                }
            },
        }
    }
    proof {
        assert(acc.deep_view() + Seq::<SpecResourceRecord>::empty() =~= acc.deep_view());
    }
    Ok((acc, cur))
}

/// Reads the 12-byte header; the reserved Z bits are read and discarded.
fn next_header(src: &Vec<u8>) -> (r: Result<(DnsHeader, u16, u16, u16, u16), CodecError>)
    ensures
        ({
            let s = spec_parse_header(src@);
            match s {
                Ok(p) => r is Ok && r->Ok_0.0 == p.0 && r->Ok_0.1 == p.1 && r->Ok_0.2 == p.2
                    && r->Ok_0.3 == p.3 && r->Ok_0.4 == p.4,
                Err(e) => r is Err && r->Err_0 == e,
            }
        }),
{
    if src.len() < 12 {
        return Err(CodecError::UnexpectedEnd);
    }
    let id = (src[0] as u16) * 256 + (src[1] as u16);
    let flags1 = src[2];
    let flags2 = src[3];
    let opcode_val = (flags1 / 8) % 16;
    let rcode_val = flags2 % 16;
    let opcode = match DnsOpcode::try_from(opcode_val) {
        Some(o) => o,
        None => {
            return Err(CodecError::UnknownOpcode(opcode_val));
        },
    };
    let rcode = match DnsRcode::try_from(rcode_val) {
        Some(rc) => rc,
        None => {
            return Err(CodecError::UnknownRcode(rcode_val));
        },
    };
    let header = DnsHeader {
        id,
        query: (flags1 / 128) % 2 == 0,
        opcode,
        authoritative: (flags1 / 4) % 2 == 1,
        truncated: (flags1 / 2) % 2 == 1,
        recur_desired: flags1 % 2 == 1,
        recur_available: (flags2 / 128) % 2 == 1,
        rcode,
    };
    let qd = (src[4] as u16) * 256 + (src[5] as u16);
    let an = (src[6] as u16) * 256 + (src[7] as u16);
    let ns = (src[8] as u16) * 256 + (src[9] as u16);
    let ar = (src[10] as u16) * 256 + (src[11] as u16);
    Ok((header, qd, an, ns, ar))
}

/// Reads a whole message from the start of the buffer, returning it and the
/// position just past its last record.
fn parse_message(src: &Vec<u8>) -> (r: Result<(DnsMessage, usize), CodecError>)
    ensures
        ({
            let s = spec_parse_msg(src@);
            match s {
                Ok(p) => r is Ok && r->Ok_0.0@ == p.0 && r->Ok_0.1 == p.1,
                Err(e) => r is Err && r->Err_0 == e,
            }
        }),
{
    let h = match next_header(src) {
        Err(e) => {
            return Err(e);
        },
        Ok(h) => h,
    };
    let header = h.0;
    let question = match next_questions(src, 12, h.1) {
        Err(e) => {
            return Err(e);
        },
        Ok(p) => p,
    };
    proof {
        lemma_parse_questions_bounds(src@, 12, h.1 as int);
    }
    let answer = match next_rrs(src, question.1, h.2) {
        Err(e) => {
            return Err(e);
        },
        Ok(p) => p,
    };
    proof {
        lemma_parse_rrs_bounds(src@, question.1 as int, h.2 as int);
    }
    let authority = match next_rrs(src, answer.1, h.3) {
        Err(e) => {
            return Err(e);
        },
        Ok(p) => p,
    };
    proof {
        lemma_parse_rrs_bounds(src@, answer.1 as int, h.3 as int);
    }
    let additional = match next_rrs(src, authority.1, h.4) {
        Err(e) => {
            return Err(e);
        },
        Ok(p) => p,
    };
    let msg = DnsMessage {
        header,
        question: question.0,
        answer: answer.0,
        authority: authority.0,
        additional: additional.0,
    };
    Ok((msg, additional.1))
}

/// Removes the first `n` bytes of the buffer, keeping the rest in order.
fn consume_front(src: &mut Vec<u8>, n: usize)
    requires
        n <= old(src)@.len(),
    ensures
        final(src)@ == old(src)@.skip(n as int),
{
    let len = src.len();
    let mut rest: Vec<u8> = Vec::new();
    let mut i: usize = n;
    while i < len
        invariant
            n <= i <= len,
            len == src@.len(),
            src@ == old(src)@,
            rest@ == src@.subrange(n as int, i as int),
        decreases len - i,
    {
        rest.push(src[i]);
        assert(rest@ =~= src@.subrange(n as int, i + 1));
        i = i + 1;
    }
    proof {
        assert(rest@ =~= old(src)@.skip(n as int));
    }
    *src = rest;
}

/// The labels of a successful name parse (empty on failure).
pub open spec fn spec_label_seq_of(r: Result<(Seq<Seq<char>>, int), CodecError>) -> Seq<Seq<char>> {
    match r {
        Ok(p) => p.0,
        Err(_) => Seq::<Seq<char>>::empty(),
    }
}

} // verus!

//! Round-trip laws of the wire codec: a well-formed message written by the
//! encoder is read back exactly by the parser, in both datagram and stream
//! framing.
use vstd::prelude::*;
use vstd::utf8::encode_utf8;
use vstd::utf8::{encode_utf8_valid_utf8, encode_utf8_decode_utf8};

use crate::message::{DnsHeader, DnsOpcode, DnsRcode, DnsType, DnsClass};
use crate::message::{SpecMessage, SpecQuestion, SpecResourceRecord, SpecRRData};
use crate::wire::{CodecError, MAX_POINTER_HOPS, u16_wire, be16, u32_wire, be32};
use crate::wire::{label_wf, name_wire, name_wf, label_chars};
use crate::wire::{question_wire, question_wf, txt_wire, txt_strings_wf, rdata_wire, data_type, rdata_wf};
use crate::wire::{rr_wire, rr_wf, flags1_byte, flags2_byte, header_wire};
use crate::wire::{questions_wire, rrs_wire, msg_wire, msg_wf, with_tc, dgram_wire, stream_wire};
use crate::wire::{spec_parse_name, spec_parse_question, spec_parse_questions, spec_parse_txt};
use crate::wire::{spec_parse_rdata, spec_parse_rr, spec_parse_rrs, spec_parse_header, spec_parse_msg};
use crate::wire::lemma_msg_wire_with_tc;

verus! {

/// Reading back the two bytes of a 16-bit value gives the value.
pub proof fn lemma_be16_roundtrip(x: u16)
    ensures
        be16(u16_wire(x)[0], u16_wire(x)[1]) == x,
{
    assert(x as int == 256 * (x as int / 256) + x as int % 256) by (nonlinear_arith);
}

/// Reading back the four bytes of a 32-bit value gives the value.
pub proof fn lemma_be32_roundtrip(x: u32)
    ensures
        be32(u32_wire(x)[0], u32_wire(x)[1], u32_wire(x)[2], u32_wire(x)[3]) == x,
{
    let n = x as int;
    assert(n == 0x1000000 * (n / 0x1000000) + 0x10000 * ((n / 0x10000) % 256) + 256 * ((n / 256)
        % 256) + n % 256) by (nonlinear_arith)
        requires
            0 <= n < 0x100000000,
    ;
}

/// Each type's wire value decodes back to the type.
pub proof fn lemma_type_code(t: DnsType)
    ensures
        DnsType::try_from_spec(t.code_spec()) == Some(t),
{
}

/// Each class's wire value decodes back to the class.
pub proof fn lemma_class_code(c: DnsClass)
    ensures
        DnsClass::try_from_spec(c.code_spec()) == Some(c),
{
}

/// Each opcode's wire value decodes back to the opcode.
pub proof fn lemma_opcode_code(o: DnsOpcode)
    ensures
        DnsOpcode::try_from_spec(o.code_spec()) == Some(o),
{
}

/// Each response code's wire value decodes back to the response code.
pub proof fn lemma_rcode_code(c: DnsRcode)
    ensures
        DnsRcode::try_from_spec(c.code_spec()) == Some(c),
{
}

/// The flag bits packed into the two flag bytes unpack to the same fields.
pub proof fn lemma_flags_roundtrip(h: DnsHeader)
    ensures
        (flags1_byte(h) as int / 128) % 2 == (if h.query { 0int } else { 1int }),
        ((flags1_byte(h) as int / 8) % 16) as u8 == h.opcode.code_spec(),
        (flags1_byte(h) as int / 4) % 2 == (if h.authoritative { 1int } else { 0int }),
        (flags1_byte(h) as int / 2) % 2 == (if h.truncated { 1int } else { 0int }),
        flags1_byte(h) as int % 2 == (if h.recur_desired { 1int } else { 0int }),
        (flags2_byte(h) as int / 128) % 2 == (if h.recur_available { 1int } else { 0int }),
        (flags2_byte(h) as int % 16) as u8 == h.rcode.code_spec(),
{
    let q: int = if h.query { 0 } else { 1 };
    let op = h.opcode.code_spec() as int;
    let a: int = if h.authoritative { 1 } else { 0 };
    let t: int = if h.truncated { 1 } else { 0 };
    let rd: int = if h.recur_desired { 1 } else { 0 };
    let ra: int = if h.recur_available { 1 } else { 0 };
    let rc = h.rcode.code_spec() as int;
    assert(op <= 2);
    assert(rc <= 5);
    let f1 = q * 128 + op * 8 + a * 4 + t * 2 + rd;
    let f2 = ra * 128 + rc;
    assert(flags1_byte(h) as int == f1);
    assert(flags2_byte(h) as int == f2);
    assert((f1 / 128) % 2 == q && (f1 / 8) % 16 == op && (f1 / 4) % 2 == a && (f1 / 2) % 2 == t
        && f1 % 2 == rd) by (nonlinear_arith)
        requires
            0 <= q <= 1 && 0 <= op <= 2 && 0 <= a <= 1 && 0 <= t <= 1 && 0 <= rd <= 1 && f1 == q
                * 128 + op * 8 + a * 4 + t * 2 + rd,
    ;
    assert((f2 / 128) % 2 == ra && f2 % 16 == rc) by (nonlinear_arith)
        requires
            0 <= ra <= 1 && 0 <= rc <= 5 && f2 == ra * 128 + rc,
    ;
}

/// A name written without compression at `pos` parses back to its labels,
/// ending exactly at the name's last byte.
pub proof fn lemma_name_roundtrip(b: Seq<u8>, pos: int, n: Seq<Seq<char>>, hops: int)
    requires
        name_wf(n),
        hops >= 0,
        0 <= pos,
        pos + name_wire(n).len() <= b.len(),
        b.subrange(pos, pos + name_wire(n).len()) == name_wire(n),
    ensures
        spec_parse_name(b, pos, hops) == Ok::<(Seq<Seq<char>>, int), CodecError>(
            (n, pos + name_wire(n).len()),
        ),
    decreases n.len(),
{
    let w = name_wire(n);
    if n.len() == 0 {
        assert(b[pos] == w[0]);
        assert(b[pos] == 0);
        assert(n =~= Seq::<Seq<char>>::empty());
        assert(spec_parse_name(b, pos, hops) == Ok::<(Seq<Seq<char>>, int), CodecError>(
            (Seq::<Seq<char>>::empty(), pos + 1),
        ));
    } else {
        let l0 = n[0];
        let lb = encode_utf8(l0);
        let ln = lb.len() as int;
        assert(label_wf(l0));
        let rest = n.drop_first();
        assert(name_wf(rest)) by {
            assert(forall|i: int| 0 <= i < rest.len() ==> rest[i] == n[i + 1]);
        }
        assert(w == (seq![ln as u8] + lb) + name_wire(rest));
        assert(w.len() == 1 + ln + name_wire(rest).len());
        assert(b[pos] == w[0]);
        assert(w[0] == ln as u8);
        assert(1 <= ln <= 63);
        assert(b[pos] as int == ln);
        assert(pos + 1 + ln <= b.len());
        assert(b.subrange(pos + 1, pos + 1 + ln) =~= lb) by {
            assert(forall|i: int| 0 <= i < ln ==> b[pos + 1 + i] == w[1 + i] && w[1 + i] == lb[i]);
        }
        assert(label_chars(lb) == l0) by {
            encode_utf8_valid_utf8(l0);
            encode_utf8_decode_utf8(l0);
        }
        let pos2 = pos + 1 + ln;
        assert(b.subrange(pos2, pos2 + name_wire(rest).len()) =~= name_wire(rest)) by {
            assert(forall|i: int|
                0 <= i < name_wire(rest).len() ==> b[pos2 + i] == w[1 + ln + i] && w[1 + ln + i]
                    == name_wire(rest)[i]);
        }
        lemma_name_roundtrip(b, pos2, rest, hops);
        assert(spec_parse_name(b, pos2, hops) == Ok::<(Seq<Seq<char>>, int), CodecError>(
            (rest, pos2 + name_wire(rest).len()),
        ));
        assert(spec_parse_name(b, pos, hops) == Ok::<(Seq<Seq<char>>, int), CodecError>(
            (seq![label_chars(b.subrange(pos + 1, pos + 1 + ln))] + rest, pos2 + name_wire(
                rest,
            ).len()),
        ));
        assert(seq![label_chars(b.subrange(pos + 1, pos + 1 + ln))] + rest =~= n);
        assert(pos2 + name_wire(rest).len() == pos + w.len());
    }
}

/// TXT character strings written length-prefixed parse back to the same
/// strings, filling their RDATA exactly.
pub proof fn lemma_txt_roundtrip(b: Seq<u8>, pos: int, txt: Seq<Seq<char>>)
    requires
        txt_strings_wf(txt),
        0 <= pos,
        pos + txt_wire(txt).len() <= b.len(),
        b.subrange(pos, pos + txt_wire(txt).len()) == txt_wire(txt),
    ensures
        spec_parse_txt(b, pos, pos + txt_wire(txt).len()) == Some(txt),
    decreases txt.len(),
{
    let w = txt_wire(txt);
    if txt.len() == 0 {
    } else {
        let s0 = txt[0];
        let sb = encode_utf8(s0);
        let ln = sb.len() as int;
        assert(0 <= ln <= 255);
        let rest = txt.drop_first();
        assert(txt_strings_wf(rest)) by {
            assert(forall|i: int| 0 <= i < rest.len() ==> rest[i] == txt[i + 1]);
        }
        assert(w == (seq![ln as u8] + sb) + txt_wire(rest));
        assert(w.len() == 1 + ln + txt_wire(rest).len());
        let fin = pos + w.len();
        assert(b[pos] == w[0]);
        assert(b[pos] as int == ln);
        assert(pos + 1 + ln <= fin);
        assert(b.subrange(pos + 1, pos + 1 + ln) =~= sb) by {
            assert(forall|i: int| 0 <= i < ln ==> b[pos + 1 + i] == w[1 + i] && w[1 + i] == sb[i]);
        }
        assert(label_chars(sb) == s0) by {
            encode_utf8_valid_utf8(s0);
            encode_utf8_decode_utf8(s0);
        }
        let pos2 = pos + 1 + ln;
        assert(b.subrange(pos2, pos2 + txt_wire(rest).len()) =~= txt_wire(rest)) by {
            assert(forall|i: int|
                0 <= i < txt_wire(rest).len() ==> b[pos2 + i] == w[1 + ln + i] && w[1 + ln + i]
                    == txt_wire(rest)[i]);
        }
        lemma_txt_roundtrip(b, pos2, rest);
        assert(pos2 + txt_wire(rest).len() == fin);
        assert(seq![label_chars(b.subrange(pos + 1, pos + 1 + ln))] + rest =~= txt);
    }
}

/// RDATA written for a record of its own type parses back to the same data.
#[verifier::rlimit(100)]
pub proof fn lemma_rdata_roundtrip(b: Seq<u8>, pos: int, d: SpecRRData)
    requires
        rdata_wf(d),
        0 <= pos,
        pos + rdata_wire(d).len() <= b.len(),
        b.subrange(pos, pos + rdata_wire(d).len()) == rdata_wire(d),
    ensures
        spec_parse_rdata(b, pos, pos + rdata_wire(d).len(), DnsClass::Internet, data_type(d))
            == Some(d),
{
    let w = rdata_wire(d);
    let fin = pos + w.len();
    assert(forall|i: int| 0 <= i < w.len() ==> b[pos + i] == w[i]) by {
        assert(forall|i: int| 0 <= i < w.len() ==> b[pos + i] == b.subrange(pos, fin)[i]);
    }
    match d {
        SpecRRData::A(a) => {
            assert(b[pos + 0] == w[0] && b[pos + 1] == w[1] && b[pos + 2] == w[2] && b[pos + 3]
                == w[3]);
            assert(b[pos] == a.o0 && b[pos + 1] == a.o1 && b[pos + 2] == a.o2 && b[pos + 3]
                == a.o3);
        },
        SpecRRData::AAAA(a) => {
            let e = seq![
                (a.s0 / 256) as u8,
                (a.s0 % 256) as u8,
                (a.s1 / 256) as u8,
                (a.s1 % 256) as u8,
                (a.s2 / 256) as u8,
                (a.s2 % 256) as u8,
                (a.s3 / 256) as u8,
                (a.s3 % 256) as u8,
                (a.s4 / 256) as u8,
                (a.s4 % 256) as u8,
                (a.s5 / 256) as u8,
                (a.s5 % 256) as u8,
                (a.s6 / 256) as u8,
                (a.s6 % 256) as u8,
                (a.s7 / 256) as u8,
                (a.s7 % 256) as u8,
            ];
            assert(w =~= e);
            lemma_be16_roundtrip(a.s0);
            lemma_be16_roundtrip(a.s1);
            lemma_be16_roundtrip(a.s2);
            lemma_be16_roundtrip(a.s3);
            lemma_be16_roundtrip(a.s4);
            lemma_be16_roundtrip(a.s5);
            lemma_be16_roundtrip(a.s6);
            lemma_be16_roundtrip(a.s7);
        },
        SpecRRData::MX(pref, name) => {
            assert(w == u16_wire(pref) + name_wire(name));
            assert(b[pos + 0] == w[0] && b[pos + 1] == w[1]);
            assert(b[pos] == u16_wire(pref)[0] && b[pos + 1] == u16_wire(pref)[1]);
            lemma_be16_roundtrip(pref);
            assert(b.subrange(pos + 2, pos + 2 + name_wire(name).len()) =~= name_wire(name)) by {
                assert(forall|i: int|
                    0 <= i < name_wire(name).len() ==> b[pos + 2 + i] == w[2 + i] && w[2 + i]
                        == name_wire(name)[i]);
            }
            lemma_name_roundtrip(b, pos + 2, name, MAX_POINTER_HOPS as int);
        },
        SpecRRData::CNAME(name) => {
            lemma_name_roundtrip(b, pos, name, MAX_POINTER_HOPS as int);
        },
        SpecRRData::TXT(txt) => {
            lemma_txt_roundtrip(b, pos, txt);
        },
        SpecRRData::SOA(mname, rname, serial, refresh, retry, expire, minimum) => {
            let nm = name_wire(mname);
            let nr = name_wire(rname);
            let tail = u32_wire(serial) + u32_wire(refresh) + u32_wire(retry) + u32_wire(expire)
                + u32_wire(minimum);
            assert(w == nm + nr + tail);
            assert(b.subrange(pos, pos + nm.len() as int) =~= nm) by {
                assert(forall|i: int| 0 <= i < nm.len() ==> b[pos + i] == w[i] && w[i] == nm[i]);
            }
            lemma_name_roundtrip(b, pos, mname, MAX_POINTER_HOPS as int);
            let p2 = pos + nm.len() as int;
            assert(b.subrange(p2, p2 + nr.len() as int) =~= nr) by {
                assert(forall|i: int|
                    0 <= i < nr.len() ==> b[p2 + i] == w[nm.len() + i] && w[nm.len() + i]
                        == nr[i]);
            }
            lemma_name_roundtrip(b, p2, rname, MAX_POINTER_HOPS as int);
            let p3 = p2 + nr.len() as int;
            assert(forall|i: int|
                0 <= i < 20 ==> b[p3 + i] == w[nm.len() + nr.len() + i] && w[nm.len() + nr.len()
                    + i] == tail[i]);
            let e = seq![
                (serial / 0x1000000) as u8,
                ((serial / 0x10000) % 256) as u8,
                ((serial / 256) % 256) as u8,
                (serial % 256) as u8,
                (refresh / 0x1000000) as u8,
                ((refresh / 0x10000) % 256) as u8,
                ((refresh / 256) % 256) as u8,
                (refresh % 256) as u8,
                (retry / 0x1000000) as u8,
                ((retry / 0x10000) % 256) as u8,
                ((retry / 256) % 256) as u8,
                (retry % 256) as u8,
                (expire / 0x1000000) as u8,
                ((expire / 0x10000) % 256) as u8,
                ((expire / 256) % 256) as u8,
                (expire % 256) as u8,
                (minimum / 0x1000000) as u8,
                ((minimum / 0x10000) % 256) as u8,
                ((minimum / 256) % 256) as u8,
                (minimum % 256) as u8,
            ];
            assert(tail =~= e);
            lemma_be32_roundtrip(serial);
            lemma_be32_roundtrip(refresh);
            lemma_be32_roundtrip(retry);
            lemma_be32_roundtrip(expire);
            lemma_be32_roundtrip(minimum);
            assert(p3 + 20 <= b.len());
        },
        SpecRRData::NS(name) => {
            lemma_name_roundtrip(b, pos, name, MAX_POINTER_HOPS as int);
        },
    }
}

/// A record written at `pos` parses back to the same record, ending exactly
/// at the record's last byte.
#[verifier::rlimit(100)]
pub proof fn lemma_rr_roundtrip(b: Seq<u8>, pos: int, r: SpecResourceRecord)
    requires
        rr_wf(r),
        0 <= pos,
        pos + rr_wire(r).len() <= b.len(),
        b.subrange(pos, pos + rr_wire(r).len()) == rr_wire(r),
    ensures
        spec_parse_rr(b, pos) == Ok::<(Option<SpecResourceRecord>, int), CodecError>(
            (Some(r), pos + rr_wire(r).len()),
        ),
{
    let w = rr_wire(r);
    let nm = name_wire(r.name);
    let rd = rdata_wire(r.data);
    let mid = u16_wire(r.rtype.code_spec()) + u16_wire(r.rclass.code_spec()) + u32_wire(r.ttl)
        + u16_wire(rd.len() as u16);
    assert(w == nm + mid + rd);
    assert(mid.len() == 10);
    assert(forall|i: int| 0 <= i < w.len() ==> b[pos + i] == w[i]) by {
        assert(forall|i: int|
            0 <= i < w.len() ==> b[pos + i] == #[trigger] b.subrange(pos, pos + w.len() as int)[i]);
    }
    assert(b.subrange(pos, pos + nm.len() as int) =~= nm) by {
        assert(forall|i: int| 0 <= i < nm.len() ==> b[pos + i] == w[i] && w[i] == nm[i]);
    }
    lemma_name_roundtrip(b, pos, r.name, MAX_POINTER_HOPS as int);
    let ne = pos + nm.len() as int;
    assert(forall|i: int| 0 <= i < 10 ==> b[ne + i] == mid[i]) by {
        assert(forall|i: int| 0 <= i < 10 ==> b[ne + i] == w[nm.len() + i] && w[nm.len() + i]
            == mid[i]);
    }
    assert(mid[0] == u16_wire(r.rtype.code_spec())[0] && mid[1] == u16_wire(r.rtype.code_spec())[1]);
    assert(mid[2] == u16_wire(r.rclass.code_spec())[0] && mid[3] == u16_wire(
        r.rclass.code_spec(),
    )[1]);
    assert(mid[4] == u32_wire(r.ttl)[0] && mid[5] == u32_wire(r.ttl)[1] && mid[6] == u32_wire(
        r.ttl,
    )[2] && mid[7] == u32_wire(r.ttl)[3]);
    assert(mid[8] == u16_wire(rd.len() as u16)[0] && mid[9] == u16_wire(rd.len() as u16)[1]);
    lemma_be16_roundtrip(r.rtype.code_spec());
    lemma_be16_roundtrip(r.rclass.code_spec());
    lemma_be32_roundtrip(r.ttl);
    lemma_be16_roundtrip(rd.len() as u16);
    lemma_type_code(r.rtype);
    lemma_class_code(r.rclass);
    assert(be16(b[ne + 8], b[ne + 9]) as int == rd.len());
    let fin = ne + 10 + rd.len() as int;
    assert(fin == pos + w.len());
    assert(fin <= b.len());
    assert(b.subrange(ne + 10, fin) =~= rd) by {
        assert(forall|i: int|
            0 <= i < rd.len() ==> b[ne + 10 + i] == w[nm.len() + 10 + i] && w[nm.len() + 10 + i]
                == rd[i]);
    }
    lemma_rdata_roundtrip(b, ne + 10, r.data);
    assert(be32(b[ne + 4], b[ne + 5], b[ne + 6], b[ne + 7]) == r.ttl);
    let parsed = SpecResourceRecord {
        name: r.name,
        rtype: r.rtype,
        rclass: r.rclass,
        ttl: r.ttl,
        data: r.data,
    };
    assert(parsed == r);
}

/// A question written at `pos` parses back to the same question.
pub proof fn lemma_question_roundtrip(b: Seq<u8>, pos: int, q: SpecQuestion)
    requires
        question_wf(q),
        0 <= pos,
        pos + question_wire(q).len() <= b.len(),
        b.subrange(pos, pos + question_wire(q).len()) == question_wire(q),
    ensures
        spec_parse_question(b, pos) == Ok::<(Option<SpecQuestion>, int), CodecError>(
            (Some(q), pos + question_wire(q).len()),
        ),
{
    let w = question_wire(q);
    let nm = name_wire(q.qname);
    assert(w == nm + u16_wire(q.qtype.code_spec()) + u16_wire(q.qclass.code_spec()));
    assert(forall|i: int| 0 <= i < w.len() ==> b[pos + i] == w[i]) by {
        assert(forall|i: int|
            0 <= i < w.len() ==> b[pos + i] == #[trigger] b.subrange(pos, pos + w.len() as int)[i]);
    }
    assert(b.subrange(pos, pos + nm.len() as int) =~= nm) by {
        assert(forall|i: int| 0 <= i < nm.len() ==> b[pos + i] == w[i] && w[i] == nm[i]);
    }
    lemma_name_roundtrip(b, pos, q.qname, MAX_POINTER_HOPS as int);
    let ne = pos + nm.len() as int;
    assert(forall|i: int| 0 <= i < 4 ==> #[trigger] b[ne + i] == w[nm.len() as int + i]);
    assert(w[nm.len() as int + 0] == u16_wire(q.qtype.code_spec())[0]);
    assert(w[nm.len() as int + 1] == u16_wire(q.qtype.code_spec())[1]);
    assert(w[nm.len() as int + 2] == u16_wire(q.qclass.code_spec())[0]);
    assert(w[nm.len() as int + 3] == u16_wire(q.qclass.code_spec())[1]);
    lemma_be16_roundtrip(q.qtype.code_spec());
    lemma_be16_roundtrip(q.qclass.code_spec());
    lemma_type_code(q.qtype);
    lemma_class_code(q.qclass);
    let parsed = SpecQuestion { qname: q.qname, qtype: q.qtype, qclass: q.qclass };
    assert(parsed == q);
}

/// A question section written at `pos` parses back to the same questions.
pub proof fn lemma_questions_roundtrip(b: Seq<u8>, pos: int, qs: Seq<SpecQuestion>)
    requires
        forall|i: int| 0 <= i < qs.len() ==> question_wf(#[trigger] qs[i]),
        0 <= pos,
        pos + questions_wire(qs).len() <= b.len(),
        b.subrange(pos, pos + questions_wire(qs).len()) == questions_wire(qs),
    ensures
        spec_parse_questions(b, pos, qs.len() as int) == Ok::<(Seq<SpecQuestion>, int), CodecError>(
            (qs, pos + questions_wire(qs).len()),
        ),
    decreases qs.len(),
{
    let w = questions_wire(qs);
    if qs.len() == 0 {
        assert(qs =~= Seq::<SpecQuestion>::empty());
    } else {
        let q0 = qs[0];
        let rest = qs.drop_first();
        let qw = question_wire(q0);
        assert(w == qw + questions_wire(rest));
        assert(forall|i: int| 0 <= i < w.len() ==> b[pos + i] == w[i]) by {
            assert(forall|i: int|
                0 <= i < w.len() ==> b[pos + i] == #[trigger] b.subrange(
                    pos,
                    pos + w.len() as int,
                )[i]);
        }
        assert(b.subrange(pos, pos + qw.len() as int) =~= qw) by {
            assert(forall|i: int| 0 <= i < qw.len() ==> b[pos + i] == w[i] && w[i] == qw[i]);
        }
        lemma_question_roundtrip(b, pos, q0);
        let p2 = pos + qw.len() as int;
        assert(forall|i: int| 0 <= i < rest.len() ==> rest[i] == qs[i + 1]);
        assert(b.subrange(p2, p2 + questions_wire(rest).len() as int) =~= questions_wire(rest))
            by {
            assert(forall|i: int|
                0 <= i < questions_wire(rest).len() ==> b[p2 + i] == w[qw.len() + i] && w[qw.len()
                    + i] == questions_wire(rest)[i]);
        }
        lemma_questions_roundtrip(b, p2, rest);
        assert(seq![q0] + rest =~= qs);
    }
}

/// A record section written at `pos` parses back to the same records.
#[verifier::spinoff_prover]
#[verifier::rlimit(100)]
pub proof fn lemma_rrs_roundtrip(b: Seq<u8>, pos: int, rs: Seq<SpecResourceRecord>)
    requires
        forall|i: int| 0 <= i < rs.len() ==> rr_wf(#[trigger] rs[i]),
        0 <= pos,
        pos + rrs_wire(rs).len() <= b.len(),
        b.subrange(pos, pos + rrs_wire(rs).len()) == rrs_wire(rs),
    ensures
        spec_parse_rrs(b, pos, rs.len() as int) == Ok::<(Seq<SpecResourceRecord>, int), CodecError>(
            (rs, pos + rrs_wire(rs).len()),
        ),
    decreases rs.len(),
{
    let w = rrs_wire(rs);
    if rs.len() == 0 {
        assert(rs =~= Seq::<SpecResourceRecord>::empty());
    } else {
        let r0 = rs[0];
        let rest = rs.drop_first();
        let rw = rr_wire(r0);
        assert(w == rw + rrs_wire(rest));
        assert(forall|i: int| 0 <= i < w.len() ==> b[pos + i] == w[i]) by {
            assert(forall|i: int|
                0 <= i < w.len() ==> b[pos + i] == #[trigger] b.subrange(
                    pos,
                    pos + w.len() as int,
                )[i]);
        }
        assert(b.subrange(pos, pos + rw.len() as int) =~= rw) by {
            assert(forall|i: int| 0 <= i < rw.len() ==> b[pos + i] == w[i] && w[i] == rw[i]);
        }
        lemma_rr_roundtrip(b, pos, r0);
        let p2 = pos + rw.len() as int;
        assert(forall|i: int| 0 <= i < rest.len() ==> rest[i] == rs[i + 1]);
        assert(b.subrange(p2, p2 + rrs_wire(rest).len() as int) =~= rrs_wire(rest)) by {
            assert(forall|i: int|
                0 <= i < rrs_wire(rest).len() ==> b[p2 + i] == w[rw.len() + i] && w[rw.len() + i]
                    == rrs_wire(rest)[i]);
        }
        lemma_rrs_roundtrip(b, p2, rest);
        assert(seq![r0] + rest =~= rs);
    }
}

/// A header written at the start of `b` parses back to the same header and
/// the written section counts.
#[verifier::rlimit(100)]
pub proof fn lemma_header_roundtrip(b: Seq<u8>, m: SpecMessage)
    requires
        msg_wf(m),
        12 <= b.len(),
        b.subrange(0, 12) == header_wire(m),
    ensures
        spec_parse_header(b) == Ok::<(DnsHeader, int, int, int, int), CodecError>(
            (
                m.header,
                m.question.len() as int,
                m.answer.len() as int,
                m.authority.len() as int,
                m.additional.len() as int,
            ),
        ),
{
    let h = m.header;
    let f1 = flags1_byte(h);
    let f2 = flags2_byte(h);
    let qd = m.question.len() as u16;
    let an = m.answer.len() as u16;
    let ns = m.authority.len() as u16;
    let ar = m.additional.len() as u16;
    let e = seq![
        (h.id / 256) as u8,
        (h.id % 256) as u8,
        f1,
        f2,
        (qd / 256) as u8,
        (qd % 256) as u8,
        (an / 256) as u8,
        (an % 256) as u8,
        (ns / 256) as u8,
        (ns % 256) as u8,
        (ar / 256) as u8,
        (ar % 256) as u8,
    ];
    assert(header_wire(m) =~= e);
    assert forall|i: int| 0 <= i < 12 implies #[trigger] b[i] == e[i] by {
        assert(b.subrange(0, 12)[i] == b[i]);
        assert(header_wire(m)[i] == e[i]);
    }
    lemma_be16_roundtrip(h.id);
    lemma_be16_roundtrip(qd);
    lemma_be16_roundtrip(an);
    lemma_be16_roundtrip(ns);
    lemma_be16_roundtrip(ar);
    lemma_flags_roundtrip(h);
    lemma_opcode_code(h.opcode);
    lemma_rcode_code(h.rcode);
    assert(b[2] == f1 && b[3] == f2);
    let parsed = DnsHeader {
        id: be16(b[0], b[1]),
        query: (f1 as int / 128) % 2 == 0,
        opcode: h.opcode,
        authoritative: (f1 as int / 4) % 2 == 1,
        truncated: (f1 as int / 2) % 2 == 1,
        recur_desired: f1 as int % 2 == 1,
        recur_available: (f2 as int / 128) % 2 == 1,
        rcode: h.rcode,
    };
    assert(parsed == h);
}

/// A whole well-formed message written at the start of `b` parses back
/// exactly, ending just past its last record.
#[verifier::spinoff_prover]
#[verifier::rlimit(100)]
pub proof fn lemma_msg_roundtrip(b: Seq<u8>, m: SpecMessage)
    requires
        msg_wf(m),
        msg_wire(m).len() <= b.len(),
        b.subrange(0, msg_wire(m).len() as int) == msg_wire(m),
    ensures
        spec_parse_msg(b) == Ok::<(SpecMessage, int), CodecError>((m, msg_wire(m).len() as int)),
{
    let w = msg_wire(m);
    let hw = header_wire(m);
    let qw = questions_wire(m.question);
    let aw = rrs_wire(m.answer);
    let uw = rrs_wire(m.authority);
    let dw = rrs_wire(m.additional);
    assert(w == hw + qw + aw + uw + dw);
    assert(hw.len() == 12);
    assert(forall|i: int| 0 <= i < w.len() ==> b[i] == w[i]) by {
        assert(forall|i: int|
            0 <= i < w.len() ==> #[trigger] b.subrange(0, w.len() as int)[i] == b[i]);
    }
    assert(b.subrange(0, 12) =~= hw) by {
        assert(forall|i: int| 0 <= i < 12 ==> b[i] == w[i] && w[i] == hw[i]);
    }
    lemma_header_roundtrip(b, m);
    let p1 = 12 + qw.len() as int;
    assert(b.subrange(12, p1) =~= qw) by {
        assert(forall|i: int| 0 <= i < qw.len() ==> b[12 + i] == w[12 + i] && w[12 + i] == qw[i]);
    }
    lemma_questions_roundtrip(b, 12, m.question);
    let p2 = p1 + aw.len() as int;
    assert(b.subrange(p1, p2) =~= aw) by {
        assert(forall|i: int|
            0 <= i < aw.len() ==> b[p1 + i] == w[12 + qw.len() + i] && w[12 + qw.len() + i]
                == aw[i]);
    }
    lemma_rrs_roundtrip(b, p1, m.answer);
    let p3 = p2 + uw.len() as int;
    assert(b.subrange(p2, p3) =~= uw) by {
        assert(forall|i: int|
            0 <= i < uw.len() ==> b[p2 + i] == w[12 + qw.len() + aw.len() + i] && w[12 + qw.len()
                + aw.len() + i] == uw[i]);
    }
    lemma_rrs_roundtrip(b, p2, m.authority);
    let p4 = p3 + dw.len() as int;
    assert(b.subrange(p3, p4) =~= dw) by {
        assert(forall|i: int|
            0 <= i < dw.len() ==> b[p3 + i] == w[12 + qw.len() + aw.len() + uw.len() + i] && w[12
                + qw.len() + aw.len() + uw.len() + i] == dw[i]);
    }
    lemma_rrs_roundtrip(b, p3, m.additional);
    assert(p4 == w.len());
    let parsed = SpecMessage {
        header: m.header,
        question: m.question,
        answer: m.answer,
        authority: m.authority,
        additional: m.additional,
    };
    assert(parsed == m);
}

/// Law: a well-formed message whose encoding fits in 512 bytes, encoded in
/// datagram mode, is parsed back to exactly the same message, except that
/// the truncated flag reads as false (the encoder rewrites it), and the
/// parse consumes exactly the encoding.
pub proof fn lemma_dgram_roundtrip(m: SpecMessage)
    requires
        msg_wf(m),
        msg_wire(m).len() <= 512,
    ensures
        spec_parse_msg(dgram_wire(m)) == Ok::<(SpecMessage, int), CodecError>(
            (with_tc(m, false), msg_wire(m).len() as int),
        ),
{
    let m2 = with_tc(m, false);
    lemma_msg_wire_with_tc(m, false);
    assert(msg_wf(m2));
    assert(dgram_wire(m) == msg_wire(m2));
    let b = msg_wire(m2);
    assert(b.subrange(0, b.len() as int) =~= b);
    lemma_msg_roundtrip(b, m2);
}

/// Law: stream framing. The stream encoding of a well-formed message,
/// followed by any further bytes, begins with a length prefix that promises
/// exactly the message's bytes; that frame parses back to exactly the
/// message, and consuming the frame leaves exactly the further bytes. A
/// buffer of several back-to-back encodings therefore yields the messages
/// in order, consuming all their bytes.
#[verifier::spinoff_prover]
#[verifier::rlimit(100)]
pub proof fn lemma_stream_roundtrip(m: SpecMessage, rest: Seq<u8>)
    requires
        msg_wf(m),
        msg_wire(m).len() <= 0xffff,
    ensures
        ({
            let b = stream_wire(m) + rest;
            let mlen = msg_wire(m).len() as int;
            &&& b.len() == 2 + mlen + rest.len()
            &&& be16(b[0], b[1]) as int == mlen
            &&& b.subrange(2, 2 + mlen) == msg_wire(m)
            &&& spec_parse_msg(b.subrange(2, 2 + mlen)) == Ok::<(SpecMessage, int), CodecError>(
                (m, mlen),
            )
            &&& b.skip(2 + mlen) == rest
        }),
{
    let b = stream_wire(m) + rest;
    let w = msg_wire(m);
    let mlen = w.len() as int;
    assert(stream_wire(m) == u16_wire(mlen as u16) + w);
    assert(b[0] == u16_wire(mlen as u16)[0] && b[1] == u16_wire(mlen as u16)[1]);
    lemma_be16_roundtrip(mlen as u16);
    assert(b.subrange(2, 2 + mlen) =~= w);
    assert(w.subrange(0, mlen) =~= w);
    lemma_msg_roundtrip(w, m);
    assert(b.skip(2 + mlen) =~= rest);
}

/// Law: an encoding longer than 512 bytes, encoded in datagram mode, is
/// delivered as exactly 512 bytes with the truncation bit of the flags byte
/// set.
pub proof fn lemma_dgram_truncation(m: SpecMessage)
    requires
        msg_wf(m),
        msg_wire(m).len() > 512,
    ensures
        dgram_wire(m).len() == 512,
        dgram_wire(m)[2] == flags1_byte(with_tc(m, true).header),
        (dgram_wire(m)[2] as int / 2) % 2 == 1,
{
    let m2 = with_tc(m, true);
    lemma_msg_wire_with_tc(m, true);
    let w = msg_wire(m2);
    assert(dgram_wire(m) == w.take(512));
    assert(w == header_wire(m2) + (questions_wire(m2.question) + rrs_wire(m2.answer) + rrs_wire(
        m2.authority,
    ) + rrs_wire(m2.additional)));
    let h = m2.header;
    let e = seq![
        (h.id / 256) as u8,
        (h.id % 256) as u8,
        flags1_byte(h),
        flags2_byte(h),
        (m2.question.len() as u16 / 256) as u8,
        (m2.question.len() as u16 % 256) as u8,
        (m2.answer.len() as u16 / 256) as u8,
        (m2.answer.len() as u16 % 256) as u8,
        (m2.authority.len() as u16 / 256) as u8,
        (m2.authority.len() as u16 % 256) as u8,
        (m2.additional.len() as u16 / 256) as u8,
        (m2.additional.len() as u16 % 256) as u8,
    ];
    assert(header_wire(m2) =~= e);
    assert(w[2] == header_wire(m2)[2]);
    assert(w.take(512)[2] == w[2]);
    assert(h.truncated);
    lemma_flags_roundtrip(h);
}


} // verus!

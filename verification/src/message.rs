//! Typed representation of DNS messages: header, question, resource record,
//! and the enumerations for opcode, response code, record type and class.
use vstd::prelude::*;

verus! {

/// DNS operation code, a 4-bit field of the header.
#[derive(Copy, Clone, Debug, PartialEq, Eq, Structural)]
pub enum DnsOpcode {
    Query,
    InverseQuery,
    Status,
}

impl DnsOpcode {
    /// The 4-bit wire value of this opcode.
    pub open spec fn code_spec(self) -> u8 {
        match self {
            DnsOpcode::Query => 0,
            DnsOpcode::InverseQuery => 1,
            DnsOpcode::Status => 2,
        }
    }

    pub fn code(self) -> (r: u8)
        ensures
            r == self.code_spec(),
    {
        match self {
            DnsOpcode::Query => 0,
            DnsOpcode::InverseQuery => 1,
            DnsOpcode::Status => 2,
        }
    }

    /// Which opcodes each wire value decodes to; unknown values decode to `None`.
    pub open spec fn try_from_spec(x: u8) -> Option<DnsOpcode> {
        if x == 0 {
            Some(DnsOpcode::Query)
        } else if x == 1 {
            Some(DnsOpcode::InverseQuery)
        } else if x == 2 {
            Some(DnsOpcode::Status)
        } else {
            None
        }
    }

    pub fn try_from(x: u8) -> (r: Option<DnsOpcode>)
        ensures
            r == Self::try_from_spec(x),
    {
        match x {
            0 => Some(DnsOpcode::Query),
            1 => Some(DnsOpcode::InverseQuery),
            2 => Some(DnsOpcode::Status),
            _ => None,
        }
    }
}

/// DNS response code, a 4-bit field of the header.
#[derive(Copy, Clone, Debug, PartialEq, Eq, Structural)]
pub enum DnsRcode {
    NoErrorCondition,
    FormatError,
    ServerFailure,
    NameError,
    NotImplemented,
    Refused,
}

impl DnsRcode {
    /// The 4-bit wire value of this response code.
    pub open spec fn code_spec(self) -> u8 {
        match self {
            DnsRcode::NoErrorCondition => 0,
            DnsRcode::FormatError => 1,
            DnsRcode::ServerFailure => 2,
            DnsRcode::NameError => 3,
            DnsRcode::NotImplemented => 4,
            DnsRcode::Refused => 5,
        }
    }

    pub fn code(self) -> (r: u8)
        ensures
            r == self.code_spec(),
    {
        match self {
            DnsRcode::NoErrorCondition => 0,
            DnsRcode::FormatError => 1,
            DnsRcode::ServerFailure => 2,
            DnsRcode::NameError => 3,
            DnsRcode::NotImplemented => 4,
            DnsRcode::Refused => 5,
        }
    }

    /// Which response codes each wire value decodes to; unknown values decode to `None`.
    pub open spec fn try_from_spec(x: u8) -> Option<DnsRcode> {
        if x == 0 {
            Some(DnsRcode::NoErrorCondition)
        } else if x == 1 {
            Some(DnsRcode::FormatError)
        } else if x == 2 {
            Some(DnsRcode::ServerFailure)
        } else if x == 3 {
            Some(DnsRcode::NameError)
        } else if x == 4 {
            Some(DnsRcode::NotImplemented)
        } else if x == 5 {
            Some(DnsRcode::Refused)
        } else {
            None
        }
    }

    pub fn try_from(x: u8) -> (r: Option<DnsRcode>)
        ensures
            r == Self::try_from_spec(x),
    {
        match x {
            0 => Some(DnsRcode::NoErrorCondition),
            1 => Some(DnsRcode::FormatError),
            2 => Some(DnsRcode::ServerFailure),
            3 => Some(DnsRcode::NameError),
            4 => Some(DnsRcode::NotImplemented),
            5 => Some(DnsRcode::Refused),
            _ => None,
        }
    }
}

/// DNS record or question type, a 16-bit wire field.
#[derive(Copy, Clone, Debug, PartialEq, Eq, Structural)]
pub enum DnsType {
    A,
    NS,
    MD,
    MF,
    CNAME,
    SOA,
    MB,
    MG,
    MR,
    NULL,
    WKS,
    PTR,
    HINFO,
    MINFO,
    MX,
    TXT,
    AAAA,
    AXFR,
    MAILB,
    MAILA,
    Any,
}

impl DnsType {
    /// The 16-bit wire value of this type.
    pub open spec fn code_spec(self) -> u16 {
        match self {
            DnsType::A => 1,
            DnsType::NS => 2,
            DnsType::MD => 3,
            DnsType::MF => 4,
            DnsType::CNAME => 5,
            DnsType::SOA => 6,
            DnsType::MB => 7,
            DnsType::MG => 8,
            DnsType::MR => 9,
            DnsType::NULL => 10,
            DnsType::WKS => 11,
            DnsType::PTR => 12,
            DnsType::HINFO => 13,
            DnsType::MINFO => 14,
            DnsType::MX => 15,
            DnsType::TXT => 16,
            DnsType::AAAA => 28,
            DnsType::AXFR => 252,
            DnsType::MAILB => 253,
            DnsType::MAILA => 254,
            DnsType::Any => 255,
        }
    }

    pub fn code(self) -> (r: u16)
        ensures
            r == self.code_spec(),
    {
        match self {
            DnsType::A => 1,
            DnsType::NS => 2,
            DnsType::MD => 3,
            DnsType::MF => 4,
            DnsType::CNAME => 5,
            DnsType::SOA => 6,
            DnsType::MB => 7,
            DnsType::MG => 8,
            DnsType::MR => 9,
            DnsType::NULL => 10,
            DnsType::WKS => 11,
            DnsType::PTR => 12,
            DnsType::HINFO => 13,
            DnsType::MINFO => 14,
            DnsType::MX => 15,
            DnsType::TXT => 16,
            DnsType::AAAA => 28,
            DnsType::AXFR => 252,
            DnsType::MAILB => 253,
            DnsType::MAILA => 254,
            DnsType::Any => 255,
        }
    }

    /// Which types each wire value decodes to; unknown values decode to `None`.
    pub open spec fn try_from_spec(x: u16) -> Option<DnsType> {
        if x == 1 {
            Some(DnsType::A)
        } else if x == 2 {
            Some(DnsType::NS)
        } else if x == 3 {
            Some(DnsType::MD)
        } else if x == 4 {
            Some(DnsType::MF)
        } else if x == 5 {
            Some(DnsType::CNAME)
        } else if x == 6 {
            Some(DnsType::SOA)
        } else if x == 7 {
            Some(DnsType::MB)
        } else if x == 8 {
            Some(DnsType::MG)
        } else if x == 9 {
            Some(DnsType::MR)
        } else if x == 10 {
            Some(DnsType::NULL)
        } else if x == 11 {
            Some(DnsType::WKS)
        } else if x == 12 {
            Some(DnsType::PTR)
        } else if x == 13 {
            Some(DnsType::HINFO)
        } else if x == 14 {
            Some(DnsType::MINFO)
        } else if x == 15 {
            Some(DnsType::MX)
        } else if x == 16 {
            Some(DnsType::TXT)
        } else if x == 28 {
            Some(DnsType::AAAA)
        } else if x == 252 {
            Some(DnsType::AXFR)
        } else if x == 253 {
            Some(DnsType::MAILB)
        } else if x == 254 {
            Some(DnsType::MAILA)
        } else if x == 255 {
            Some(DnsType::Any)
        } else {
            None
        }
    }

    pub fn try_from(x: u16) -> (r: Option<DnsType>)
        ensures
            r == Self::try_from_spec(x),
    {
        match x {
            1 => Some(DnsType::A),
            2 => Some(DnsType::NS),
            3 => Some(DnsType::MD),
            4 => Some(DnsType::MF),
            5 => Some(DnsType::CNAME),
            6 => Some(DnsType::SOA),
            7 => Some(DnsType::MB),
            8 => Some(DnsType::MG),
            9 => Some(DnsType::MR),
            10 => Some(DnsType::NULL),
            11 => Some(DnsType::WKS),
            12 => Some(DnsType::PTR),
            13 => Some(DnsType::HINFO),
            14 => Some(DnsType::MINFO),
            15 => Some(DnsType::MX),
            16 => Some(DnsType::TXT),
            28 => Some(DnsType::AAAA),
            252 => Some(DnsType::AXFR),
            253 => Some(DnsType::MAILB),
            254 => Some(DnsType::MAILA),
            255 => Some(DnsType::Any),
            _ => None,
        }
    }
}

/// DNS class, a 16-bit wire field. Only Internet and Any are recognized.
#[derive(Copy, Clone, Debug, PartialEq, Eq, Structural)]
pub enum DnsClass {
    Internet,
    Any,
}

impl DnsClass {
    /// The 16-bit wire value of this class.
    pub open spec fn code_spec(self) -> u16 {
        match self {
            DnsClass::Internet => 1,
            DnsClass::Any => 255,
        }
    }

    pub fn code(self) -> (r: u16)
        ensures
            r == self.code_spec(),
    {
        match self {
            DnsClass::Internet => 1,
            DnsClass::Any => 255,
        }
    }

    /// Which classes each wire value decodes to; unknown values decode to `None`.
    pub open spec fn try_from_spec(x: u16) -> Option<DnsClass> {
        if x == 1 {
            Some(DnsClass::Internet)
        } else if x == 255 {
            Some(DnsClass::Any)
        } else {
            None
        }
    }

    pub fn try_from(x: u16) -> (r: Option<DnsClass>)
        ensures
            r == Self::try_from_spec(x),
    {
        match x {
            1 => Some(DnsClass::Internet),
            255 => Some(DnsClass::Any),
            _ => None,
        }
    }
}

/// An IPv4 address as four octets.
#[derive(Copy, Clone, Debug, PartialEq, Eq, Structural)]
pub struct Ipv4Address {
    pub o0: u8,
    pub o1: u8,
    pub o2: u8,
    pub o3: u8,
}

impl Ipv4Address {
    pub fn new(o0: u8, o1: u8, o2: u8, o3: u8) -> (r: Ipv4Address)
        ensures
            r == (Ipv4Address { o0, o1, o2, o3 }),
    {
        Ipv4Address { o0, o1, o2, o3 }
    }

    /// True of the all-zero address `0.0.0.0`.
    pub open spec fn is_zero_spec(self) -> bool {
        self.o0 == 0 && self.o1 == 0 && self.o2 == 0 && self.o3 == 0
    }

    pub fn is_zero(self) -> (r: bool)
        ensures
            r == self.is_zero_spec(),
    {
        self.o0 == 0 && self.o1 == 0 && self.o2 == 0 && self.o3 == 0
    }
}

/// An IPv6 address as eight 16-bit segments.
#[derive(Copy, Clone, Debug, PartialEq, Eq, Structural)]
pub struct Ipv6Address {
    pub s0: u16,
    pub s1: u16,
    pub s2: u16,
    pub s3: u16,
    pub s4: u16,
    pub s5: u16,
    pub s6: u16,
    pub s7: u16,
}

impl Ipv6Address {
    pub fn new(s0: u16, s1: u16, s2: u16, s3: u16, s4: u16, s5: u16, s6: u16, s7: u16) -> (r:
        Ipv6Address)
        ensures
            r == (Ipv6Address { s0, s1, s2, s3, s4, s5, s6, s7 }),
    {
        Ipv6Address { s0, s1, s2, s3, s4, s5, s6, s7 }
    }
}

/// DNS message header. Section counts are not stored: they are derived from
/// the section lengths on encode and drive the section loops on decode.
#[derive(Copy, Clone, Debug, PartialEq, Eq, Structural)]
pub struct DnsHeader {
    pub id: u16,
    /// True for a query (wire QR bit 0), false for a response (QR bit 1).
    pub query: bool,
    pub opcode: DnsOpcode,
    pub authoritative: bool,
    pub truncated: bool,
    pub recur_desired: bool,
    pub recur_available: bool,
    pub rcode: DnsRcode,
}

/// A question: a domain name (sequence of labels) with a type and class.
#[derive(Debug)]
pub struct DnsQuestion {
    pub qname: Vec<String>,
    pub qtype: DnsType,
    pub qclass: DnsClass,
}

/// The data of a resource record, tagged by record type.
#[derive(Debug, PartialEq)]
pub enum DnsRRData {
    A(Ipv4Address),
    AAAA(Ipv6Address),
    MX(u16, Vec<String>),
    CNAME(Vec<String>),
    TXT(Vec<String>),
    SOA(Vec<String>, Vec<String>, u32, u32, u32, u32, u32),
    NS(Vec<String>),
}

/// A resource record.
#[derive(Debug, PartialEq)]
pub struct DnsResourceRecord {
    pub name: Vec<String>,
    pub rtype: DnsType,
    pub rclass: DnsClass,
    pub ttl: u32,
    pub data: DnsRRData,
}

/// A whole DNS message: header plus the four record sections.
#[derive(Debug)]
pub struct DnsMessage {
    pub header: DnsHeader,
    pub question: Vec<DnsQuestion>,
    pub answer: Vec<DnsResourceRecord>,
    pub authority: Vec<DnsResourceRecord>,
    pub additional: Vec<DnsResourceRecord>,
}

impl DnsMessage {
    pub fn is_query(&self) -> (r: bool)
        ensures
            r == self.header.query,
    {
        self.header.query
    }
}

/// Mathematical model of a question: the name as a sequence of label
/// character sequences.
pub struct SpecQuestion {
    pub qname: Seq<Seq<char>>,
    pub qtype: DnsType,
    pub qclass: DnsClass,
}

/// Mathematical model of record data.
pub enum SpecRRData {
    A(Ipv4Address),
    AAAA(Ipv6Address),
    MX(u16, Seq<Seq<char>>),
    CNAME(Seq<Seq<char>>),
    TXT(Seq<Seq<char>>),
    SOA(Seq<Seq<char>>, Seq<Seq<char>>, u32, u32, u32, u32, u32),
    NS(Seq<Seq<char>>),
}

/// Mathematical model of a resource record.
pub struct SpecResourceRecord {
    pub name: Seq<Seq<char>>,
    pub rtype: DnsType,
    pub rclass: DnsClass,
    pub ttl: u32,
    pub data: SpecRRData,
}

/// Mathematical model of a message.
pub struct SpecMessage {
    pub header: DnsHeader,
    pub question: Seq<SpecQuestion>,
    pub answer: Seq<SpecResourceRecord>,
    pub authority: Seq<SpecResourceRecord>,
    pub additional: Seq<SpecResourceRecord>,
}

impl View for DnsQuestion {
    type V = SpecQuestion;

    open spec fn view(&self) -> SpecQuestion {
        SpecQuestion { qname: self.qname.deep_view(), qtype: self.qtype, qclass: self.qclass }
    }
}

impl DeepView for DnsQuestion {
    type V = SpecQuestion;

    open spec fn deep_view(&self) -> SpecQuestion {
        self.view()
    }
}

impl View for DnsRRData {
    type V = SpecRRData;

    open spec fn view(&self) -> SpecRRData {
        match self {
            DnsRRData::A(a) => SpecRRData::A(*a),
            DnsRRData::AAAA(a) => SpecRRData::AAAA(*a),
            DnsRRData::MX(pref, name) => SpecRRData::MX(*pref, name.deep_view()),
            DnsRRData::CNAME(name) => SpecRRData::CNAME(name.deep_view()),
            DnsRRData::TXT(txt) => SpecRRData::TXT(txt.deep_view()),
            DnsRRData::SOA(mname, rname, serial, refresh, retry, expire, minimum) => SpecRRData::SOA(
                mname.deep_view(),
                rname.deep_view(),
                *serial,
                *refresh,
                *retry,
                *expire,
                *minimum,
            ),
            DnsRRData::NS(name) => SpecRRData::NS(name.deep_view()),
        }
    }
}

impl DeepView for DnsRRData {
    type V = SpecRRData;

    open spec fn deep_view(&self) -> SpecRRData {
        self.view()
    }
}

impl View for DnsResourceRecord {
    type V = SpecResourceRecord;

    open spec fn view(&self) -> SpecResourceRecord {
        SpecResourceRecord {
            name: self.name.deep_view(),
            rtype: self.rtype,
            rclass: self.rclass,
            ttl: self.ttl,
            data: self.data.view(),
        }
    }
}

impl DeepView for DnsResourceRecord {
    type V = SpecResourceRecord;

    open spec fn deep_view(&self) -> SpecResourceRecord {
        self.view()
    }
}

impl View for DnsMessage {
    type V = SpecMessage;

    open spec fn view(&self) -> SpecMessage {
        SpecMessage {
            header: self.header,
            question: self.question.deep_view(),
            answer: self.answer.deep_view(),
            authority: self.authority.deep_view(),
            additional: self.additional.deep_view(),
        }
    }
}

impl DeepView for DnsMessage {
    type V = SpecMessage;

    open spec fn deep_view(&self) -> SpecMessage {
        self.view()
    }
}

impl Clone for DnsQuestion {
    fn clone(&self) -> (r: Self)
        ensures
            r@ == self@,
    {
        let r = DnsQuestion {
            qname: clone_name(&self.qname),
            qtype: self.qtype,
            qclass: self.qclass,
        };
        r
    }
}

impl Clone for DnsRRData {
    fn clone(&self) -> (r: Self)
        ensures
            r@ == self@,
    {
        match self {
            DnsRRData::A(a) => DnsRRData::A(*a),
            DnsRRData::AAAA(a) => DnsRRData::AAAA(*a),
            DnsRRData::MX(pref, name) => DnsRRData::MX(*pref, clone_name(name)),
            DnsRRData::CNAME(name) => DnsRRData::CNAME(clone_name(name)),
            DnsRRData::TXT(txt) => DnsRRData::TXT(clone_name(txt)),
            DnsRRData::SOA(mname, rname, serial, refresh, retry, expire, minimum) => DnsRRData::SOA(
                clone_name(mname),
                clone_name(rname),
                *serial,
                *refresh,
                *retry,
                *expire,
                *minimum,
            ),
            DnsRRData::NS(name) => DnsRRData::NS(clone_name(name)),
        }
    }
}

impl Clone for DnsResourceRecord {
    fn clone(&self) -> (r: Self)
        ensures
            r@ == self@,
    {
        DnsResourceRecord {
            name: clone_name(&self.name),
            rtype: self.rtype,
            rclass: self.rclass,
            ttl: self.ttl,
            data: self.data.clone(),
        }
    }
}

impl Clone for DnsMessage {
    fn clone(&self) -> (r: Self)
        ensures
            r@ == self@,
    {
        DnsMessage {
            header: self.header,
            question: clone_questions(&self.question),
            answer: clone_records(&self.answer),
            authority: clone_records(&self.authority),
            additional: clone_records(&self.additional),
        }
    }
}

/// Copies a list of labels (or of character strings), preserving its view.
pub fn clone_name(name: &Vec<String>) -> (r: Vec<String>)
    ensures
        r.deep_view() == name.deep_view(),
{
    let mut r: Vec<String> = Vec::new();
    let mut i: usize = 0;
    while i < name.len()
        invariant
            i <= name.len(),
            r.len() == i,
            forall|j: int| 0 <= j < i ==> r.deep_view()[j] == name.deep_view()[j],
        decreases name.len() - i,
    {
        r.push(name[i].clone());
        i = i + 1;
    }
    assert(r.deep_view() =~= name.deep_view());
    r
}

/// Copies a question list, preserving its view.
pub fn clone_questions(qs: &Vec<DnsQuestion>) -> (r: Vec<DnsQuestion>)
    ensures
        r.deep_view() == qs.deep_view(),
{
    let mut r: Vec<DnsQuestion> = Vec::new();
    let mut i: usize = 0;
    while i < qs.len()
        invariant
            i <= qs.len(),
            r.len() == i,
            forall|j: int| 0 <= j < i ==> r.deep_view()[j] == qs.deep_view()[j],
        decreases qs.len() - i,
    {
        r.push(qs[i].clone());
        i = i + 1;
    }
    assert(r.deep_view() =~= qs.deep_view());
    r
}

/// Copies a record list, preserving its view.
pub fn clone_records(rrs: &Vec<DnsResourceRecord>) -> (r: Vec<DnsResourceRecord>)
    ensures
        r.deep_view() == rrs.deep_view(),
{
    let mut r: Vec<DnsResourceRecord> = Vec::new();
    let mut i: usize = 0;
    while i < rrs.len()
        invariant
            i <= rrs.len(),
            r.len() == i,
            forall|j: int| 0 <= j < i ==> r.deep_view()[j] == rrs.deep_view()[j],
        decreases rrs.len() - i,
    {
        r.push(rrs[i].clone());
        i = i + 1;
    }
    assert(r.deep_view() =~= rrs.deep_view());
    r
}

impl Default for DnsOpcode {
    fn default() -> (r: DnsOpcode)
        ensures
            r == DnsOpcode::Query,
    {
        DnsOpcode::Query
    }
}

impl Default for DnsRcode {
    fn default() -> (r: DnsRcode)
        ensures
            r == DnsRcode::NoErrorCondition,
    {
        DnsRcode::NoErrorCondition
    }
}

impl Default for DnsType {
    fn default() -> (r: DnsType)
        ensures
            r == DnsType::A,
    {
        DnsType::A
    }
}

impl Default for DnsClass {
    fn default() -> (r: DnsClass)
        ensures
            r == DnsClass::Internet,
    {
        DnsClass::Internet
    }
}

impl Default for DnsHeader {
    fn default() -> (r: DnsHeader)
        ensures
            r == (DnsHeader {
                id: 0,
                query: false,
                opcode: DnsOpcode::Query,
                authoritative: false,
                truncated: false,
                recur_desired: false,
                recur_available: false,
                rcode: DnsRcode::NoErrorCondition,
            }),
    {
        DnsHeader {
            id: 0,
            query: false,
            opcode: DnsOpcode::Query,
            authoritative: false,
            truncated: false,
            recur_desired: false,
            recur_available: false,
            rcode: DnsRcode::NoErrorCondition,
        }
    }
}

impl Default for DnsQuestion {
    fn default() -> (r: DnsQuestion)
        ensures
            r@.qname == Seq::<Seq<char>>::empty(),
            r@.qtype == DnsType::A,
            r@.qclass == DnsClass::Internet,
    {
        DnsQuestion { qname: Vec::new(), qtype: DnsType::A, qclass: DnsClass::Internet }
    }
}

impl Default for DnsMessage {
    fn default() -> (r: DnsMessage)
        ensures
            r@.header == (DnsHeader {
                id: 0,
                query: false,
                opcode: DnsOpcode::Query,
                authoritative: false,
                truncated: false,
                recur_desired: false,
                recur_available: false,
                rcode: DnsRcode::NoErrorCondition,
            }),
            r@.question == Seq::<SpecQuestion>::empty(),
            r@.answer == Seq::<SpecResourceRecord>::empty(),
            r@.authority == Seq::<SpecResourceRecord>::empty(),
            r@.additional == Seq::<SpecResourceRecord>::empty(),
    {
        DnsMessage {
            header: DnsHeader {
                id: 0,
                query: false,
                opcode: DnsOpcode::Query,
                authoritative: false,
                truncated: false,
                recur_desired: false,
                recur_available: false,
                rcode: DnsRcode::NoErrorCondition,
            },
            question: Vec::new(),
            answer: Vec::new(),
            authority: Vec::new(),
            additional: Vec::new(),
        }
    }
}

} // verus!

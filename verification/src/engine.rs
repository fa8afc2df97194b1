//! The forwarding engine's decision logic: the local-answer filter over the
//! hosts table, reply synthesis from local answers only, answer merging on
//! the reply path, and the per-message decisions of the UDP and TCP
//! engines. All I/O stays with the caller: these functions turn a decoded
//! message into what to send and where.
use vstd::prelude::*;

use crate::message::{DnsMessage, DnsHeader, DnsQuestion, DnsResourceRecord, DnsRRData};
use crate::message::{DnsOpcode, DnsRcode, DnsType};
use crate::message::{SpecMessage, SpecQuestion, SpecResourceRecord, SpecRRData};
use crate::message::clone_records;
use crate::table::{Endpoint, CorrelationEntry, CorrelationTable, table_map, table_capacity};
use crate::table::{table_insert, table_take};

verus! {

/// One hosts-table entry: a domain name and the A records served for it.
#[derive(Debug)]
pub struct LocalEntry {
    pub name: Vec<String>,
    pub records: Vec<DnsResourceRecord>,
}

/// Mathematical model of a hosts-table entry.
pub struct SpecLocalEntry {
    pub name: Seq<Seq<char>>,
    pub records: Seq<SpecResourceRecord>,
}

impl View for LocalEntry {
    type V = SpecLocalEntry;

    open spec fn view(&self) -> SpecLocalEntry {
        SpecLocalEntry { name: self.name.deep_view(), records: self.records.deep_view() }
    }
}

impl DeepView for LocalEntry {
    type V = SpecLocalEntry;

    open spec fn deep_view(&self) -> SpecLocalEntry {
        self.view()
    }
}

/// The local-answer table, populated from the hosts file at startup and
/// consulted by both engines. Lookup finds the first entry with the name.
#[derive(Debug)]
pub struct LocalTable {
    entries: Vec<LocalEntry>,
}

impl View for LocalTable {
    type V = Seq<SpecLocalEntry>;

    closed spec fn view(&self) -> Seq<SpecLocalEntry> {
        self.entries.deep_view()
    }
}

/// Some entry carries this name.
pub open spec fn contains_name(es: Seq<SpecLocalEntry>, n: Seq<Seq<char>>) -> bool {
    exists|i: int| 0 <= i < es.len() && (#[trigger] es[i]).name == n
}

/// The index of the first entry carrying this name, or a negative value
/// when none does.
pub open spec fn first_match(es: Seq<SpecLocalEntry>, n: Seq<Seq<char>>) -> int
    decreases es.len(),
{
    if es.len() == 0 {
        -1
    } else if es[0].name == n {
        0
    } else {
        let r = first_match(es.drop_first(), n);
        if r < 0 {
            -1
        } else {
            1 + r
        }
    }
}

/// With no earlier entry carrying the name, a carrying entry at `i` is the
/// first match.
pub proof fn lemma_first_match_at(es: Seq<SpecLocalEntry>, n: Seq<Seq<char>>, i: int)
    requires
        0 <= i < es.len(),
        es[i].name == n,
        forall|j: int| 0 <= j < i ==> (#[trigger] es[j]).name != n,
    ensures
        first_match(es, n) == i,
    decreases i,
{
    if i == 0 {
    } else {
        let rest = es.drop_first();
        assert(forall|j: int| 0 <= j < rest.len() ==> rest[j] == es[j + 1]);
        lemma_first_match_at(rest, n, i - 1);
    }
}

/// With no entry carrying the name, there is no first match.
pub proof fn lemma_first_match_none(es: Seq<SpecLocalEntry>, n: Seq<Seq<char>>)
    requires
        forall|j: int| 0 <= j < es.len() ==> (#[trigger] es[j]).name != n,
    ensures
        first_match(es, n) < 0,
    decreases es.len(),
{
    if es.len() == 0 {
    } else {
        let rest = es.drop_first();
        assert(forall|j: int| 0 <= j < rest.len() ==> rest[j] == es[j + 1]);
        lemma_first_match_none(rest, n);
    }
}

/// The records of the first entry carrying this name (empty when none does).
pub open spec fn lookup_records(es: Seq<SpecLocalEntry>, n: Seq<Seq<char>>) -> Seq<
    SpecResourceRecord,
>
    decreases es.len(),
{
    if es.len() == 0 {
        Seq::<SpecResourceRecord>::empty()
    } else if es[0].name == n {
        es[0].records
    } else {
        lookup_records(es.drop_first(), n)
    }
}

/// Compares two names label by label.
pub fn name_eq(a: &Vec<String>, b: &Vec<String>) -> (r: bool)
    ensures
        r == (a.deep_view() == b.deep_view()),
{
    if a.len() != b.len() {
        proof {
            assert(a.deep_view().len() != b.deep_view().len());
        }
        return false;
    }
    let mut i: usize = 0;
    while i < a.len()
        invariant
            a.len() == b.len(),
            i <= a.len(),
            forall|j: int| 0 <= j < i ==> a.deep_view()[j] == b.deep_view()[j],
        decreases a.len() - i,
    {
        if !(a[i] == b[i]) {
            proof {
                assert(a.deep_view()[i as int] != b.deep_view()[i as int]);
            }
            return false;
        }
        i = i + 1;
    }
    proof {
        assert(a.deep_view() =~= b.deep_view());
    }
    true
}

impl LocalTable {
    /// An empty table.
    pub fn new() -> (r: LocalTable)
        ensures
            r@.len() == 0,
    {
        LocalTable { entries: Vec::new() }
    }

    /// The records for a name, if any entry carries it.
    pub fn lookup_clone(&self, name: &Vec<String>) -> (r: Option<Vec<DnsResourceRecord>>)
        ensures
            r is Some <==> contains_name(self@, name.deep_view()),
            r is Some ==> r->Some_0.deep_view() == lookup_records(self@, name.deep_view()),
    {
        let ghost es = self@;
        let ghost n = name.deep_view();
        proof {
            assert(es.skip(0) =~= es);
        }
        let mut i: usize = 0;
        while i < self.entries.len()
            invariant
                es == self@,
                n == name.deep_view(),
                i <= self.entries.len(),
                forall|j: int| 0 <= j < i ==> (#[trigger] es[j]).name != n,
                lookup_records(es, n) == lookup_records(es.skip(i as int), n),
            decreases self.entries.len() - i,
        {
            if name_eq(&self.entries[i].name, name) {
                proof {
                    assert(es[i as int].name == n);
                    assert(es.skip(i as int)[0] == es[i as int]);
                    assert(lookup_records(es.skip(i as int), n) == es[i as int].records);
                }
                return Some(clone_records(&self.entries[i].records));
            }
            proof {
                assert(es[i as int].name != n);
                assert(es.skip(i as int)[0] == es[i as int]);
                assert(es.skip(i as int).drop_first() =~= es.skip(i as int + 1));
            }
            i = i + 1;
        }
        proof {
            assert(es.skip(i as int) =~= Seq::<SpecLocalEntry>::empty());
            assert(!contains_name(es, n));
        }
        None
    }

    /// The index of the first entry carrying this name.
    fn find_name(&self, name: &Vec<String>) -> (r: Option<usize>)
        ensures
            r is Some ==> ({
                let i = r->Some_0 as int;
                &&& 0 <= i < self@.len()
                &&& self@[i].name == name.deep_view()
                &&& first_match(self@, name.deep_view()) == i
            }),
            r is None ==> first_match(self@, name.deep_view()) < 0,
    {
        let ghost es = self@;
        let ghost n = name.deep_view();
        let mut i: usize = 0;
        while i < self.entries.len()
            invariant
                es == self@,
                n == name.deep_view(),
                i <= self.entries.len(),
                forall|j: int| 0 <= j < i ==> (#[trigger] es[j]).name != n,
            decreases self.entries.len() - i,
        {
            if name_eq(&self.entries[i].name, name) {
                proof {
                    lemma_first_match_at(es, n, i as int);
                }
                return Some(i);
            }
            i = i + 1;
        }
        proof {
            lemma_first_match_none(es, n);
        }
        None
    }

    /// Adds one record for a name: appended to the name's first entry if one
    /// exists, in a fresh entry at the end otherwise.
    pub fn add_entry(&mut self, name: Vec<String>, record: DnsResourceRecord)
        ensures
            ({
                let es0 = old(self)@;
                let n = name.deep_view();
                let fi = first_match(es0, n);
                &&& (fi < 0 ==> final(self)@ == es0.push(
                    SpecLocalEntry { name: n, records: seq![record@] },
                ))
                &&& (fi >= 0 ==> final(self)@ == es0.update(
                    fi,
                    SpecLocalEntry { name: es0[fi].name, records: es0[fi].records + seq![record@] },
                ))
            }),
    {
        let ghost es = self@;
        let ghost n = name.deep_view();
        match self.find_name(&name) {
            Some(i) => {
                let ghost i0 = i as int;
                let mut entry = self.entries.remove(i);
                entry.records.push(record);
                proof {
                    assert(entry.records.deep_view() =~= es[i0].records + seq![record@]);
                }
                self.entries.insert(i, entry);
                proof {
                    assert(self@ =~= es.update(
                        i0,
                        SpecLocalEntry {
                            name: es[i0].name,
                            records: es[i0].records + seq![record@],
                        },
                    ));
                }
            },
            None => {
                let mut records: Vec<DnsResourceRecord> = Vec::new();
                records.push(record);
                proof {
                    assert(records.deep_view() =~= seq![record@]);
                }
                self.entries.push(LocalEntry { name, records });
                proof {
                    assert(self@ =~= es.push(SpecLocalEntry { name: n, records: seq![record@] }));
                }
            },
        }
    }
}

/// A question the table answers directly: type A with a known name.
pub open spec fn is_local_question(q: SpecQuestion, es: Seq<SpecLocalEntry>) -> bool {
    q.qtype == DnsType::A && contains_name(es, q.qname)
}

/// The questions left for the upstream resolver, in their original order.
pub open spec fn residual_questions(qs: Seq<SpecQuestion>, es: Seq<SpecLocalEntry>) -> Seq<
    SpecQuestion,
>
    decreases qs.len(),
{
    if qs.len() == 0 {
        Seq::<SpecQuestion>::empty()
    } else {
        let rest = residual_questions(qs.drop_first(), es);
        if is_local_question(qs[0], es) {
            rest
        } else {
            seq![qs[0]] + rest
        }
    }
}

/// The table's records for the locally answered questions, concatenated in
/// question order.
pub open spec fn local_answers(qs: Seq<SpecQuestion>, es: Seq<SpecLocalEntry>) -> Seq<
    SpecResourceRecord,
>
    decreases qs.len(),
{
    if qs.len() == 0 {
        Seq::<SpecResourceRecord>::empty()
    } else {
        let rest = local_answers(qs.drop_first(), es);
        if is_local_question(qs[0], es) {
            lookup_records(es, qs[0].qname) + rest
        } else {
            rest
        }
    }
}

/// Drains from `questions` every type-A question whose name the table
/// carries and returns the table's records for them, in question order;
/// every other question stays, in its original order.
#[verifier::rlimit(60)]
pub fn filter_questions(questions: &mut Vec<DnsQuestion>, local_entries: &LocalTable) -> (r: Vec<
    DnsResourceRecord,
>)
    ensures
        final(questions).deep_view() == residual_questions(
            old(questions).deep_view(),
            local_entries@,
        ),
        r.deep_view() == local_answers(old(questions).deep_view(), local_entries@),
{
    let ghost qs = questions.deep_view();
    let ghost es = local_entries@;
    let mut residual: Vec<DnsQuestion> = Vec::new();
    let mut answers: Vec<DnsResourceRecord> = Vec::new();
    proof {
        assert(qs.skip(0) =~= qs);
        assert(residual.deep_view() =~= Seq::<SpecQuestion>::empty());
        assert(answers.deep_view() =~= Seq::<SpecResourceRecord>::empty());
        assert(Seq::<SpecQuestion>::empty() + residual_questions(qs, es) =~= residual_questions(
            qs,
            es,
        ));
        assert(Seq::<SpecResourceRecord>::empty() + local_answers(qs, es) =~= local_answers(
            qs,
            es,
        ));
    }
    let mut i: usize = 0;
    while i < questions.len()
        invariant
            qs == questions.deep_view(),
            es == local_entries@,
            i <= questions.len(),
            residual_questions(qs, es) == residual.deep_view() + residual_questions(
                qs.skip(i as int),
                es,
            ),
            local_answers(qs, es) == answers.deep_view() + local_answers(qs.skip(i as int), es),
        decreases questions.len() - i,
    {
        let ghost res_before = residual.deep_view();
        let ghost ans_before = answers.deep_view();
        let q = &questions[i];
        proof {
            assert(qs.skip(i as int)[0] == qs[i as int]);
            assert(qs.skip(i as int).drop_first() =~= qs.skip(i as int + 1));
            assert(q@ == qs[i as int]);
        }
        let is_a = matches!(q.qtype, DnsType::A);
        let looked = if is_a {
            local_entries.lookup_clone(&q.qname)
        } else {
            None
        };
        match looked {
            Some(recs) => {
                proof {
                    assert(is_local_question(qs[i as int], es));
                    assert(recs.deep_view() == lookup_records(es, qs[i as int].qname));
                }
                let mut recs = recs;
                answers.append(&mut recs);
                proof {
                    assert(answers.deep_view() =~= ans_before + lookup_records(
                        es,
                        qs[i as int].qname,
                    ));
                    assert(ans_before + (lookup_records(es, qs[i as int].qname) + local_answers(
                        qs.skip(i as int + 1),
                        es,
                    )) =~= answers.deep_view() + local_answers(qs.skip(i as int + 1), es));
                }
            },
            None => {
                proof {
                    assert(!is_local_question(qs[i as int], es));
                }
                residual.push(questions[i].clone());
                proof {
                    assert(residual.deep_view() =~= res_before + seq![qs[i as int]]);
                    assert(res_before + (seq![qs[i as int]] + residual_questions(
                        qs.skip(i as int + 1),
                        es,
                    )) =~= residual.deep_view() + residual_questions(qs.skip(i as int + 1), es));
                }
            },
        }
        i = i + 1;
    }
    proof {
        assert(qs.skip(i as int) =~= Seq::<SpecQuestion>::empty());
        assert(residual.deep_view() + Seq::<SpecQuestion>::empty() =~= residual.deep_view());
        assert(answers.deep_view() + Seq::<SpecResourceRecord>::empty() =~= answers.deep_view());
    }
    *questions = residual;
    answers
}

/// Some synthesized record carries the address `0.0.0.0`, the hosts-file
/// convention for "actively refuse".
pub open spec fn any_blocked(answers: Seq<SpecResourceRecord>) -> bool {
    exists|i: int|
        0 <= i < answers.len() && ((#[trigger] answers[i]).data matches SpecRRData::A(a)
            && a.is_zero_spec())
}

/// The reply synthesized from local answers only: a response carrying the
/// query's id; refused with no answers when any record is blocked,
/// otherwise no error with exactly the synthesized answers.
pub open spec fn reply_from_answers(id: u16, answers: Seq<SpecResourceRecord>) -> SpecMessage {
    SpecMessage {
        header: DnsHeader {
            id,
            query: false,
            opcode: DnsOpcode::Query,
            authoritative: false,
            truncated: false,
            recur_desired: true,
            recur_available: false,
            rcode: if any_blocked(answers) {
                DnsRcode::Refused
            } else {
                DnsRcode::NoErrorCondition
            },
        },
        question: Seq::<SpecQuestion>::empty(),
        answer: if any_blocked(answers) {
            Seq::<SpecResourceRecord>::empty()
        } else {
            answers
        },
        authority: Seq::<SpecResourceRecord>::empty(),
        additional: Seq::<SpecResourceRecord>::empty(),
    }
}

/// Builds the reply for a query answered from the table alone.
pub fn from_answer(id: u16, answer: &Vec<DnsResourceRecord>) -> (r: DnsMessage)
    ensures
        r@ == reply_from_answers(id, answer.deep_view()),
{
    let ghost ans = answer.deep_view();
    let mut refused: bool = false;
    let mut i: usize = 0;
    while i < answer.len()
        invariant
            ans == answer.deep_view(),
            i <= answer.len(),
            refused == exists|j: int|
                0 <= j < i && ((#[trigger] ans[j]).data matches SpecRRData::A(a)
                    && a.is_zero_spec()),
        decreases answer.len() - i,
    {
        let hit = match &answer[i].data {
            DnsRRData::A(a) => a.is_zero(),
            _ => false,
        };
        proof {
            assert(ans[i as int] == answer[i as int]@);
            if hit {
                assert((ans[i as int].data matches SpecRRData::A(a) && a.is_zero_spec()));
            }
        }
        refused = refused || hit;
        i = i + 1;
    }
    proof {
        assert(refused == any_blocked(ans));
    }
    let answers_out = if refused {
        Vec::new()
    } else {
        clone_records(answer)
    };
    let r = DnsMessage {
        header: DnsHeader {
            id,
            query: false,
            opcode: DnsOpcode::Query,
            authoritative: false,
            truncated: false,
            recur_desired: true,
            recur_available: false,
            rcode: if refused {
                DnsRcode::Refused
            } else {
                DnsRcode::NoErrorCondition
            },
        },
        question: Vec::new(),
        answer: answers_out,
        authority: Vec::new(),
        additional: Vec::new(),
    };
    proof {
        assert(r.question.deep_view() =~= Seq::<SpecQuestion>::empty());
        assert(r.authority.deep_view() =~= Seq::<SpecResourceRecord>::empty());
        assert(r.additional.deep_view() =~= Seq::<SpecResourceRecord>::empty());
        if refused {
            assert(r.answer.deep_view() =~= Seq::<SpecResourceRecord>::empty());
        }
    }
    r
}

/// Appends the locally synthesized answers to a response's answer section;
/// everything else is kept as it came.
pub fn merge_response(response: DnsMessage, local_answers: Vec<DnsResourceRecord>) -> (r:
    DnsMessage)
    ensures
        r@.header == response@.header,
        r@.question == response@.question,
        r@.answer == response@.answer + local_answers.deep_view(),
        r@.authority == response@.authority,
        r@.additional == response@.additional,
{
    let ghost old_answer = response.answer.deep_view();
    let mut merged = response;
    let mut extra = local_answers;
    merged.answer.append(&mut extra);
    proof {
        assert(merged.answer.deep_view() =~= old_answer + local_answers.deep_view());
    }
    merged
}

/// The answers worth reporting to the operator: those carrying an address.
pub open spec fn reportable(answers: Seq<SpecResourceRecord>) -> Seq<SpecResourceRecord>
    decreases answers.len(),
{
    if answers.len() == 0 {
        Seq::<SpecResourceRecord>::empty()
    } else {
        let rest = reportable(answers.drop_first());
        if answers[0].data matches SpecRRData::A(_) || answers[0].data matches SpecRRData::AAAA(_) {
            seq![answers[0]] + rest
        } else {
            rest
        }
    }
}

/// Selects the A and AAAA answers of a message, in order, for reporting.
pub fn report_answers(message: &DnsMessage) -> (r: Vec<DnsResourceRecord>)
    ensures
        r.deep_view() == reportable(message@.answer),
{
    let ghost ans = message.answer.deep_view();
    let mut picked: Vec<DnsResourceRecord> = Vec::new();
    proof {
        assert(ans.skip(0) =~= ans);
        assert(picked.deep_view() =~= Seq::<SpecResourceRecord>::empty());
        assert(Seq::<SpecResourceRecord>::empty() + reportable(ans) =~= reportable(ans));
    }
    let mut i: usize = 0;
    while i < message.answer.len()
        invariant
            ans == message.answer.deep_view(),
            i <= message.answer.len(),
            reportable(ans) == picked.deep_view() + reportable(ans.skip(i as int)),
        decreases message.answer.len() - i,
    {
        let ghost picked_before = picked.deep_view();
        proof {
            assert(ans.skip(i as int)[0] == ans[i as int]);
            assert(ans.skip(i as int).drop_first() =~= ans.skip(i as int + 1));
            assert(message.answer[i as int]@ == ans[i as int]);
        }
        let keep = match &message.answer[i].data {
            DnsRRData::A(_) => true,
            DnsRRData::AAAA(_) => true,
            _ => false,
        };
        if keep {
            picked.push(message.answer[i].clone());
            proof {
                assert(picked.deep_view() =~= picked_before + seq![ans[i as int]]);
                assert(picked_before + (seq![ans[i as int]] + reportable(ans.skip(i as int + 1)))
                    =~= picked.deep_view() + reportable(ans.skip(i as int + 1)));
            }
        }
        i = i + 1;
    }
    proof {
        assert(ans.skip(i as int) =~= Seq::<SpecResourceRecord>::empty());
        assert(picked.deep_view() + Seq::<SpecResourceRecord>::empty() =~= picked.deep_view());
    }
    picked
}

/// What the UDP engine does with one decoded datagram.
pub enum UdpOutcome {
    /// Send this message to this client.
    Reply { message: DnsMessage, dest: Endpoint },
    /// Send this message to the upstream resolver.
    Forward { message: DnsMessage },
    /// Send nothing.
    Drop,
}

/// Decides the fate of one decoded UDP message from `peer`.
///
/// A query whose questions the table answers entirely is answered at once,
/// without touching the upstream or the correlation table. A query with
/// residual questions is forwarded with only those questions, and the
/// client and its local answers are remembered under the query id,
/// overwriting any earlier entry, for `ttl_secs` seconds (bounded so that
/// the table's deadline arithmetic stays representable). A response is
/// matched against the table by id: a remembered id yields a reply to the
/// remembered client with the remembered answers appended, and the entry is
/// consumed; an unknown id (late, expired or spoofed) is dropped.
#[verifier::rlimit(60)]
pub fn process_udp_message(
    table: &mut CorrelationTable,
    local_entries: &LocalTable,
    message: DnsMessage,
    peer: Endpoint,
    ttl_secs: u64,
) -> (r: UdpOutcome)
    requires
        ttl_secs <= 0xffff_ffff,
    ensures
        ({
            let m = message@;
            let es = local_entries@;
            let id = m.header.id;
            &&& (m.header.query && residual_questions(m.question, es).len() == 0 ==> (r matches
                UdpOutcome::Reply { message: rm, dest } && rm@ == reply_from_answers(
                id,
                local_answers(m.question, es),
            ) && dest == peer && table_map(*final(table)) == table_map(*old(table))))
            &&& (m.header.query && residual_questions(m.question, es).len() > 0 ==> (r matches
                UdpOutcome::Forward { message: fm } && fm@.header == m.header && fm@.question
                == residual_questions(m.question, es) && fm@.answer == m.answer && fm@.authority
                == m.authority && fm@.additional == m.additional))
            &&& (m.header.query && residual_questions(m.question, es).len() > 0 && table_capacity(
                *old(table),
            ) >= 1 ==> table_map(*final(table)).contains_key(id) && table_map(
                *final(table),
            )[id]@.client == peer && table_map(*final(table))[id]@.answers == local_answers(
                m.question,
                es,
            ))
            &&& (!m.header.query ==> table_map(*final(table)) == table_map(*old(table)).remove(id))
            &&& (!m.header.query ==> (r matches UdpOutcome::Reply { message: rm, dest } ==> (
            table_map(*old(table)).contains_key(id) && dest == table_map(*old(table))[id]@.client
                && rm@.header == m.header && rm@.question == m.question && rm@.answer == m.answer
                + table_map(*old(table))[id]@.answers && rm@.authority == m.authority
                && rm@.additional == m.additional)))
            &&& (!m.header.query && !table_map(*old(table)).contains_key(id) ==> r is Drop)
            &&& (!m.header.query ==> !(r matches UdpOutcome::Forward { message: fm }))
            &&& table_capacity(*final(table)) == table_capacity(*old(table))
        }),
{
    let id = message.header.id;
    if message.is_query() {
        let mut msg = message;
        let answers_local = filter_questions(&mut msg.question, local_entries);
        if msg.question.len() == 0 {
            let reply = from_answer(id, &answers_local);
            UdpOutcome::Reply { message: reply, dest: peer }
        } else {
            table_insert(
                table,
                id,
                CorrelationEntry { client: peer, answers: answers_local },
                ttl_secs,
            );
            UdpOutcome::Forward { message: msg }
        }
    } else {
        match table_take(table, id) {
            Some(entry) => {
                let dest = entry.client;
                let merged = merge_response(message, entry.answers);
                UdpOutcome::Reply { message: merged, dest }
            },
            None => UdpOutcome::Drop,
        }
    }
}

/// What the TCP engine does with one decoded request on a connection.
pub enum TcpStep {
    /// Every question was answered locally: write this reply back, without
    /// contacting the upstream.
    Local { reply: DnsMessage },
    /// Forward this residual query over a fresh upstream connection and
    /// await one response; `local_answers` are merged into it before it is
    /// written back.
    Upstream { query: DnsMessage, local_answers: Vec<DnsResourceRecord> },
}

/// Decides the fate of one decoded TCP request: answered locally in full,
/// or forwarded upstream with the residual questions.
pub fn process_tcp_request(message: DnsMessage, local_entries: &LocalTable) -> (r: TcpStep)
    ensures
        ({
            let m = message@;
            let es = local_entries@;
            &&& (residual_questions(m.question, es).len() == 0 ==> (r matches TcpStep::Local {
                reply,
            } && reply@ == reply_from_answers(m.header.id, local_answers(m.question, es))))
            &&& (residual_questions(m.question, es).len() > 0 ==> (r matches TcpStep::Upstream {
                query,
                local_answers: la,
            } && query@.header == m.header && query@.question == residual_questions(m.question, es)
                && query@.answer == m.answer && query@.authority == m.authority
                && query@.additional == m.additional && la.deep_view() == local_answers(
                m.question,
                es,
            )))
        }),
{
    let id = message.header.id;
    let mut msg = message;
    let answers_local = filter_questions(&mut msg.question, local_entries);
    if msg.question.len() == 0 {
        let reply = from_answer(id, &answers_local);
        TcpStep::Local { reply }
    } else {
        TcpStep::Upstream { query: msg, local_answers: answers_local }
    }
}

} // verus!

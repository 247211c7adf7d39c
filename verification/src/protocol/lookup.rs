use vstd::prelude::*;
use vstd::string::StringSliceAdditionalSpecFns;
use vstd::utf8::encode_utf8;

use crate::protocol::header::{empty_header, DnsHeader};
use crate::protocol::packet::{record_views, DnsPacket, PacketView};
use crate::protocol::question::{DnsQuestion, QuestionView};
use crate::protocol::record::{DnsRecord, RecordView};
use crate::types::query_type::QueryType;
use crate::types::result_code::ResultCode;

verus! {

/// `t` is a suffix of `s`.
pub open spec fn is_suffix(s: Seq<u8>, t: Seq<u8>) -> bool {
    t.len() <= s.len() && s.subrange(s.len() - t.len(), s.len() as int) == t
}

/// Whether the string `s` ends with the string `suffix`, compared byte by
/// byte.
pub fn ends_with(s: &str, suffix: &str) -> (r: bool)
    ensures
        r == is_suffix(s.spec_bytes(), suffix.spec_bytes()),
{
    let a = s.as_bytes();
    let b = suffix.as_bytes();
    if b.len() > a.len() {
        return false;
    }
    let off = a.len() - b.len();
    let mut i: usize = 0;
    while i < b.len()
        invariant
            a@ == s.spec_bytes(),
            b@ == suffix.spec_bytes(),
            a@.len() == a.len(),
            b@.len() == b.len(),
            off + b@.len() == a@.len(),
            i <= b@.len(),
            forall|j: int| 0 <= j < i ==> a@[off + j] == b@[j],
        decreases b.len() - i,
    {
        if a[off + i] != b[i] {
            assert(a@.subrange(off as int, a@.len() as int)[i as int] != b@[i as int]);
            assert(a@.subrange(off as int, a@.len() as int) != b@);
            return false;
        }
        i += 1;
    }
    assert(a@.subrange(off as int, a@.len() as int) =~= b@);
    true
}

/// The address of the first A record among `rs`.
pub open spec fn first_a(rs: Seq<RecordView>) -> Option<u32>
    decreases rs.len(),
{
    if rs.len() == 0 {
        None
    } else {
        match rs[0] {
            RecordView::A { addr, .. } => Some(addr),
            _ => first_a(rs.drop_first()),
        }
    }
}

/// The address of the first A record among `rs` whose owner is `host`.
pub open spec fn address_of(rs: Seq<RecordView>, host: Seq<char>) -> Option<u32>
    decreases rs.len(),
{
    if rs.len() == 0 {
        None
    } else {
        match rs[0] {
            RecordView::A { domain, addr, .. } => if domain == host {
                Some(addr)
            } else {
                address_of(rs.drop_first(), host)
            },
            _ => address_of(rs.drop_first(), host),
        }
    }
}

/// `rec` is an NS record for a zone that the name with UTF-8 bytes `qname`
/// lies in: its owner name is a suffix of `qname`.
pub open spec fn serves(rec: RecordView, qname: Seq<u8>) -> bool {
    match rec {
        RecordView::NS { domain, .. } => is_suffix(qname, encode_utf8(domain)),
        _ => false,
    }
}

/// The host of the first record among `rs` that `serves` the name `qname`.
pub open spec fn first_server(rs: Seq<RecordView>, qname: Seq<u8>) -> Option<Seq<char>>
    decreases rs.len(),
{
    if rs.len() == 0 {
        None
    } else if serves(rs[0], qname) {
        Some(rs[0]->NS_host)
    } else {
        first_server(rs.drop_first(), qname)
    }
}

/// Among the records `auth` that serve the name `qname`, in order, the
/// first whose host has an A record among `extra`: that record's address.
pub open spec fn resolved_server(auth: Seq<RecordView>, extra: Seq<RecordView>, qname: Seq<u8>) -> Option<
    u32,
>
    decreases auth.len(),
{
    if auth.len() == 0 {
        None
    } else if serves(auth[0], qname) && address_of(extra, auth[0]->NS_host) is Some {
        address_of(extra, auth[0]->NS_host)
    } else {
        resolved_server(auth.drop_first(), extra, qname)
    }
}

/// A name server whose address a response gives is one of the name servers
/// it names for the zone: where `get_resolved_ns` finds an address,
/// `get_unresolved_ns` finds a host too.
pub proof fn lemma_resolved_has_server(auth: Seq<RecordView>, extra: Seq<RecordView>, qname: Seq<u8>)
    ensures
        resolved_server(auth, extra, qname) is Some ==> first_server(auth, qname) is Some,
    decreases auth.len(),
{
    if auth.len() > 0 && !serves(auth[0], qname) {
        lemma_resolved_has_server(auth.drop_first(), extra, qname);
    }
}

/// What a resolver does next with a response it got for `qname`.
pub enum LookupStep {
    /// Hand the response back: it answers the question, says the name does
    /// not exist, or leads nowhere further.
    Done,
    /// Ask the name server at this IPv4 address next.
    AskServer(u32),
    /// Find the IPv4 address of this name server first, then ask it.
    ResolveServer(String),
}

/// The step that `next_step` takes on the response `p` for the name with
/// UTF-8 bytes `qname`.
pub open spec fn step_for(qname: Seq<u8>, p: PacketView) -> Option<Result<u32, Seq<char>>> {
    if p.answers.len() > 0 && p.header.response_code == ResultCode::NOERR {
        None
    } else if p.header.response_code == ResultCode::NXDOMAIN {
        None
    } else if resolved_server(p.authorities, p.resources, qname) is Some {
        Some(Ok(resolved_server(p.authorities, p.resources, qname)->0))
    } else if first_server(p.authorities, qname) is Some {
        Some(Err(first_server(p.authorities, qname)->0))
    } else {
        None
    }
}

/// The first server `first_server` names is the host of a record among
/// `rs` that serves `qname`, and it names none only where no record does.
proof fn lemma_first_server_found(rs: Seq<RecordView>, qname: Seq<u8>)
    ensures
        first_server(rs, qname) is None <==> forall|i: int| 0 <= i < rs.len() ==> !serves(#[trigger] rs[i], qname),
        first_server(rs, qname) is Some ==> exists|i: int|
            0 <= i < rs.len() && serves(#[trigger] rs[i], qname) && rs[i]->NS_host == first_server(
                rs,
                qname,
            )->0,
    decreases rs.len(),
{
    if rs.len() > 0 {
        lemma_first_server_found(rs.drop_first(), qname);
        if !serves(rs[0], qname) {
            if first_server(rs, qname) is Some {
                let i = choose|i: int|
                    0 <= i < rs.drop_first().len() && serves(#[trigger] rs.drop_first()[i], qname)
                        && rs.drop_first()[i]->NS_host == first_server(rs, qname)->0;
                assert(rs[i + 1] == rs.drop_first()[i]);
            }
            assert forall|i: int| 0 <= i < rs.len() && (forall|j: int| 0 <= j < rs.drop_first().len() ==> !serves(#[trigger] rs.drop_first()[j], qname)) implies !serves(#[trigger] rs[i], qname) by {
                if i > 0 {
                    assert(rs[i] == rs.drop_first()[i - 1]);
                }
            }
            assert forall|j: int| 0 <= j < rs.drop_first().len() && (forall|i: int| 0 <= i < rs.len() ==> !serves(#[trigger] rs[i], qname)) implies !serves(#[trigger] rs.drop_first()[j], qname) by {
                assert(rs[j + 1] == rs.drop_first()[j]);
            }
        } else {
            assert(serves(rs[0], qname));
        }
    }
}

/// The address `address_of` gives for `host` is that of an A record among
/// `rs` whose owner is `host`.
proof fn lemma_address_found(rs: Seq<RecordView>, host: Seq<char>)
    ensures
        address_of(rs, host) is Some ==> exists|j: int|
            0 <= j < rs.len() && (#[trigger] rs[j]) is A && rs[j]->A_domain == host && rs[j]->A_addr
                == address_of(rs, host)->0,
    decreases rs.len(),
{
    if rs.len() > 0 {
        lemma_address_found(rs.drop_first(), host);
        if address_of(rs, host) is Some && !(rs[0] is A && rs[0]->A_domain == host) {
            let j = choose|j: int|
                0 <= j < rs.drop_first().len() && (#[trigger] rs.drop_first()[j]) is A
                    && rs.drop_first()[j]->A_domain == host && rs.drop_first()[j]->A_addr
                    == address_of(rs, host)->0;
            assert(rs[j + 1] == rs.drop_first()[j]);
        }
    }
}

/// The address `resolved_server` gives is that of an A record among
/// `extra` for the host of a record among `auth` that serves `qname`.
proof fn lemma_resolved_server_found(auth: Seq<RecordView>, extra: Seq<RecordView>, qname: Seq<u8>)
    ensures
        resolved_server(auth, extra, qname) is Some ==> exists|i: int|
            0 <= i < auth.len() && serves(#[trigger] auth[i], qname) && address_of(
                extra,
                auth[i]->NS_host,
            ) == resolved_server(auth, extra, qname),
    decreases auth.len(),
{
    if auth.len() > 0 {
        lemma_resolved_server_found(auth.drop_first(), extra, qname);
        if resolved_server(auth, extra, qname) is Some && !(serves(auth[0], qname) && address_of(
            extra,
            auth[0]->NS_host,
        ) is Some) {
            let i = choose|i: int|
                0 <= i < auth.drop_first().len() && serves(#[trigger] auth.drop_first()[i], qname)
                    && address_of(extra, auth.drop_first()[i]->NS_host) == resolved_server(
                    auth,
                    extra,
                    qname,
                );
            assert(auth[i + 1] == auth.drop_first()[i]);
        }
    }
}

/// What a resolver does with a response for the name with UTF-8 bytes
/// `qname`:
/// - it stops on a response that answers (`NOERR` with at least one
///   answer) or says the name does not exist (`NXDOMAIN`), whatever the
///   other sections hold;
/// - otherwise, it asks next a server whose address the additional
///   records give: the address of an A record there for the host of an NS
///   record among the authorities whose zone holds `qname`;
/// - otherwise, it resolves the host of such an NS record first;
/// - and it stops only where no NS record among the authorities is for a
///   zone holding `qname`.
pub proof fn lemma_lookup_steps(qname: Seq<u8>, p: PacketView)
    ensures
        (p.answers.len() > 0 && p.header.response_code == ResultCode::NOERR) ==> step_for(
            qname,
            p,
        ) is None,
        p.header.response_code == ResultCode::NXDOMAIN ==> step_for(qname, p) is None,
        step_for(qname, p) matches Some(Ok(a)) ==> exists|i: int, j: int|
            0 <= i < p.authorities.len() && 0 <= j < p.resources.len() && serves(
                #[trigger] p.authorities[i],
                qname,
            ) && (#[trigger] p.resources[j]) is A && p.resources[j]->A_domain
                == p.authorities[i]->NS_host && p.resources[j]->A_addr == a,
        step_for(qname, p) matches Some(Err(h)) ==> exists|i: int|
            0 <= i < p.authorities.len() && serves(#[trigger] p.authorities[i], qname)
                && p.authorities[i]->NS_host == h,
        !(p.answers.len() > 0 && p.header.response_code == ResultCode::NOERR)
            && p.header.response_code != ResultCode::NXDOMAIN ==> (step_for(qname, p) is None
            <==> forall|i: int| 0 <= i < p.authorities.len() ==> !serves(#[trigger] p.authorities[i], qname)),
{
    lemma_first_server_found(p.authorities, qname);
    lemma_resolved_server_found(p.authorities, p.resources, qname);
    lemma_resolved_has_server(p.authorities, p.resources, qname);
    if step_for(qname, p) matches Some(Ok(a)) {
        let i = choose|i: int|
            0 <= i < p.authorities.len() && serves(#[trigger] p.authorities[i], qname) && address_of(
                p.resources,
                p.authorities[i]->NS_host,
            ) == resolved_server(p.authorities, p.resources, qname);
        lemma_address_found(p.resources, p.authorities[i]->NS_host);
        let j = choose|j: int|
            0 <= j < p.resources.len() && (#[trigger] p.resources[j]) is A
                && p.resources[j]->A_domain == p.authorities[i]->NS_host && p.resources[j]->A_addr
                == address_of(p.resources, p.authorities[i]->NS_host)->0;
        assert(serves(p.authorities[i], qname));
    }
}

/// `first_a` gives the address of the first A record among `rs`, and
/// nothing only where `rs` holds no A record.
pub proof fn lemma_first_a_found(rs: Seq<RecordView>)
    ensures
        first_a(rs) is None <==> forall|i: int| 0 <= i < rs.len() ==> !((#[trigger] rs[i]) is A),
        first_a(rs) is Some ==> exists|i: int|
            0 <= i < rs.len() && (#[trigger] rs[i]) is A && rs[i]->A_addr == first_a(rs)->0
                && forall|k: int| 0 <= k < i ==> !((#[trigger] rs[k]) is A),
    decreases rs.len(),
{
    if rs.len() > 0 {
        let t = rs.drop_first();
        lemma_first_a_found(t);
        assert forall|i: int| 0 < i < rs.len() implies rs[i] == #[trigger] t[i - 1] by {}
        if !(rs[0] is A) {
            if first_a(rs) is Some {
                let i = choose|i: int|
                    0 <= i < t.len() && (#[trigger] t[i]) is A && t[i]->A_addr == first_a(t)->0
                        && forall|k: int| 0 <= k < i ==> !((#[trigger] t[k]) is A);
                assert(rs[i + 1] == t[i]);
                assert forall|k: int| 0 <= k < i + 1 implies !((#[trigger] rs[k]) is A) by {
                    if k > 0 {
                        assert(rs[k] == t[k - 1]);
                    }
                }
            } else {
                assert forall|i: int| 0 <= i < rs.len() implies !((#[trigger] rs[i]) is A) by {
                    if i > 0 {
                        assert(rs[i] == t[i - 1]);
                    }
                }
            }
        }
    }
}

/// A query a resolver sends is a standard query (QR clear, OPCODE 0) with id
/// 6969 and recursion desired as asked, holding the one question for the
/// name and type, counted in its header, and nothing else.
pub proof fn lemma_query_shape(qname: Seq<char>, qtype: QueryType, recursion_desired: bool)
    ensures
        ({
            let p = query_packet(qname, qtype, recursion_desired);
            &&& !p.header.query_or_response
            &&& p.header.opcode == 0
            &&& p.header.id == 6969
            &&& p.header.recursion_desired == recursion_desired
            &&& !p.header.recursion_available
            &&& !p.header.authoritative_answer
            &&& !p.header.truncation
            &&& p.header.response_code == ResultCode::NOERR
            &&& p.header.question_count == 1
            &&& p.header.answer_count == 0
            &&& p.header.authority_count == 0
            &&& p.header.additional_count == 0
            &&& p.questions == seq![QuestionView { name: qname, qtype }]
            &&& p.answers.len() == 0
            &&& p.authorities.len() == 0
            &&& p.resources.len() == 0
        }),
{
}

/// Every message the forwarding server sends back is a response to the
/// request (QR set, the request's id) with recursion desired and
/// available, OPCODE 0 and no other flag set, whether forwarding succeeded
/// or not; its response code is `FORMERR` when the request had no
/// question, `SERVFAIL` when forwarding failed and `NOERR` otherwise. A
/// successful forward holds the question alone and the upstream answer's
/// three record sections as they came; a failed one holds nothing.
pub proof fn lemma_response_shape(id: u16, question: Option<QuestionView>, upstream: Option<PacketView>)
    ensures
        ({
            let h = response_packet(id, question, upstream).header;
            &&& h.query_or_response
            &&& h.id == id
            &&& h.recursion_desired
            &&& h.recursion_available
            &&& h.opcode == 0
            &&& !h.authoritative_answer
            &&& !h.truncation
            &&& !h.z
            &&& !h.checking_disabled
            &&& !h.authenticated_data
            &&& h.response_code == (match question {
                None => ResultCode::FORMERR,
                Some(_) => match upstream {
                    None => ResultCode::SERVFAIL,
                    Some(_) => ResultCode::NOERR,
                },
            })
        }),
        forall|q: QuestionView, up: PacketView|
            #![trigger response_packet(id, Some(q), Some(up))]
            response_packet(id, Some(q), Some(up)).header == (DnsHeader {
                response_code: ResultCode::NOERR,
                ..response_packet(id, Some(q), None).header
            }),
        (question is Some && upstream is Some) ==> ({
            let p = response_packet(id, question, upstream);
            &&& p.questions == seq![question->0]
            &&& p.answers == upstream->0.answers
            &&& p.authorities == upstream->0.authorities
            &&& p.resources == upstream->0.resources
        }),
        !(question is Some && upstream is Some) ==> ({
            let p = response_packet(id, question, upstream);
            &&& p.questions.len() == 0
            &&& p.answers.len() == 0
            &&& p.authorities.len() == 0
            &&& p.resources.len() == 0
        }),
{
}

impl DnsPacket {
    /// The address of the first A record among the answers.
    pub fn get_random_a(&self) -> (r: Option<u32>)
        ensures
            r == first_a(self@.answers),
    {
        let ghost rs = self@.answers;
        let mut i: usize = 0;
        assert(rs.skip(0) =~= rs);
        while i < self.answers.len()
            invariant
                i <= self.answers@.len(),
                rs == record_views(self.answers@),
                first_a(rs) == first_a(rs.skip(i as int)),
            decreases self.answers.len() - i,
        {
            proof {
                assert(rs.len() == self.answers@.len());
                assert(rs.skip(i as int)[0] == self.answers@[i as int]@);
                assert(rs.skip(i as int).drop_first() =~= rs.skip(i + 1));
            }
            match &self.answers[i] {
                DnsRecord::A { addr, .. } => {
                    return Some(*addr);
                },
                _ => {},
            }
            i += 1;
        }
        None
    }

    /// The host of the first name server among the authority records that
    /// serves a zone `qname` lies in.
    pub fn get_unresolved_ns<'a>(&'a self, qname: &str) -> (r: Option<&'a str>)
        ensures
            match r {
                Some(h) => first_server(self@.authorities, qname.spec_bytes()) == Some(h@),
                None => first_server(self@.authorities, qname.spec_bytes()) is None,
            },
    {
        let ghost rs = self@.authorities;
        let mut i: usize = 0;
        assert(rs.skip(0) =~= rs);
        while i < self.authorities.len()
            invariant
                i <= self.authorities@.len(),
                rs == record_views(self.authorities@),
                first_server(rs, qname.spec_bytes()) == first_server(
                    rs.skip(i as int),
                    qname.spec_bytes(),
                ),
            decreases self.authorities.len() - i,
        {
            proof {
                assert(rs.len() == self.authorities@.len());
                assert(rs.skip(i as int)[0] == self.authorities@[i as int]@);
                assert(rs.skip(i as int).drop_first() =~= rs.skip(i + 1));
            }
            match &self.authorities[i] {
                DnsRecord::NS { domain, host, .. } => {
                    if ends_with(qname, domain.as_str()) {
                        return Some(host.as_str());
                    }
                },
                _ => {},
            }
            i += 1;
        }
        None
    }

    /// Among the name servers in the authority records that serve a zone
    /// `qname` lies in, in order, the first whose host has an A record among
    /// the additional records: the address of that A record.
    pub fn get_resolved_ns(&self, qname: &str) -> (r: Option<u32>)
        ensures
            r == resolved_server(self@.authorities, self@.resources, qname.spec_bytes()),
    {
        let ghost rs = self@.authorities;
        let mut i: usize = 0;
        assert(rs.skip(0) =~= rs);
        while i < self.authorities.len()
            invariant
                i <= self.authorities@.len(),
                rs == record_views(self.authorities@),
                resolved_server(rs, self@.resources, qname.spec_bytes()) == resolved_server(
                    rs.skip(i as int),
                    self@.resources,
                    qname.spec_bytes(),
                ),
            decreases self.authorities.len() - i,
        {
            proof {
                assert(rs.len() == self.authorities@.len());
                assert(rs.skip(i as int)[0] == self.authorities@[i as int]@);
                assert(rs.skip(i as int).drop_first() =~= rs.skip(i + 1));
            }
            match &self.authorities[i] {
                DnsRecord::NS { domain, host, .. } => {
                    if ends_with(qname, domain.as_str()) {
                        let found = address_in(&self.resources, host);
                        if found.is_some() {
                            return found;
                        }
                    }
                },
                _ => {},
            }
            i += 1;
        }
        None
    }
}

/// The address of the first A record among `records` whose owner is
/// `host`.
fn address_in(records: &Vec<DnsRecord>, host: &String) -> (r: Option<u32>)
    ensures
        r == address_of(record_views(records@), host@),
{
    let ghost rs = record_views(records@);
    let mut i: usize = 0;
    assert(rs.skip(0) =~= rs);
    while i < records.len()
        invariant
            i <= records@.len(),
            rs == record_views(records@),
            address_of(rs, host@) == address_of(rs.skip(i as int), host@),
        decreases records.len() - i,
    {
        proof {
            assert(rs.len() == records@.len());
            assert(rs.skip(i as int)[0] == records@[i as int]@);
            assert(rs.skip(i as int).drop_first() =~= rs.skip(i + 1));
        }
        match &records[i] {
            DnsRecord::A { domain, addr, .. } => {
                if *domain == *host {
                    return Some(*addr);
                }
            },
            _ => {},
        }
        i += 1;
    }
    None
}

/// Decides what a resolver does with the response `response` to its
/// question about `qname`: hand it back when it has answers and no error,
/// or when it says the name does not exist; else ask a name server it
/// names whose address it also gives; else resolve the host of a name
/// server it names; else hand it back.
pub fn next_step(qname: &str, response: &DnsPacket) -> (s: LookupStep)
    ensures
        match s {
            LookupStep::Done => step_for(qname.spec_bytes(), response@) is None,
            LookupStep::AskServer(a) => step_for(qname.spec_bytes(), response@) == Some(
                Ok::<u32, Seq<char>>(a),
            ),
            LookupStep::ResolveServer(h) => step_for(qname.spec_bytes(), response@) == Some(
                Err::<u32, Seq<char>>(h@),
            ),
        },
{
    if response.answers.len() > 0 && response.header.response_code == ResultCode::NOERR {
        return LookupStep::Done;
    }
    if response.header.response_code == ResultCode::NXDOMAIN {
        return LookupStep::Done;
    }
    if let Some(ns) = response.get_resolved_ns(qname) {
        return LookupStep::AskServer(ns);
    }
    match response.get_unresolved_ns(qname) {
        Some(host) => LookupStep::ResolveServer(host.to_owned()),
        None => LookupStep::Done,
    }
}

/// What a resolver does once it has resolved the name server that a
/// referral named, with `resolved` the response to that resolution: ask the
/// first address among its answers, or, where it has none, hand back the
/// response that held the referral.
pub fn step_after_resolving(resolved: &DnsPacket) -> (s: LookupStep)
    ensures
        match first_a(resolved@.answers) {
            Some(a) => s == LookupStep::AskServer(a),
            None => s is Done,
        },
{
    match resolved.get_random_a() {
        Some(addr) => LookupStep::AskServer(addr),
        None => LookupStep::Done,
    }
}

/// The query packet for `qname` and `qtype`: id 6969, one question, and the
/// recursion-desired flag as given.
pub open spec fn query_packet(qname: Seq<char>, qtype: QueryType, recursion_desired: bool) -> PacketView {
    PacketView {
        header: DnsHeader { id: 6969, question_count: 1, recursion_desired, ..empty_header() },
        questions: seq![QuestionView { name: qname, qtype }],
        answers: Seq::empty(),
        authorities: Seq::empty(),
        resources: Seq::empty(),
    }
}

/// Builds the query packet a resolver sends for `qname` and `qtype`.
pub fn build_query(qname: &str, qtype: QueryType, recursion_desired: bool) -> (p: DnsPacket)
    ensures
        p@ == query_packet(qname@, qtype, recursion_desired),
{
    let mut packet = DnsPacket::new();
    packet.header.id = 6969;
    packet.header.question_count = 1;
    packet.header.recursion_desired = recursion_desired;
    packet.questions.push(DnsQuestion::new(qname.to_owned(), qtype));
    assert(packet@.questions =~= seq![QuestionView { name: qname@, qtype }]);
    packet
}

/// The response a forwarding server sends for a request with id `id`:
/// a response with recursion desired and available, which is `FORMERR`
/// when the request had no question, `SERVFAIL` when forwarding the
/// question failed, and otherwise holds the question and the sections of
/// the upstream answer.
pub open spec fn response_packet(id: u16, question: Option<QuestionView>, upstream: Option<PacketView>) -> PacketView {
    let header = DnsHeader {
        id,
        recursion_desired: true,
        recursion_available: true,
        query_or_response: true,
        ..empty_header()
    };
    match question {
        None => PacketView {
            header: DnsHeader { response_code: ResultCode::FORMERR, ..header },
            questions: Seq::empty(),
            answers: Seq::empty(),
            authorities: Seq::empty(),
            resources: Seq::empty(),
        },
        Some(q) => match upstream {
            None => PacketView {
                header: DnsHeader { response_code: ResultCode::SERVFAIL, ..header },
                questions: Seq::empty(),
                answers: Seq::empty(),
                authorities: Seq::empty(),
                resources: Seq::empty(),
            },
            Some(up) => PacketView {
                header,
                questions: seq![q],
                answers: up.answers,
                authorities: up.authorities,
                resources: up.resources,
            },
        },
    }
}

/// Builds the response a forwarding server sends for a request with id
/// `id`, given the request's last question (if it had one) and the
/// upstream server's answer to it (if forwarding succeeded).
pub fn build_response(id: u16, question: Option<DnsQuestion>, upstream: Option<DnsPacket>) -> (p:
    DnsPacket)
    ensures
        p@ == response_packet(
            id,
            match question {
                Some(q) => Some(q@),
                None => None,
            },
            match upstream {
                Some(u) => Some(u@),
                None => None,
            },
        ),
{
    let mut packet = DnsPacket::new();
    packet.header.id = id;
    packet.header.recursion_desired = true;
    packet.header.recursion_available = true;
    packet.header.query_or_response = true;

    match question {
        Some(question) => {
            match upstream {
                Some(result) => {
                    let ghost q = question@;
                    packet.questions.push(question);
                    packet.answers = result.answers;
                    packet.authorities = result.authorities;
                    packet.resources = result.resources;
                    assert(packet@.questions =~= seq![q]);
                },
                None => {
                    packet.header.response_code = ResultCode::SERVFAIL;
                },
            }
        },
        None => {
            packet.header.response_code = ResultCode::FORMERR;
        },
    }
    packet
}

} // verus!

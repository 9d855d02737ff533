use crate::codec::{
    answers_view, dotted, parse_packet, labels_of_text, name_ok, packet_ok, question_ok, questions_view, record_ok,
    DnsName, DnsPacket, DnsQuestion, DnsRecord, PacketView, QuestionView, RecordView, CLASS_IN,
    TYPE_PTR,
};
use crate::error::MdnsError;
use crate::registry::{copy_service, upsert_node, upsert_service, MdnsRegistry, NodeRecord, NodeView, ServiceRecord};
use crate::text::{ipv4_string, ipv4_text, string_from_utf8};
use vstd::prelude::*;
use vstd::utf8::{decode_utf8, encode_utf8, valid_utf8};

verus! {

/// Header flags of a response: QR and AA set.
pub const RESPONSE_FLAGS: u16 = 0x8400;

/// Header flags of a query.
pub const QUERY_FLAGS: u16 = 0x0000;

/// TTL of records whose service gave none.
pub const DEFAULT_TTL: u32 = 120;

/// Most services the registry takes: three answers each must fit a 16-bit count.
pub const MAX_SERVICES: usize = 21845;

/// The labels that the text `s` names.
pub open spec fn name_of(s: Seq<char>) -> Seq<Seq<u8>> {
    labels_of_text(encode_utf8(s))
}

/// A service whose id, type and origin are valid names.
pub open spec fn service_ok(s: ServiceRecord) -> bool {
    &&& name_ok(name_of(s.id@))
    &&& name_ok(name_of(s.service_type@))
    &&& name_ok(name_of(s.origin@))
}

pub open spec fn ttl_of(s: ServiceRecord) -> u32 {
    match s.ttl {
        Some(t) => t,
        None => DEFAULT_TTL,
    }
}

pub open spec fn or_zero(o: Option<u16>) -> u16 {
    match o {
        Some(v) => v,
        None => 0,
    }
}

pub open spec fn ip_view(ip: Option<[u8; 4]>) -> Option<Seq<u8>> {
    match ip {
        Some(a) => Some(a@),
        None => None,
    }
}

/// The answers for one service: PTR, SRV, then an A record where an address is given.
pub open spec fn service_answers(s: ServiceRecord, ip: Option<Seq<u8>>) -> Seq<RecordView> {
    let base = seq![
        RecordView::PTR { name: name_of(s.service_type@), ttl: ttl_of(s), ptr_name: name_of(s.id@) },
        RecordView::SRV {
            name: name_of(s.id@),
            ttl: ttl_of(s),
            priority: or_zero(s.priority),
            weight: or_zero(s.weight),
            port: s.port,
            target: name_of(s.origin@),
        },
    ];
    match ip {
        Some(a) => base.push(RecordView::A { name: name_of(s.origin@), ttl: ttl_of(s), ip: a }),
        None => base,
    }
}

/// The answers for a list of services, service by service.
pub open spec fn answers_for(ss: Seq<ServiceRecord>, ip: Option<Seq<u8>>) -> Seq<RecordView>
    decreases ss.len(),
{
    if ss.len() == 0 {
        Seq::empty()
    } else {
        answers_for(ss.drop_last(), ip) + service_answers(ss.last(), ip)
    }
}

/// An authoritative response carrying the answers for `ss`.
pub open spec fn response_view(ss: Seq<ServiceRecord>, ip: Option<Seq<u8>>) -> PacketView {
    PacketView { flags: RESPONSE_FLAGS, questions: Seq::empty(), answers: answers_for(ss, ip) }
}

/// A service matches a question name when its type's bytes are exactly the name's dotted text.
pub open spec fn type_matches(s: ServiceRecord, qname: Seq<Seq<u8>>) -> bool {
    encode_utf8(s.service_type@) == dotted(qname)
}

/// The services whose type matches `qname`, in registry order.
pub open spec fn matching_services(ss: Seq<ServiceRecord>, qname: Seq<Seq<u8>>) -> Seq<ServiceRecord>
    decreases ss.len(),
{
    if ss.len() == 0 {
        Seq::empty()
    } else if type_matches(ss.last(), qname) {
        matching_services(ss.drop_last(), qname).push(ss.last())
    } else {
        matching_services(ss.drop_last(), qname)
    }
}

/// Whether a question asks for services: type PTR, class IN.
pub open spec fn is_service_question(q: QuestionView) -> bool {
    q.qtype == TYPE_PTR && q.qclass == CLASS_IN
}

/// One response per PTR/IN question that some service matches, in question order.
pub open spec fn query_responses(qs: Seq<QuestionView>, ss: Seq<ServiceRecord>, src: Option<Seq<u8>>) -> Seq<PacketView>
    decreases qs.len(),
{
    if qs.len() == 0 {
        Seq::empty()
    } else {
        let prev = query_responses(qs.drop_last(), ss, src);
        let q = qs.last();
        if is_service_question(q) && matching_services(ss, q.name).len() > 0 {
            prev.push(response_view(matching_services(ss, q.name), src))
        } else {
            prev
        }
    }
}

/// The node that an A record describes, when its name is valid UTF-8 text.
pub open spec fn node_of(r: RecordView) -> Option<NodeView> {
    match r {
        RecordView::A { name, ttl, ip } => if valid_utf8(dotted(name)) {
            Some(NodeView { id: decode_utf8(dotted(name)), ip_address: ipv4_text(ip), ttl: Some(ttl) })
        } else {
            None
        },
        _ => None,
    }
}

/// The nodes after absorbing the A records among `answers`, in order.
pub open spec fn absorb(nodes: Seq<NodeView>, answers: Seq<RecordView>) -> Seq<NodeView>
    decreases answers.len(),
{
    if answers.len() == 0 {
        nodes
    } else {
        let prev = absorb(nodes, answers.drop_last());
        match node_of(answers.last()) {
            Some(n) => upsert_node(prev, n),
            None => prev,
        }
    }
}

pub open spec fn packets_view(v: Seq<DnsPacket>) -> Seq<PacketView> {
    v.map_values(|p: DnsPacket| p@)
}

/// The name that a text stands for; the text must be a valid name.
fn name_from(s: &String) -> (r: DnsName)
    requires
        name_ok(name_of(s@)),
    ensures
        r@ == name_of(s@),
{
    match DnsName::new(s.as_str()) {
        Ok(n) => n,
        Err(_) => {
            proof {
                assert(false);
            }
            DnsName { labels: Vec::new() }
        },
    }
}

/// Appends the PTR, SRV and (where an address is given) A records for one service.
fn push_service_answers(out: &mut Vec<DnsRecord>, s: &ServiceRecord, ip: Option<[u8; 4]>)
    requires
        service_ok(*s),
    ensures
        answers_view(final(out)@) == answers_view(old(out)@) + service_answers(*s, ip_view(ip)),
{
    let ttl: u32 = match s.ttl {
        Some(t) => t,
        None => DEFAULT_TTL,
    };
    let priority: u16 = match s.priority {
        Some(v) => v,
        None => 0,
    };
    let weight: u16 = match s.weight {
        Some(v) => v,
        None => 0,
    };
    out.push(DnsRecord::PTR { name: name_from(&s.service_type), ttl, ptr_name: name_from(&s.id) });
    out.push(
        DnsRecord::SRV {
            name: name_from(&s.id),
            ttl,
            priority,
            weight,
            port: s.port,
            target: name_from(&s.origin),
        },
    );
    match ip {
        Some(a) => {
            out.push(DnsRecord::A { name: name_from(&s.origin), ttl, ip: a });
        },
        None => {},
    }
    assert(answers_view(final(out)@) =~= answers_view(old(out)@) + service_answers(*s, ip_view(ip)));
}

proof fn lemma_answers_ok(ss: Seq<ServiceRecord>, ip: Option<Seq<u8>>)
    requires
        forall|i: int| 0 <= i < ss.len() ==> service_ok(#[trigger] ss[i]),
        ip matches Some(a) ==> a.len() == 4,
    ensures
        answers_for(ss, ip).len() <= 3 * ss.len(),
        forall|i: int| 0 <= i < answers_for(ss, ip).len() ==> record_ok(#[trigger] answers_for(ss, ip)[i]),
    decreases ss.len(),
{
    if ss.len() > 0 {
        let p = ss.drop_last();
        assert forall|i: int| 0 <= i < p.len() implies service_ok(#[trigger] p[i]) by {
            assert(p[i] == ss[i]);
        }
        lemma_answers_ok(p, ip);
        assert(service_ok(ss.last()));
        let a = answers_for(ss, ip);
        let pa = answers_for(p, ip);
        assert forall|i: int| 0 <= i < a.len() implies record_ok(#[trigger] a[i]) by {
            if i < pa.len() {
                assert(a[i] == pa[i]);
            }
        }
    }
}

/// An authoritative response with the answers for every service of `ss`, in order.
fn build_response(ss: &Vec<ServiceRecord>, ip: Option<[u8; 4]>) -> (r: DnsPacket)
    requires
        forall|i: int| 0 <= i < ss@.len() ==> service_ok(#[trigger] ss@[i]),
        ss@.len() <= MAX_SERVICES,
    ensures
        r@ == response_view(ss@, ip_view(ip)),
        packet_ok(r@),
{
    let mut p = DnsPacket::new();
    p.flags = RESPONSE_FLAGS;
    let mut i: usize = 0;
    while i < ss.len()
        invariant
            i <= ss@.len(),
            forall|k: int| 0 <= k < ss@.len() ==> service_ok(#[trigger] ss@[k]),
            p@ == response_view(ss@.take(i as int), ip_view(ip)),
        decreases ss@.len() - i,
    {
        assert(service_ok(ss@[i as int]));
        push_service_answers(&mut p.answers, &ss[i], ip);
        proof {
            assert(ss@.take(i + 1).drop_last() =~= ss@.take(i as int));
        }
        i = i + 1;
    }
    proof {
        assert(ss@.take(i as int) =~= ss@);
        lemma_answers_ok(ss@, ip_view(ip));
        assert(p@.questions =~= Seq::<QuestionView>::empty());
    }
    p
}

/// Whether two byte strings are equal.
fn bytes_equal(a: &[u8], b: &[u8]) -> (r: bool)
    ensures
        r == (a@ == b@),
{
    if a.len() != b.len() {
        return false;
    }
    let mut i: usize = 0;
    while i < a.len()
        invariant
            i <= a@.len(),
            a@.len() == b@.len(),
            forall|k: int| 0 <= k < i ==> a@[k] == b@[k],
        decreases a@.len() - i,
    {
        if a[i] != b[i] {
            return false;
        }
        i = i + 1;
    }
    assert(a@ =~= b@);
    true
}

/// The services of `ss` whose type is exactly the dotted text of `qname`, in order.
fn services_matching(ss: &Vec<ServiceRecord>, qname: &DnsName) -> (r: Vec<ServiceRecord>)
    ensures
        r@ == matching_services(ss@, qname@),
{
    let text = qname.text_bytes();
    let mut r: Vec<ServiceRecord> = Vec::new();
    let mut i: usize = 0;
    while i < ss.len()
        invariant
            i <= ss@.len(),
            text@ == dotted(qname@),
            r@ == matching_services(ss@.take(i as int), qname@),
        decreases ss@.len() - i,
    {
        proof {
            assert(ss@.take(i + 1).drop_last() =~= ss@.take(i as int));
            assert(ss@.take(i + 1).last() == ss@[i as int]);
        }
        if bytes_equal(ss[i].service_type.as_str().as_bytes(), text.as_slice()) {
            r.push(copy_service(&ss[i]));
        }
        i = i + 1;
    }
    assert(ss@.take(i as int) =~= ss@);
    r
}

proof fn lemma_matching_subset(ss: Seq<ServiceRecord>, qname: Seq<Seq<u8>>)
    ensures
        matching_services(ss, qname).len() <= ss.len(),
        forall|i: int| 0 <= i < matching_services(ss, qname).len() ==>
            ss.contains(#[trigger] matching_services(ss, qname)[i]),
    decreases ss.len(),
{
    if ss.len() > 0 {
        let p = ss.drop_last();
        lemma_matching_subset(p, qname);
        let m = matching_services(ss, qname);
        let pm = matching_services(p, qname);
        assert forall|i: int| 0 <= i < m.len() implies ss.contains(#[trigger] m[i]) by {
            if i < pm.len() {
                assert(m[i] == pm[i]);
                assert(p.contains(pm[i]));
                let k = choose|k: int| 0 <= k < p.len() && p[k] == pm[i];
                assert(ss[k] == p[k]);
            } else {
                assert(m[i] == ss.last());
                assert(ss[ss.len() - 1] == ss.last());
            }
        }
    }
}

/// A question name matches a service exactly when the name's text, read as UTF-8, is the
/// service's type character for character.
pub proof fn lemma_type_match_is_exact(s: ServiceRecord, qname: Seq<Seq<u8>>)
    ensures
        type_matches(s, qname) <==> (valid_utf8(dotted(qname)) && s.service_type@ == decode_utf8(dotted(qname))),
{
    broadcast use vstd::utf8::group_utf8_lib;

    if type_matches(s, qname) {
        assert(decode_utf8(encode_utf8(s.service_type@)) == s.service_type@);
    }
    if valid_utf8(dotted(qname)) && s.service_type@ == decode_utf8(dotted(qname)) {
        assert(encode_utf8(decode_utf8(dotted(qname))) == dotted(qname));
    }
}

/// The services that answer a question are exactly those of matching type, and in order.
pub proof fn lemma_matching_is_filter(ss: Seq<ServiceRecord>, qname: Seq<Seq<u8>>)
    ensures
        matching_services(ss, qname) == ss.filter(|s: ServiceRecord| type_matches(s, qname)),
    decreases ss.len(),
{
    reveal(Seq::filter);
    if ss.len() > 0 {
        lemma_matching_is_filter(ss.drop_last(), qname);
    }
}

/// The protocol engine: the registry and the rules that read and fill it.
pub struct MdnsService {
    pub registry: MdnsRegistry,
}

impl MdnsService {
    /// The registry is well formed, every service has valid names, and their answers fit a message.
    pub open spec fn wf(&self) -> bool {
        &&& self.registry.wf()
        &&& self.registry.services().len() <= MAX_SERVICES
        &&& forall|i: int| 0 <= i < self.registry.services().len() ==> service_ok(#[trigger] self.registry.services()[i])
    }

    pub open spec fn services(&self) -> Seq<ServiceRecord> {
        self.registry.services()
    }

    pub open spec fn nodes(&self) -> Seq<NodeView> {
        self.registry.nodes()
    }

    /// An engine with an empty registry.
    pub fn new() -> (r: MdnsService)
        ensures
            r.wf(),
            r.services() == Seq::<ServiceRecord>::empty(),
            r.nodes() == Seq::<NodeView>::empty(),
    {
        MdnsService { registry: MdnsRegistry::new() }
    }

    /// Registers a service with priority and weight 0, replacing one with the same id.
    /// Fails when the id, type or origin is not a valid name, or when the id is new
    /// and the registry already holds its maximum of services.
    pub fn register_local_service(
        &mut self,
        id: String,
        service_type: String,
        port: u16,
        ttl: Option<u32>,
        origin: String,
    ) -> (r: Result<(), MdnsError>)
        requires
            old(self).wf(),
        ensures
            final(self).wf(),
            final(self).nodes() == old(self).nodes(),
            !(name_ok(name_of(id@)) && name_ok(name_of(service_type@)) && name_ok(name_of(origin@)))
                ==> r == Err::<(), MdnsError>(MdnsError::InvalidName) && final(self).services() == old(self).services(),
            (name_ok(name_of(id@)) && name_ok(name_of(service_type@)) && name_ok(name_of(origin@))
                && old(self).services().len() == MAX_SERVICES
                && !(exists|i: int| 0 <= i < old(self).services().len() && old(self).services()[i].id@ == id@))
                ==> r == Err::<(), MdnsError>(MdnsError::RegistryFull) && final(self).services() == old(self).services(),
            r is Ok ==> final(self).services() == upsert_service(
                old(self).services(),
                (ServiceRecord { id, service_type, port, ttl, origin, priority: Some(0u16), weight: Some(0u16) }),
            ),
            (name_ok(name_of(id@)) && name_ok(name_of(service_type@)) && name_ok(name_of(origin@))
                && (old(self).services().len() < MAX_SERVICES
                || exists|i: int| 0 <= i < old(self).services().len() && old(self).services()[i].id@ == id@))
                ==> r is Ok,
    {
        let a = DnsName::new(id.as_str());
        let b = DnsName::new(service_type.as_str());
        let c = DnsName::new(origin.as_str());
        if a.is_err() || b.is_err() || c.is_err() {
            return Err(MdnsError::InvalidName);
        }
        if self.registry.service_count() >= MAX_SERVICES && !self.registry.has_service(&id) {
            return Err(MdnsError::RegistryFull);
        }
        let service = ServiceRecord { id, service_type, port, ttl, origin, priority: Some(0), weight: Some(0) };
        let ghost old_s = self.registry.services();
        self.registry.add_service(service);
        proof {
            let t = self.registry.services();
            assert(service_ok(service));
            assert forall|i: int| 0 <= i < t.len() implies service_ok(#[trigger] t[i]) by {
                if exists|j: int| 0 <= j < old_s.len() && old_s[j].id@ == service.id@ {
                    let c = choose|j: int| 0 <= j < old_s.len() && old_s[j].id@ == service.id@;
                    if i != c {
                        assert(t[i] == old_s[i]);
                    }
                } else {
                    if i < old_s.len() {
                        assert(t[i] == old_s[i]);
                    }
                }
            }
        }
        Ok(())
    }

    /// An advertisement of every registered service, with `local_ip` in the A records.
    /// With no service it is an empty response and the address is not needed; with
    /// services and no address it fails.
    pub fn create_advertise_packet(&self, local_ip: Option<[u8; 4]>) -> (r: Result<DnsPacket, MdnsError>)
        requires
            self.wf(),
        ensures
            self.services().len() == 0 ==> (r matches Ok(p) && p@ == response_view(self.services(), None)),
            self.services().len() > 0 && local_ip is None ==> r == Err::<DnsPacket, MdnsError>(MdnsError::NoLocalAddress),
            self.services().len() > 0 && local_ip is Some ==> (r matches Ok(p) && p@ == response_view(self.services(), ip_view(local_ip))),
            r matches Ok(p) ==> packet_ok(p@),
    {
        let services = self.registry.list_services();
        if services.len() == 0 {
            return Ok(build_response(&services, None));
        }
        match local_ip {
            None => Err(MdnsError::NoLocalAddress),
            Some(ip) => Ok(build_response(&services, Some(ip))),
        }
    }

    /// The responses to a query from `src` (None where it is not an IPv4 address): one
    /// per PTR/IN question that some service's type matches exactly, each with the
    /// answers of the matching services and `src` in their A records.
    pub fn process_query(&self, packet: &DnsPacket, src: Option<[u8; 4]>) -> (r: Vec<DnsPacket>)
        requires
            self.wf(),
        ensures
            packets_view(r@) == query_responses(packet@.questions, self.services(), ip_view(src)),
            forall|i: int| 0 <= i < r@.len() ==> packet_ok(#[trigger] r@[i]@),
    {
        let services = self.registry.list_services();
        let ghost qs = packet@.questions;
        let mut out: Vec<DnsPacket> = Vec::new();
        let mut i: usize = 0;
        while i < packet.questions.len()
            invariant
                i <= qs.len(),
                qs == packet@.questions,
                services@ == self.services(),
                self.wf(),
                packets_view(out@) == query_responses(qs.take(i as int), self.services(), ip_view(src)),
                forall|k: int| 0 <= k < out@.len() ==> packet_ok(#[trigger] out@[k]@),
            decreases qs.len() - i,
        {
            let q = &packet.questions[i];
            proof {
                assert(qs.take(i + 1).drop_last() =~= qs.take(i as int));
                assert(qs.take(i + 1).last() == q@);
            }
            if q.qtype == TYPE_PTR && q.qclass == CLASS_IN {
                let matching = services_matching(&services, &q.qname);
                if matching.len() > 0 {
                    proof {
                        lemma_matching_subset(services@, q.qname@);
                        assert forall|k: int| 0 <= k < matching@.len() implies service_ok(#[trigger] matching@[k]) by {
                            assert(services@.contains(matching@[k]));
                        }
                    }
                    let resp = build_response(&matching, src);
                    let ghost before = packets_view(out@);
                    out.push(resp);
                    assert(packets_view(out@) =~= before.push(resp@));
                }
            }
            i = i + 1;
        }
        assert(qs.take(i as int) =~= qs);
        out
    }

    /// Absorbs the A records of a response, in order: each names a node by the record's
    /// name, with the dotted-decimal address and the record's TTL, replacing a node with
    /// the same id.
    pub fn process_response(&mut self, packet: &DnsPacket)
        requires
            old(self).wf(),
        ensures
            final(self).wf(),
            final(self).services() == old(self).services(),
            final(self).nodes() == absorb(old(self).nodes(), packet@.answers),
    {
        let ghost answers = packet@.answers;
        let ghost n0 = self.nodes();
        let mut i: usize = 0;
        while i < packet.answers.len()
            invariant
                i <= answers.len(),
                answers == packet@.answers,
                self.wf(),
                self.services() == old(self).services(),
                n0 == old(self).nodes(),
                self.nodes() == absorb(n0, answers.take(i as int)),
            decreases answers.len() - i,
        {
            proof {
                assert(answers.take(i + 1).drop_last() =~= answers.take(i as int));
                assert(answers.take(i + 1).last() == packet.answers@[i as int]@);
            }
            match &packet.answers[i] {
                DnsRecord::A { name, ttl, ip } => {
                    let text = name.text_bytes();
                    match string_from_utf8(text) {
                        Some(id) => {
                            let node = NodeRecord { id, ip_address: ipv4_string(*ip), ttl: Some(*ttl) };
                            self.registry.add_node(node);
                        },
                        None => {},
                    }
                },
                _ => {},
            }
            i = i + 1;
        }
        assert(answers.take(i as int) =~= answers);
    }

    /// Handles one datagram: bytes that do not decode are dropped; a response is absorbed,
    /// whatever its source; a query gives the responses to send, with `src` (None where it
    /// is not an IPv4 address) in their A records.
    pub fn handle_datagram(&mut self, bytes: &[u8], src: Option<[u8; 4]>) -> (r: Vec<DnsPacket>)
        requires
            old(self).wf(),
        ensures
            final(self).wf(),
            final(self).services() == old(self).services(),
            match parse_packet(bytes@) {
                None => r@.len() == 0 && final(self).nodes() == old(self).nodes(),
                Some(m) => if m.flags & 0x8000 != 0 {
                    &&& r@.len() == 0
                    &&& final(self).nodes() == absorb(old(self).nodes(), m.answers)
                } else {
                    &&& packets_view(r@) == query_responses(m.questions, old(self).services(), ip_view(src))
                    &&& forall|i: int| 0 <= i < r@.len() ==> packet_ok(#[trigger] r@[i]@)
                    &&& final(self).nodes() == old(self).nodes()
                },
            },
    {
        match DnsPacket::parse(bytes) {
            Err(_) => Vec::new(),
            Ok(packet) => {
                if packet.is_response() {
                    self.process_response(&packet);
                    Vec::new()
                } else {
                    self.process_query(&packet, src)
                }
            },
        }
    }

    /// A query (all flags clear) with one PTR/IN question for `service_type`; fails when
    /// it is not a valid name.
    pub fn query_packet(service_type: &str) -> (r: Result<DnsPacket, MdnsError>)
        ensures
            name_ok(name_of(service_type@)) ==> (r matches Ok(p) && p@ == (PacketView {
                flags: QUERY_FLAGS,
                questions: seq![QuestionView { name: name_of(service_type@), qtype: TYPE_PTR, qclass: CLASS_IN }],
                answers: Seq::empty(),
            }) && packet_ok(p@)),
            !name_ok(name_of(service_type@)) ==> r == Err::<DnsPacket, MdnsError>(MdnsError::InvalidName),
    {
        let qname = match DnsName::new(service_type) {
            Ok(n) => n,
            Err(e) => return Err(e),
        };
        let mut p = DnsPacket::new();
        p.flags = QUERY_FLAGS;
        p.questions.push(DnsQuestion { qname, qtype: TYPE_PTR, qclass: CLASS_IN });
        assert(p@.questions =~= seq![QuestionView { name: name_of(service_type@), qtype: TYPE_PTR, qclass: CLASS_IN }]);
        Ok(p)
    }
}

} // verus!

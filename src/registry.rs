use vstd::prelude::*;

verus! {

/// A locally registered service.
#[derive(Debug, Clone)]
pub struct ServiceRecord {
    pub id: String,
    pub service_type: String,
    pub port: u16,
    pub ttl: Option<u32>,
    pub origin: String,
    pub priority: Option<u16>,
    pub weight: Option<u16>,
}

/// A node discovered on the network.
#[derive(Debug, Clone)]
pub struct NodeRecord {
    pub id: String,
    pub ip_address: String,
    pub ttl: Option<u32>,
}

pub struct NodeView {
    pub id: Seq<char>,
    pub ip_address: Seq<char>,
    pub ttl: Option<u32>,
}

impl View for NodeRecord {
    type V = NodeView;

    open spec fn view(&self) -> NodeView {
        NodeView { id: self.id@, ip_address: self.ip_address@, ttl: self.ttl }
    }
}

pub open spec fn service_ids_unique(s: Seq<ServiceRecord>) -> bool {
    forall|i: int, j: int| 0 <= i < s.len() && 0 <= j < s.len() && i != j ==> s[i].id@ != s[j].id@
}

pub open spec fn node_ids_unique(s: Seq<NodeView>) -> bool {
    forall|i: int, j: int| 0 <= i < s.len() && 0 <= j < s.len() && i != j ==> s[i].id != s[j].id
}

/// Inserts `r`, or replaces the entry with the same id in place.
pub open spec fn upsert_service(s: Seq<ServiceRecord>, r: ServiceRecord) -> Seq<ServiceRecord> {
    if exists|i: int| 0 <= i < s.len() && s[i].id@ == r.id@ {
        s.update(choose|i: int| 0 <= i < s.len() && s[i].id@ == r.id@, r)
    } else {
        s.push(r)
    }
}

/// Inserts `n`, or replaces the entry with the same id in place.
pub open spec fn upsert_node(s: Seq<NodeView>, n: NodeView) -> Seq<NodeView> {
    if exists|i: int| 0 <= i < s.len() && s[i].id == n.id {
        s.update(choose|i: int| 0 <= i < s.len() && s[i].id == n.id, n)
    } else {
        s.push(n)
    }
}

pub open spec fn nodes_view(v: Seq<NodeRecord>) -> Seq<NodeView> {
    v.map_values(|n: NodeRecord| n@)
}

/// Services and nodes, each keyed by id; a later entry with an id replaces the earlier one.
pub struct MdnsRegistry {
    pub services: Vec<ServiceRecord>,
    pub nodes: Vec<NodeRecord>,
}

pub fn copy_service(s: &ServiceRecord) -> (r: ServiceRecord)
    ensures
        r == *s,
{
    ServiceRecord {
        id: s.id.clone(),
        service_type: s.service_type.clone(),
        port: s.port,
        ttl: s.ttl,
        origin: s.origin.clone(),
        priority: s.priority,
        weight: s.weight,
    }
}

pub fn copy_node(n: &NodeRecord) -> (r: NodeRecord)
    ensures
        r == *n,
{
    NodeRecord { id: n.id.clone(), ip_address: n.ip_address.clone(), ttl: n.ttl }
}

impl MdnsRegistry {
    pub open spec fn services(&self) -> Seq<ServiceRecord> {
        self.services@
    }

    pub open spec fn nodes(&self) -> Seq<NodeView> {
        nodes_view(self.nodes@)
    }

    pub open spec fn wf(&self) -> bool {
        service_ids_unique(self.services()) && node_ids_unique(self.nodes())
    }

    /// An empty registry.
    pub fn new() -> (r: MdnsRegistry)
        ensures
            r.wf(),
            r.services() == Seq::<ServiceRecord>::empty(),
            r.nodes() == Seq::<NodeView>::empty(),
    {
        let r = MdnsRegistry { services: Vec::new(), nodes: Vec::new() };
        assert(r.nodes() =~= Seq::<NodeView>::empty());
        r
    }

    /// The number of registered services.
    pub fn service_count(&self) -> (r: usize)
        ensures
            r == self.services().len(),
    {
        self.services.len()
    }

    /// Whether a service with this id is registered.
    pub fn has_service(&self, id: &String) -> (r: bool)
        ensures
            r == exists|i: int| 0 <= i < self.services().len() && self.services()[i].id@ == id@,
    {
        let mut i: usize = 0;
        while i < self.services.len()
            invariant
                i <= self.services@.len(),
                forall|k: int| 0 <= k < i ==> self.services@[k].id@ != id@,
            decreases self.services@.len() - i,
        {
            if self.services[i].id == *id {
                return true;
            }
            i = i + 1;
        }
        false
    }

    /// Inserts the service, or replaces the one with the same id where it stands.
    pub fn add_service(&mut self, service: ServiceRecord)
        requires
            old(self).wf(),
        ensures
            final(self).wf(),
            final(self).services() == upsert_service(old(self).services(), service),
            final(self).nodes() == old(self).nodes(),
    {
        let ghost s = self.services@;
        let mut i: usize = 0;
        while i < self.services.len()
            invariant
                i <= s.len(),
                self.services@ == s,
                self.nodes@ == old(self).nodes@,
                s == old(self).services@,
                service_ids_unique(s),
                node_ids_unique(old(self).nodes()),
                forall|k: int| 0 <= k < i ==> s[k].id@ != service.id@,
            decreases s.len() - i,
        {
            if self.services[i].id == service.id {
                proof {
                    assert(s[i as int].id@ == service.id@);
                    let c = choose|j: int| 0 <= j < s.len() && s[j].id@ == service.id@;
                    assert(c == i);
                }
                self.services.set(i, service);
                proof {
                    let t = self.services@;
                    assert(t == s.update(i as int, service));
                    assert forall|a: int, b: int| 0 <= a < t.len() && 0 <= b < t.len() && a != b implies t[a].id@ != t[b].id@ by {
                        if a != i && b != i {
                            assert(t[a] == s[a] && t[b] == s[b]);
                        } else if a == i {
                            assert(t[b] == s[b]);
                        } else {
                            assert(t[a] == s[a]);
                        }
                    }
                    assert(service_ids_unique(self.services()));
                    assert(node_ids_unique(self.nodes()));
                }
                return;
            }
            i = i + 1;
        }
        self.services.push(service);
        proof {
            let t = self.services@;
            assert(t == s.push(service));
            assert forall|a: int, b: int| 0 <= a < t.len() && 0 <= b < t.len() && a != b implies t[a].id@ != t[b].id@ by {
                if a < s.len() && b < s.len() {
                    assert(t[a] == s[a] && t[b] == s[b]);
                } else if a < s.len() {
                    assert(t[a] == s[a]);
                } else {
                    assert(t[b] == s[b]);
                }
            }
        }
    }

    /// A copy of the registered services, in registration order.
    pub fn list_services(&self) -> (r: Vec<ServiceRecord>)
        ensures
            r@ == self.services(),
    {
        let mut r: Vec<ServiceRecord> = Vec::new();
        let mut i: usize = 0;
        while i < self.services.len()
            invariant
                i <= self.services@.len(),
                r@ == self.services@.take(i as int),
            decreases self.services@.len() - i,
        {
            r.push(copy_service(&self.services[i]));
            i = i + 1;
            assert(r@ =~= self.services@.take(i as int));
        }
        assert(self.services@.take(i as int) =~= self.services@);
        r
    }

    /// Inserts the node, or replaces the one with the same id where it stands.
    pub fn add_node(&mut self, node: NodeRecord)
        requires
            old(self).wf(),
        ensures
            final(self).wf(),
            final(self).nodes() == upsert_node(old(self).nodes(), node@),
            final(self).services() == old(self).services(),
    {
        let ghost s = self.nodes();
        let mut i: usize = 0;
        while i < self.nodes.len()
            invariant
                i <= s.len(),
                self.nodes() == s,
                self.nodes@.len() == s.len(),
                self.services@ == old(self).services@,
                s == old(self).nodes(),
                node_ids_unique(s),
                service_ids_unique(old(self).services()),
                forall|k: int| 0 <= k < i ==> s[k].id != node.id@,
            decreases s.len() - i,
        {
            if self.nodes[i].id == node.id {
                proof {
                    assert(s[i as int].id == node.id@);
                    let c = choose|j: int| 0 <= j < s.len() && s[j].id == node.id@;
                    assert(c == i);
                }
                self.nodes.set(i, node);
                proof {
                    let t = self.nodes();
                    assert(t =~= s.update(i as int, node@));
                    assert forall|a: int, b: int| 0 <= a < t.len() && 0 <= b < t.len() && a != b implies t[a].id != t[b].id by {
                        if a != i && b != i {
                            assert(t[a] == s[a] && t[b] == s[b]);
                        } else if a == i {
                            assert(t[b] == s[b]);
                        } else {
                            assert(t[a] == s[a]);
                        }
                    }
                    assert(service_ids_unique(self.services()));
                    assert(node_ids_unique(self.nodes()));
                }
                return;
            }
            assert(s[i as int] == self.nodes@[i as int]@);
            i = i + 1;
        }
        self.nodes.push(node);
        proof {
            let t = self.nodes();
            assert(t =~= s.push(node@));
            assert forall|a: int, b: int| 0 <= a < t.len() && 0 <= b < t.len() && a != b implies t[a].id != t[b].id by {
                if a < s.len() && b < s.len() {
                    assert(t[a] == s[a] && t[b] == s[b]);
                } else if a < s.len() {
                    assert(t[a] == s[a]);
                } else {
                    assert(t[b] == s[b]);
                }
            }
        }
    }

    /// A copy of the discovered nodes, in discovery order.
    pub fn list_nodes(&self) -> (r: Vec<NodeRecord>)
        ensures
            nodes_view(r@) == self.nodes(),
    {
        let mut r: Vec<NodeRecord> = Vec::new();
        let mut i: usize = 0;
        while i < self.nodes.len()
            invariant
                i <= self.nodes@.len(),
                r@ == self.nodes@.take(i as int),
            decreases self.nodes@.len() - i,
        {
            r.push(copy_node(&self.nodes[i]));
            i = i + 1;
            assert(r@ =~= self.nodes@.take(i as int));
        }
        assert(self.nodes@.take(i as int) =~= self.nodes@);
        r
    }
}

/// Registering two services with the same id leaves exactly one entry with that id,
/// equal to the second.
pub proof fn lemma_last_write_wins(s: Seq<ServiceRecord>, a: ServiceRecord, b: ServiceRecord)
    requires
        service_ids_unique(s),
        a.id@ == b.id@,
    ensures
        ({
            let r = upsert_service(upsert_service(s, a), b);
            &&& exists|i: int| 0 <= i < r.len() && r[i] == b
            &&& forall|i: int| 0 <= i < r.len() && r[i].id@ == b.id@ ==> r[i] == b
            &&& r.len() == upsert_service(s, a).len()
            &&& service_ids_unique(r)
        }),
{
    let s1 = upsert_service(s, a);
    lemma_upsert_service_unique(s, a);
    lemma_upsert_service_unique(s1, b);
    assert(exists|i: int| 0 <= i < s1.len() && s1[i].id@ == b.id@) by {
        if exists|i: int| 0 <= i < s.len() && s[i].id@ == a.id@ {
            let c = choose|i: int| 0 <= i < s.len() && s[i].id@ == a.id@;
            assert(s1[c].id@ == b.id@);
        } else {
            assert(s1[s.len() as int].id@ == b.id@);
        }
    }
    let r = upsert_service(s1, b);
    let c = choose|i: int| 0 <= i < s1.len() && s1[i].id@ == b.id@;
    assert(r[c] == b);
}

/// Upserting keeps ids unique, and leaves the entry in place.
pub proof fn lemma_upsert_service_unique(s: Seq<ServiceRecord>, r: ServiceRecord)
    requires
        service_ids_unique(s),
    ensures
        service_ids_unique(upsert_service(s, r)),
{
}

} // verus!

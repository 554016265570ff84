use vstd::prelude::*;
use crate::entities::{
    copy_strings, texts, Edge, EdgeId, EdgeView, EngineError, Node, NodeId, NodeView, Properties,
};
use crate::json::{
    json_encoding, JsonField, encode, member_object, new_object, property_names, put_number, put_object, put_text, put_texts,
    json_parses, member_number, member_text, member_texts, number_member, object_member, opt_text,
    opt_texts, parse_document, text_member, texts_member,
};
use crate::laws::{
    consistent, counters_above, fresh_records, law_load_counters, law_replay_counters,
    lemma_replay_consistent, tight,
};
use crate::segments::{
    key_edge_type, key_from, key_id, key_labels, key_properties, key_to, key_type, lemma_keys,
};
use crate::store::{empty_view, put_edge, put_node, GraphView, InMemoryGraphStore};

verus! {

#[allow(inconsistent_fields)]
/// A logged mutation: the insertion of a node or of an edge, with the id it was given.
#[derive(Debug)]
pub enum WalRecord {
    AddNode { id: NodeId, labels: Vec<String>, properties: Properties },
    AddEdge {
        id: EdgeId,
        from_node: NodeId,
        to_node: NodeId,
        edge_type: String,
        properties: Properties,
    },
}

impl WalRecord {
    pub open spec fn record_properties(&self) -> Properties {
        match self {
            WalRecord::AddNode { properties, .. } => *properties,
            WalRecord::AddEdge { properties, .. } => *properties,
        }
    }

    /// Encodes the record as a JSON object whose `type` member names the
    /// variant, beside its id, its other fields and its properties. A
    /// serialization failure gives the empty byte string.
    pub fn to_bytes(&self) -> (r: Vec<u8>)
        ensures
            r@ == json_encoding(record_fields(*self)),
            encodes(*self, r@),
    {
        let mut o = new_object();
        proof {
            lemma_keys();
        }
        match self {
            WalRecord::AddNode { id, labels, properties } => {
                put_text(&mut o, "type", "add_node");
                put_number(&mut o, "id", *id);
                put_texts(&mut o, "labels", labels);
                put_object(&mut o, "properties", properties.clone());
            },
            WalRecord::AddEdge { id, from_node, to_node, edge_type, properties } => {
                put_text(&mut o, "type", "add_edge");
                put_number(&mut o, "id", *id);
                put_number(&mut o, "from", *from_node);
                put_number(&mut o, "to", *to_node);
                put_text(&mut o, "edge_type", edge_type.as_str());
                put_object(&mut o, "properties", properties.clone());
            },
        }
        let ghost f = o.fields();
        assert(f =~= record_fields(*self));
        match encode(&o) {
            Ok(b) => {
                proof {
                    if json_parses(b@) {
                        assert(member_text(b@, seq!['t', 'y', 'p', 'e']) == crate::json::text_field(f, seq!['t', 'y', 'p', 'e']));
                        assert(member_number(b@, seq!['i', 'd']) == crate::json::number_field(f, seq!['i', 'd']));
                        assert(member_texts(b@, seq!['l', 'a', 'b', 'e', 'l', 's']) == crate::json::texts_field(f, seq!['l', 'a', 'b', 'e', 'l', 's']));
                        assert(member_number(b@, seq!['f', 'r', 'o', 'm']) == crate::json::number_field(f, seq!['f', 'r', 'o', 'm']));
                        assert(member_number(b@, seq!['t', 'o']) == crate::json::number_field(f, seq!['t', 'o']));
                        assert(member_text(b@, seq!['e', 'd', 'g', 'e', '_', 't', 'y', 'p', 'e']) == crate::json::text_field(f, seq!['e', 'd', 'g', 'e', '_', 't', 'y', 'p', 'e']));
                        assert(member_object(b@, seq!['p', 'r', 'o', 'p', 'e', 'r', 't', 'i', 'e', 's']) is Some <==> (f.contains_key(seq!['p', 'r', 'o', 'p', 'e', 'r', 't', 'i', 'e', 's']) && f[seq!['p', 'r', 'o', 'p', 'e', 'r', 't', 'i', 'e', 's']] is Object));
                    }
                }
                b
            },
            Err(_) => Vec::new(),
        }
    }

    /// Decodes one logged record from its bytes: a JSON object whose `type`
    /// member names the variant. Bytes that are not JSON, and a missing or
    /// unknown `type`, are errors; other missing members read as zero or empty.
    pub fn from_bytes(data: &[u8]) -> (r: Result<WalRecord, EngineError>)
        ensures
            !json_parses(data@) ==> r is Err,
            json_parses(data@) ==> decoded(
                r,
                member_text(data@, seq!['t', 'y', 'p', 'e']),
                member_number(data@, seq!['i', 'd']),
                member_texts(data@, seq!['l', 'a', 'b', 'e', 'l', 's']),
                member_number(data@, seq!['f', 'r', 'o', 'm']),
                member_number(data@, seq!['t', 'o']),
                member_text(data@, seq!['e', 'd', 'g', 'e', '_', 't', 'y', 'p', 'e']),
            ),
            json_parses(data@) ==> (r matches Ok(rec) ==> props_or_empty(
                rec.record_properties(),
                member_object(data@, seq!['p', 'r', 'o', 'p', 'e', 'r', 't', 'i', 'e', 's']),
            )),
    {
        let doc = match parse_document(data, "WAL record parse") {
            Ok(d) => d,
            Err(msg) => {
                return Err(EngineError::StorageIo(msg));
            },
        };
        proof {
            lemma_keys();
        }
        let kind = text_member(&doc, "type");
        let id = number_member(&doc, "id");
        let labels = texts_member(&doc, "labels");
        let from_node = number_member(&doc, "from");
        let to_node = number_member(&doc, "to");
        let edge_type = text_member(&doc, "edge_type");
        let properties = object_member(&doc, "properties");
        Self::from_fields(kind, id, labels, from_node, to_node, edge_type, properties)
    }

    pub open spec fn record_id(&self) -> u64 {
        match self {
            WalRecord::AddNode { id, .. } => *id,
            WalRecord::AddEdge { id, .. } => *id,
        }
    }

    /// Builds a record from the members read out of a logged object: the kind
    /// decides the variant, a missing number reads as zero, a missing text or
    /// label list reads as empty. An unknown or missing kind is an error.
    pub fn from_fields(
        kind: Option<String>,
        id: Option<u64>,
        labels: Option<Vec<String>>,
        from_node: Option<u64>,
        to_node: Option<u64>,
        edge_type: Option<String>,
        properties: Option<Properties>,
    ) -> (r: Result<WalRecord, EngineError>)
        ensures
            decoded(r, opt_text(kind), id, opt_texts(labels), from_node, to_node, opt_text(edge_type)),
            r matches Ok(rec) ==> props_or_empty(rec.record_properties(), properties),
    {
        let ghost old_labels = labels;
        let properties = match properties {
            Some(p) => p,
            None => serde_json::Map::new(),
        };
        let kind = match kind {
            Some(k) => k,
            None => {
                return Err(EngineError::StorageIo("missing type".to_string()));
            },
        };
        let node_tag = "add_node";
        let edge_tag = "add_edge";
        proof {
            lemma_keys();
        }
        if crate::entities::same_text(kind.as_str(), node_tag) {
            let labels = match labels {
                Some(l) => l,
                None => Vec::new(),
            };
            assert(texts(labels@) =~= match opt_texts(old_labels) {
                Some(t) => t,
                None => Seq::empty(),
            });
            Ok(WalRecord::AddNode { id: unwrap_number(id), labels, properties })
        } else if crate::entities::same_text(kind.as_str(), edge_tag) {
            let edge_type = match edge_type {
                Some(t) => t,
                None => String::new(),
            };
            Ok(
                WalRecord::AddEdge {
                    id: unwrap_number(id),
                    from_node: unwrap_number(from_node),
                    to_node: unwrap_number(to_node),
                    edge_type,
                    properties,
                },
            )
        } else {
            Err(EngineError::StorageIo("unknown WAL record type".to_string()))
        }
    }
}

/// A decoded property mapping: the member's object when there is one, else empty.
pub open spec fn props_or_empty(p: Properties, member: Option<Properties>) -> bool {
    match member {
        Some(m) => p == m,
        None => property_names(p) == Set::<Seq<char>>::empty(),
    }
}

/// The members of the JSON object that encodes a record.
pub open spec fn record_fields(rec: WalRecord) -> Map<Seq<char>, JsonField> {
    match rec {
        WalRecord::AddNode { id, labels, properties } => Map::empty().insert(
            key_type(),
            JsonField::Text(node_kind()),
        ).insert(key_id(), JsonField::Number(id)).insert(key_labels(), JsonField::Texts(texts(labels@))).insert(
            key_properties(),
            JsonField::Object(properties),
        ),
        WalRecord::AddEdge { id, from_node, to_node, edge_type, properties } => Map::empty().insert(
            key_type(),
            JsonField::Text(edge_kind()),
        ).insert(key_id(), JsonField::Number(id)).insert(key_from(), JsonField::Number(from_node)).insert(
            key_to(),
            JsonField::Number(to_node),
        ).insert(key_edge_type(), JsonField::Text(edge_type@)).insert(
            key_properties(),
            JsonField::Object(properties),
        ),
    }
}

/// What the bytes of a record read back as, once they parse: the kind, the
/// id and the other members of its variant, and an object of properties.
pub open spec fn encodes(rec: WalRecord, b: Seq<u8>) -> bool {
    json_parses(b) ==> match rec {
        WalRecord::AddNode { id, labels, .. } => {
            &&& member_text(b, seq!['t', 'y', 'p', 'e']) == Some(node_kind())
            &&& member_number(b, seq!['i', 'd']) == Some(id)
            &&& member_texts(b, seq!['l', 'a', 'b', 'e', 'l', 's']) == Some(texts(labels@))
            &&& member_object(b, seq!['p', 'r', 'o', 'p', 'e', 'r', 't', 'i', 'e', 's']) is Some
        },
        WalRecord::AddEdge { id, from_node, to_node, edge_type, .. } => {
            &&& member_text(b, seq!['t', 'y', 'p', 'e']) == Some(edge_kind())
            &&& member_number(b, seq!['i', 'd']) == Some(id)
            &&& member_number(b, seq!['f', 'r', 'o', 'm']) == Some(from_node)
            &&& member_number(b, seq!['t', 'o']) == Some(to_node)
            &&& member_text(b, seq!['e', 'd', 'g', 'e', '_', 't', 'y', 'p', 'e']) == Some(edge_type@)
            &&& member_object(b, seq!['p', 'r', 'o', 'p', 'e', 'r', 't', 'i', 'e', 's']) is Some
        },
    }
}

pub open spec fn node_kind() -> Seq<char> {
    seq!['a', 'd', 'd', '_', 'n', 'o', 'd', 'e']
}

pub open spec fn edge_kind() -> Seq<char> {
    seq!['a', 'd', 'd', '_', 'e', 'd', 'g', 'e']
}

/// What decoding gives from the members read out of a logged object: the
/// kind picks the variant, a missing number reads as zero, a missing text or
/// label list as empty; a missing or unknown kind is an error.
pub open spec fn decoded(
    r: Result<WalRecord, EngineError>,
    kind: Option<Seq<char>>,
    id: Option<u64>,
    labels: Option<Seq<Seq<char>>>,
    from_node: Option<u64>,
    to_node: Option<u64>,
    edge_type: Option<Seq<char>>,
) -> bool {
    match r {
        Ok(WalRecord::AddNode { id: i, labels: l, .. }) => kind == Some(node_kind()) && i
            == number_or_zero(id) && texts(l@) == match labels {
            Some(t) => t,
            None => Seq::empty(),
        },
        Ok(WalRecord::AddEdge { id: i, from_node: f, to_node: t, edge_type: e, .. }) => kind == Some(
            edge_kind(),
        ) && i == number_or_zero(id) && f == number_or_zero(from_node) && t == number_or_zero(
            to_node,
        ) && e@ == match edge_type {
            Some(x) => x,
            None => Seq::empty(),
        },
        Err(_) => kind != Some(node_kind()) && kind != Some(edge_kind()),
    }
}

pub open spec fn number_or_zero(n: Option<u64>) -> u64 {
    match n {
        Some(v) => v,
        None => 0,
    }
}

impl Node {
    /// Builds a node from the members of a nodes-segment entry: a missing id
    /// reads as zero and a missing label list as empty.
    pub fn from_segment_fields(id: Option<u64>, labels: Option<Vec<String>>, properties: Option<Properties>) -> (r: Node)
        ensures
            r.id == number_or_zero(id),
            r.labels@ == match labels {
                Some(l) => l@,
                None => Seq::empty(),
            },
            props_or_empty(r.properties, properties),
    {
        let properties = match properties {
            Some(p) => p,
            None => serde_json::Map::new(),
        };
        let labels = match labels {
            Some(l) => l,
            None => Vec::new(),
        };
        Node { id: unwrap_number(id), labels, properties }
    }
}

impl Edge {
    /// Builds an edge from the members of an edges-segment entry: missing
    /// ids read as zero and a missing type as empty.
    pub fn from_segment_fields(
        id: Option<u64>,
        from_node: Option<u64>,
        to_node: Option<u64>,
        edge_type: Option<String>,
        properties: Option<Properties>,
    ) -> (r: Edge)
        ensures
            r.id == number_or_zero(id),
            r.from_node == number_or_zero(from_node),
            r.to_node == number_or_zero(to_node),
            r.edge_type@ == match edge_type {
                Some(t) => t@,
                None => Seq::empty(),
            },
            props_or_empty(r.properties, properties),
    {
        let properties = match properties {
            Some(p) => p,
            None => serde_json::Map::new(),
        };
        let edge_type = match edge_type {
            Some(t) => t,
            None => String::new(),
        };
        Edge {
            id: unwrap_number(id),
            from_node: unwrap_number(from_node),
            to_node: unwrap_number(to_node),
            edge_type,
            properties,
        }
    }
}

fn unwrap_number(n: Option<u64>) -> (r: u64)
    ensures
        r == number_or_zero(n),
{
    match n {
        Some(v) => v,
        None => 0,
    }
}

/// The effect of one record on a store.
pub open spec fn apply_record(v: GraphView, rec: WalRecord) -> GraphView {
    match rec {
        WalRecord::AddNode { id, labels, properties } => put_node(
            v,
            NodeView { id, labels: texts(labels@), properties },
        ),
        WalRecord::AddEdge { id, from_node, to_node, edge_type, properties } => put_edge(
            v,
            EdgeView { id, from_node, to_node, edge_type: edge_type@, properties },
        ),
    }
}

/// The effect of a sequence of records, applied in order.
pub open spec fn replay(v: GraphView, recs: Seq<WalRecord>) -> GraphView
    decreases recs.len(),
{
    if recs.len() == 0 {
        v
    } else {
        apply_record(replay(v, recs.drop_last()), recs.last())
    }
}

/// Whether every record carries an id below the largest `u64`, so that the
/// counter can be advanced past it.
pub open spec fn replayable(recs: Seq<WalRecord>) -> bool {
    forall|i: int| 0 <= i < recs.len() ==> (#[trigger] recs[i]).record_id() < u64::MAX
}

/// The store that segments rebuild: the listed nodes stored in order, then the listed edges.
pub open spec fn load_view(nodes: Seq<NodeView>, edges: Seq<EdgeView>) -> GraphView {
    put_edges(put_nodes(empty_view(), nodes), edges)
}

pub open spec fn put_nodes(v: GraphView, nodes: Seq<NodeView>) -> GraphView
    decreases nodes.len(),
{
    if nodes.len() == 0 {
        v
    } else {
        put_node(put_nodes(v, nodes.drop_last()), nodes.last())
    }
}

pub open spec fn put_edges(v: GraphView, edges: Seq<EdgeView>) -> GraphView
    decreases edges.len(),
{
    if edges.len() == 0 {
        v
    } else {
        put_edge(put_edges(v, edges.drop_last()), edges.last())
    }
}

fn find_unreplayable(records: &[WalRecord]) -> (r: bool)
    ensures
        r == !replayable(records@),
{
    let mut i: usize = 0;
    while i < records.len()
        invariant
            i <= records@.len(),
            forall|k: int| 0 <= k < i ==> (#[trigger] records@[k]).record_id() < u64::MAX,
        decreases records@.len() - i,
    {
        let id = match &records[i] {
            WalRecord::AddNode { id, .. } => *id,
            WalRecord::AddEdge { id, .. } => *id,
        };
        if id == u64::MAX {
            return true;
        }
        i = i + 1;
    }
    false
}

impl InMemoryGraphStore {
    /// Applies logged records in order, with the ids they carry, through the
    /// same table, index and counter updates as live insertion. Fails, and
    /// changes nothing, when a record's id leaves no room to advance a counter.
    pub fn replay_wal(&mut self, records: &[WalRecord]) -> (r: Result<(), EngineError>)
        requires
            old(self).wf(),
        ensures
            final(self).wf(),
            r is Ok <==> replayable(records@),
            r is Ok ==> final(self)@ == replay(old(self)@, records@),
            r is Err ==> final(self)@ == old(self)@,
            counters_above(old(self)@) && tight(old(self)@) ==> counters_above(final(self)@) && tight(
                final(self)@,
            ),
            consistent(old(self)@) && fresh_records(old(self)@, records@) ==> consistent(final(self)@),
    {
        proof {
            if replayable(records@) && counters_above(old(self)@) && tight(old(self)@) {
                law_replay_counters(old(self)@, records@);
            }
            if replayable(records@) && consistent(old(self)@) && fresh_records(old(self)@, records@) {
                lemma_replay_consistent(old(self)@, records@);
            }
        }
        if find_unreplayable(records) {
            return Err(EngineError::StorageIo("WAL record id out of range".to_string()));
        }
        let mut i: usize = 0;
        while i < records.len()
            invariant
                self.wf(),
                i <= records@.len(),
                replayable(records@),
                self@ == replay(old(self)@, records@.take(i as int)),
            decreases records@.len() - i,
        {
            assert(records@.take(i as int + 1).drop_last() =~= records@.take(i as int));
            assert(records@[i as int].record_id() < u64::MAX);
            match &records[i] {
                WalRecord::AddNode { id, labels, properties } => {
                    self.put_node(*id, copy_strings(labels), properties.clone());
                },
                WalRecord::AddEdge { id, from_node, to_node, edge_type, properties } => {
                    self.put_edge(*id, *from_node, *to_node, edge_type.clone(), properties.clone());
                },
            }
            i = i + 1;
        }
        assert(records@.take(records@.len() as int) =~= records@);
        Ok(())
    }

    /// Rebuilds a store from the node and edge lists of two segments: each node
    /// is stored and indexed, then each edge, and both counters end past every
    /// loaded id. Fails when an id leaves no room to advance a counter.
    pub fn from_segments(nodes: Vec<Node>, edges: Vec<Edge>) -> (r: Result<InMemoryGraphStore, EngineError>)
        ensures
            r is Ok <==> (forall|i: int| 0 <= i < nodes@.len() ==> (#[trigger] nodes@[i]).id < u64::MAX)
                && (forall|i: int| 0 <= i < edges@.len() ==> (#[trigger] edges@[i]).id < u64::MAX),
            r matches Ok(s) ==> s.wf() && s@ == load_view(
                nodes@.map_values(|n: Node| n@),
                edges@.map_values(|e: Edge| e@),
            ),
            r matches Ok(s) ==> counters_above(s@) && tight(s@),
    {
        let ghost nv = nodes@.map_values(|n: Node| n@);
        let ghost ev = edges@.map_values(|e: Edge| e@);
        let mut store = InMemoryGraphStore::new();
        let mut i: usize = 0;
        while i < nodes.len()
            invariant
                store.wf(),
                i <= nodes@.len(),
                nv == nodes@.map_values(|n: Node| n@),
                forall|k: int| 0 <= k < i ==> (#[trigger] nodes@[k]).id < u64::MAX,
                store@ == put_nodes(empty_view(), nv.take(i as int)),
            decreases nodes@.len() - i,
        {
            let n = &nodes[i];
            if n.id == u64::MAX {
                return Err(EngineError::StorageIo("node id out of range".to_string()));
            }
            assert(nv.take(i as int + 1).drop_last() =~= nv.take(i as int));
            store.put_node(n.id, copy_strings(&n.labels), n.properties.clone());
            i = i + 1;
        }
        assert(nv.take(nodes@.len() as int) =~= nv);
        let ghost loaded = store@;
        assert(ev.take(0) =~= Seq::<EdgeView>::empty());
        let mut j: usize = 0;
        while j < edges.len()
            invariant
                store.wf(),
                j <= edges@.len(),
                ev == edges@.map_values(|e: Edge| e@),
                forall|k: int| 0 <= k < nodes@.len() ==> (#[trigger] nodes@[k]).id < u64::MAX,
                forall|k: int| 0 <= k < j ==> (#[trigger] edges@[k]).id < u64::MAX,
                store@ == put_edges(loaded, ev.take(j as int)),
            decreases edges@.len() - j,
        {
            let e = &edges[j];
            if e.id == u64::MAX {
                return Err(EngineError::StorageIo("edge id out of range".to_string()));
            }
            assert(ev.take(j as int + 1).drop_last() =~= ev.take(j as int));
            store.put_edge(e.id, e.from_node, e.to_node, e.edge_type.clone(), e.properties.clone());
            j = j + 1;
        }
        assert(ev.take(edges@.len() as int) =~= ev);
        proof {
            assert forall|k: int| 0 <= k < nv.len() implies (#[trigger] nv[k]).id < u64::MAX by {
                assert(nv[k] == nodes@[k]@);
            }
            assert forall|k: int| 0 <= k < ev.len() implies (#[trigger] ev[k]).id < u64::MAX by {
                assert(ev[k] == edges@[k]@);
            }
            law_load_counters(nv, ev);
        }
        Ok(store)
    }
}

} // verus!

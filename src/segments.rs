use vstd::prelude::*;
use crate::entities::{texts, Edge, EdgeView, EngineError, Node, NodeView};
use crate::json::{
    encode, item_number, item_object, item_reads_back, item_text, item_texts, items_member,
    json_encoding, json_parses, member_len, member_number, new_object, number_field, number_member, object_member,
    objects_field, parse_document, put_number, put_object, put_objects, put_text, put_texts,
    reads_back, text_field, text_member, texts_field, texts_member, JsonField, JsonOut,
};
use crate::laws::{counters_above, tight};
use crate::store::InMemoryGraphStore;
use crate::wal::{number_or_zero, props_or_empty};

verus! {

pub open spec fn key_count() -> Seq<char> {
    seq!['c', 'o', 'u', 'n', 't']
}

pub open spec fn key_nodes() -> Seq<char> {
    seq!['n', 'o', 'd', 'e', 's']
}

pub open spec fn key_edges() -> Seq<char> {
    seq!['e', 'd', 'g', 'e', 's']
}

pub open spec fn key_id() -> Seq<char> {
    seq!['i', 'd']
}

pub open spec fn key_labels() -> Seq<char> {
    seq!['l', 'a', 'b', 'e', 'l', 's']
}

pub open spec fn key_from() -> Seq<char> {
    seq!['f', 'r', 'o', 'm']
}

pub open spec fn key_to() -> Seq<char> {
    seq!['t', 'o']
}

pub open spec fn key_type() -> Seq<char> {
    seq!['t', 'y', 'p', 'e']
}

pub open spec fn key_edge_type() -> Seq<char> {
    seq!['e', 'd', 'g', 'e', '_', 't', 'y', 'p', 'e']
}

pub open spec fn key_properties() -> Seq<char> {
    seq!['p', 'r', 'o', 'p', 'e', 'r', 't', 'i', 'e', 's']
}

/// The member names of the library's JSON objects and the two record kinds,
/// as text.
pub(crate) proof fn lemma_keys()
    ensures
        "edge_type"@ == key_edge_type(),
        "add_node"@ == crate::wal::node_kind(),
        "add_edge"@ == crate::wal::edge_kind(),
        "count"@ == key_count(),
        "nodes"@ == key_nodes(),
        "edges"@ == key_edges(),
        "id"@ == key_id(),
        "labels"@ == key_labels(),
        "from"@ == key_from(),
        "to"@ == key_to(),
        "type"@ == key_type(),
        "properties"@ == key_properties(),
{
    reveal_strlit("count");
    reveal_strlit("nodes");
    reveal_strlit("edges");
    reveal_strlit("id");
    reveal_strlit("labels");
    reveal_strlit("from");
    reveal_strlit("to");
    reveal_strlit("type");
    reveal_strlit("properties");
    reveal_strlit("edge_type");
    reveal_strlit("add_node");
    reveal_strlit("add_edge");
    assert("edge_type"@ =~= key_edge_type());
    assert("add_node"@ =~= crate::wal::node_kind());
    assert("add_edge"@ =~= crate::wal::edge_kind());
    assert("count"@ =~= key_count());
    assert("nodes"@ =~= key_nodes());
    assert("edges"@ =~= key_edges());
    assert("id"@ =~= key_id());
    assert("labels"@ =~= key_labels());
    assert("from"@ =~= key_from());
    assert("to"@ =~= key_to());
    assert("type"@ =~= key_type());
    assert("properties"@ =~= key_properties());
}

/// The members of one entry of a nodes segment.
pub open spec fn node_entry(n: NodeView) -> Map<Seq<char>, JsonField> {
    Map::empty().insert(key_id(), JsonField::Number(n.id)).insert(key_labels(), JsonField::Texts(n.labels)).insert(
        key_properties(),
        JsonField::Object(n.properties),
    )
}

/// The members of one entry of an edges segment.
pub open spec fn edge_entry(e: EdgeView) -> Map<Seq<char>, JsonField> {
    Map::empty().insert(key_id(), JsonField::Number(e.id)).insert(key_from(), JsonField::Number(e.from_node)).insert(
        key_to(),
        JsonField::Number(e.to_node),
    ).insert(key_type(), JsonField::Text(e.edge_type)).insert(key_properties(), JsonField::Object(e.properties))
}

/// The members of the JSON object of a nodes segment.
pub open spec fn nodes_segment_fields(ns: Seq<NodeView>) -> Map<Seq<char>, JsonField> {
    Map::empty().insert(key_count(), JsonField::Number(ns.len() as u64)).insert(
        key_nodes(),
        JsonField::Objects(ns.map_values(|n: NodeView| node_entry(n))),
    )
}

/// The members of the JSON object of an edges segment.
pub open spec fn edges_segment_fields(es: Seq<EdgeView>) -> Map<Seq<char>, JsonField> {
    Map::empty().insert(key_count(), JsonField::Number(es.len() as u64)).insert(
        key_edges(),
        JsonField::Objects(es.map_values(|e: EdgeView| edge_entry(e))),
    )
}

/// What the bytes of a nodes segment read back as, once they parse: the
/// count, and for each node in order its id, its labels and an object of properties.
pub open spec fn nodes_segment(b: Seq<u8>, ns: Seq<NodeView>) -> bool {
    json_parses(b) ==> {
        &&& member_number(b, key_count()) == Some(ns.len() as u64)
        &&& member_len(b, key_nodes()) == Some(ns.len())
        &&& forall|i: int| 0 <= i < ns.len() ==> {
            &&& #[trigger] item_number(b, key_nodes(), i, key_id()) == Some(ns[i].id)
            &&& item_texts(b, key_nodes(), i, key_labels()) == Some(ns[i].labels)
            &&& item_object(b, key_nodes(), i, key_properties()) is Some
        }
    }
}

/// What the bytes of an edges segment read back as, once they parse: the
/// count, and for each edge in order its id, endpoints, type and an object of properties.
pub open spec fn edges_segment(b: Seq<u8>, es: Seq<EdgeView>) -> bool {
    json_parses(b) ==> {
        &&& member_number(b, key_count()) == Some(es.len() as u64)
        &&& member_len(b, key_edges()) == Some(es.len())
        &&& forall|i: int| 0 <= i < es.len() ==> {
            &&& #[trigger] item_number(b, key_edges(), i, key_id()) == Some(es[i].id)
            &&& item_number(b, key_edges(), i, key_from()) == Some(es[i].from_node)
            &&& item_number(b, key_edges(), i, key_to()) == Some(es[i].to_node)
            &&& item_text(b, key_edges(), i, key_type()) == Some(es[i].edge_type)
            &&& item_object(b, key_edges(), i, key_properties()) is Some
        }
    }
}

fn node_object(n: &Node) -> (r: JsonOut)
    ensures
        r.fields() == node_entry(n@),
{
    proof {
        lemma_keys();
    }
    let mut o = new_object();
    put_number(&mut o, "id", n.id);
    put_texts(&mut o, "labels", &n.labels);
    put_object(&mut o, "properties", n.properties.clone());
    assert(o.fields() =~= node_entry(n@));
    o
}

fn edge_object(e: &Edge) -> (r: JsonOut)
    ensures
        r.fields() == edge_entry(e@),
{
    proof {
        lemma_keys();
    }
    let mut o = new_object();
    put_number(&mut o, "id", e.id);
    put_number(&mut o, "from", e.from_node);
    put_number(&mut o, "to", e.to_node);
    put_text(&mut o, "type", e.edge_type.as_str());
    put_object(&mut o, "properties", e.properties.clone());
    assert(o.fields() =~= edge_entry(e@));
    o
}

impl InMemoryGraphStore {
    /// The bytes of the nodes segment: an object with the node count and the
    /// list of nodes, each with its id, labels and properties.
    pub fn nodes_segment_bytes(&self) -> (r: Vec<u8>)
        requires
            self.wf(),
        ensures
            r@ == json_encoding(nodes_segment_fields(self.node_order_view().map_values(|k: u64| self@.nodes[k]))),
            nodes_segment(r@, self.node_order_view().map_values(|k: u64| self@.nodes[k])),
    {
        proof {
            lemma_keys();
        }
        let nodes = self.segment_nodes();
        let ghost ns = nodes@.map_values(|n: Node| n@);
        let mut items: Vec<JsonOut> = Vec::new();
        let mut i: usize = 0;
        while i < nodes.len()
            invariant
                i <= nodes@.len(),
                ns == nodes@.map_values(|n: Node| n@),
                items@.len() == i,
                forall|j: int| 0 <= j < i ==> (#[trigger] items@[j]).fields() == node_entry(ns[j]),
            decreases nodes@.len() - i,
        {
            items.push(node_object(&nodes[i]));
            i = i + 1;
        }
        let ghost entries = items@.map_values(|j: JsonOut| j.fields());
        let count = nodes.len() as u64;
        let mut o = new_object();
        put_number(&mut o, "count", count);
        put_objects(&mut o, "nodes", items);
        let ghost f = o.fields();
        proof {
            assert(entries =~= ns.map_values(|n: NodeView| node_entry(n)));
            assert(f =~= nodes_segment_fields(ns));
        }
        let b = match encode(&o) {
            Ok(b) => b,
            Err(_) => Vec::new(),
        };
        proof {
            if json_parses(b@) {
                assert(reads_back(b@, f));
                assert(member_number(b@, key_count()) == number_field(f, key_count()));
                assert(objects_field(f, key_nodes()) == Some(entries));
                assert(member_len(b@, key_nodes()) == Some(entries.len()));
                assert forall|i: int| 0 <= i < ns.len() implies {
                    &&& #[trigger] item_number(b@, key_nodes(), i, key_id()) == Some(ns[i].id)
                    &&& item_texts(b@, key_nodes(), i, key_labels()) == Some(ns[i].labels)
                    &&& item_object(b@, key_nodes(), i, key_properties()) is Some
                } by {
                    assert(item_reads_back(b@, key_nodes(), i, entries[i]));
                    assert(entries[i] == node_entry(ns[i]));
                    assert(item_number(b@, key_nodes(), i, key_id()) == number_field(entries[i], key_id()));
                    assert(item_texts(b@, key_nodes(), i, key_labels()) == texts_field(entries[i], key_labels()));
                    assert(item_object(b@, key_nodes(), i, key_properties()) is Some <==> (entries[i].contains_key(key_properties()) && entries[i][key_properties()] is Object));
                }
            }
        }
        b
    }

    /// The bytes of the edges segment: an object with the edge count and the
    /// list of edges, each with its id, endpoints, type and properties.
    pub fn edges_segment_bytes(&self) -> (r: Vec<u8>)
        requires
            self.wf(),
        ensures
            r@ == json_encoding(edges_segment_fields(self.edge_order_view().map_values(|k: u64| self@.edges[k]))),
            edges_segment(r@, self.edge_order_view().map_values(|k: u64| self@.edges[k])),
    {
        proof {
            lemma_keys();
        }
        let edges = self.segment_edges();
        let ghost es = edges@.map_values(|e: Edge| e@);
        let mut items: Vec<JsonOut> = Vec::new();
        let mut i: usize = 0;
        while i < edges.len()
            invariant
                i <= edges@.len(),
                es == edges@.map_values(|e: Edge| e@),
                items@.len() == i,
                forall|j: int| 0 <= j < i ==> (#[trigger] items@[j]).fields() == edge_entry(es[j]),
            decreases edges@.len() - i,
        {
            items.push(edge_object(&edges[i]));
            i = i + 1;
        }
        let ghost entries = items@.map_values(|j: JsonOut| j.fields());
        let count = edges.len() as u64;
        let mut o = new_object();
        put_number(&mut o, "count", count);
        put_objects(&mut o, "edges", items);
        let ghost f = o.fields();
        proof {
            assert(entries =~= es.map_values(|e: EdgeView| edge_entry(e)));
            assert(f =~= edges_segment_fields(es));
        }
        let b = match encode(&o) {
            Ok(b) => b,
            Err(_) => Vec::new(),
        };
        proof {
            if json_parses(b@) {
                assert(reads_back(b@, f));
                assert(member_number(b@, key_count()) == number_field(f, key_count()));
                assert(objects_field(f, key_edges()) == Some(entries));
                assert(member_len(b@, key_edges()) == Some(entries.len()));
                assert forall|i: int| 0 <= i < es.len() implies {
                    &&& #[trigger] item_number(b@, key_edges(), i, key_id()) == Some(es[i].id)
                    &&& item_number(b@, key_edges(), i, key_from()) == Some(es[i].from_node)
                    &&& item_number(b@, key_edges(), i, key_to()) == Some(es[i].to_node)
                    &&& item_text(b@, key_edges(), i, key_type()) == Some(es[i].edge_type)
                    &&& item_object(b@, key_edges(), i, key_properties()) is Some
                } by {
                    assert(item_reads_back(b@, key_edges(), i, entries[i]));
                    assert(entries[i] == edge_entry(es[i]));
                    assert(item_number(b@, key_edges(), i, key_id()) == number_field(entries[i], key_id()));
                    assert(item_number(b@, key_edges(), i, key_from()) == number_field(entries[i], key_from()));
                    assert(item_number(b@, key_edges(), i, key_to()) == number_field(entries[i], key_to()));
                    assert(item_text(b@, key_edges(), i, key_type()) == text_field(entries[i], key_type()));
                    assert(item_object(b@, key_edges(), i, key_properties()) is Some <==> (entries[i].contains_key(key_properties()) && entries[i][key_properties()] is Object));
                }
            }
        }
        b
    }
}

/// What reading a nodes segment gives, once the bytes parse: one node per
/// item of the `nodes` array (none when it is missing), a missing id reading
/// as zero, missing labels and properties as empty.
pub open spec fn read_nodes(b: Seq<u8>, v: Seq<Node>) -> bool {
    &&& v.len() == match member_len(b, key_nodes()) {
        Some(n) => n,
        None => 0,
    }
    &&& forall|i: int| 0 <= i < v.len() ==> {
        &&& (#[trigger] v[i]).id == number_or_zero(item_number(b, key_nodes(), i, key_id()))
        &&& texts(v[i].labels@) == match item_texts(b, key_nodes(), i, key_labels()) {
            Some(t) => t,
            None => Seq::empty(),
        }
        &&& props_or_empty(v[i].properties, item_object(b, key_nodes(), i, key_properties()))
    }
}

/// What reading an edges segment gives, once the bytes parse: one edge per
/// item of the `edges` array, missing numbers reading as zero, a missing
/// type and missing properties as empty.
pub open spec fn read_edges(b: Seq<u8>, v: Seq<Edge>) -> bool {
    &&& v.len() == match member_len(b, key_edges()) {
        Some(n) => n,
        None => 0,
    }
    &&& forall|i: int| 0 <= i < v.len() ==> {
        &&& (#[trigger] v[i]).id == number_or_zero(item_number(b, key_edges(), i, key_id()))
        &&& v[i].from_node == number_or_zero(item_number(b, key_edges(), i, key_from()))
        &&& v[i].to_node == number_or_zero(item_number(b, key_edges(), i, key_to()))
        &&& v[i].edge_type@ == match item_text(b, key_edges(), i, key_type()) {
            Some(t) => t,
            None => Seq::empty(),
        }
        &&& props_or_empty(v[i].properties, item_object(b, key_edges(), i, key_properties()))
    }
}

/// Reads the nodes of a nodes segment. Bytes that are not JSON are an error.
pub fn nodes_from_segment(data: &[u8]) -> (r: Result<Vec<Node>, EngineError>)
    ensures
        r is Ok <==> json_parses(data@),
        r matches Ok(v) ==> read_nodes(data@, v@),
{
    proof {
        lemma_keys();
    }
    let doc = match parse_document(data, "parse nodes.seg") {
        Ok(d) => d,
        Err(msg) => {
            return Err(EngineError::StorageIo(msg));
        },
    };
    let items = match items_member(&doc, "nodes") {
        Some(v) => v,
        None => {
            return Ok(Vec::new());
        },
    };
    let mut out: Vec<Node> = Vec::new();
    let mut i: usize = 0;
    while i < items.len()
        invariant
            i <= items@.len(),
            member_len(data@, key_nodes()) == Some(items@.len()),
            forall|j: int| 0 <= j < items@.len() ==> (#[trigger] items@[j]).source() == data@ && items@[j].at() == Some((key_nodes(), j)),
            out@.len() == i,
            forall|j: int| 0 <= j < i ==> {
                &&& (#[trigger] out@[j]).id == number_or_zero(item_number(data@, key_nodes(), j, key_id()))
                &&& texts(out@[j].labels@) == match item_texts(data@, key_nodes(), j, key_labels()) {
                    Some(t) => t,
                    None => Seq::empty(),
                }
                &&& props_or_empty(out@[j].properties, item_object(data@, key_nodes(), j, key_properties()))
            },
        decreases items@.len() - i,
    {
        proof {
            lemma_keys();
        }
        let item = &items[i];
        assert(items@[i as int].source() == data@);
        assert(item.at() == Some((key_nodes(), i as int)));
        let labels = texts_member(item, "labels");
        let ghost lv = labels;
        let n = Node::from_segment_fields(number_member(item, "id"), labels, object_member(item, "properties"));
        assert(texts(n.labels@) =~= match item_texts(data@, key_nodes(), i as int, key_labels()) {
            Some(t) => t,
            None => Seq::empty(),
        }) by {
            assert(crate::json::opt_texts(lv) == item_texts(data@, key_nodes(), i as int, key_labels()));
        }
        let ghost prev = out@;
        out.push(n);
        assert(forall|j: int| 0 <= j < i ==> out@[j] == prev[j]);
        i = i + 1;
    }
    Ok(out)
}

/// Reads the edges of an edges segment. Bytes that are not JSON are an error.
pub fn edges_from_segment(data: &[u8]) -> (r: Result<Vec<Edge>, EngineError>)
    ensures
        r is Ok <==> json_parses(data@),
        r matches Ok(v) ==> read_edges(data@, v@),
{
    proof {
        lemma_keys();
    }
    let doc = match parse_document(data, "parse edges.seg") {
        Ok(d) => d,
        Err(msg) => {
            return Err(EngineError::StorageIo(msg));
        },
    };
    let items = match items_member(&doc, "edges") {
        Some(v) => v,
        None => {
            return Ok(Vec::new());
        },
    };
    let mut out: Vec<Edge> = Vec::new();
    let mut i: usize = 0;
    while i < items.len()
        invariant
            i <= items@.len(),
            member_len(data@, key_edges()) == Some(items@.len()),
            forall|j: int| 0 <= j < items@.len() ==> (#[trigger] items@[j]).source() == data@ && items@[j].at() == Some((key_edges(), j)),
            out@.len() == i,
            forall|j: int| 0 <= j < i ==> {
                &&& (#[trigger] out@[j]).id == number_or_zero(item_number(data@, key_edges(), j, key_id()))
                &&& out@[j].from_node == number_or_zero(item_number(data@, key_edges(), j, key_from()))
                &&& out@[j].to_node == number_or_zero(item_number(data@, key_edges(), j, key_to()))
                &&& out@[j].edge_type@ == match item_text(data@, key_edges(), j, key_type()) {
                    Some(t) => t,
                    None => Seq::empty(),
                }
                &&& props_or_empty(out@[j].properties, item_object(data@, key_edges(), j, key_properties()))
            },
        decreases items@.len() - i,
    {
        proof {
            lemma_keys();
        }
        let item = &items[i];
        assert(items@[i as int].source() == data@);
        assert(item.at() == Some((key_edges(), i as int)));
        let e = Edge::from_segment_fields(
            number_member(item, "id"),
            number_member(item, "from"),
            number_member(item, "to"),
            text_member(item, "type"),
            object_member(item, "properties"),
        );
        let ghost prev = out@;
        out.push(e);
        assert(forall|j: int| 0 <= j < i ==> out@[j] == prev[j]);
        i = i + 1;
    }
    Ok(out)
}

impl InMemoryGraphStore {
    /// Rebuilds a store from the bytes of its two segments; an absent segment
    /// gives an empty table. Fails when a segment is not JSON or an id leaves
    /// no room to advance a counter.
    pub fn from_segment_bytes(nodes: Option<&[u8]>, edges: Option<&[u8]>) -> (r: Result<InMemoryGraphStore, EngineError>)
        ensures
            r is Ok <==> segment_loads(nodes, edges),
            nodes is None && edges is None ==> (r matches Ok(s) && s@ == crate::store::empty_view()),
            r matches Ok(s) ==> s.wf() && counters_above(s@) && tight(s@) && exists|nv: Seq<Node>, ev: Seq<Edge>| {
                &&& match nodes {
                    Some(b) => read_nodes(b@, nv),
                    None => nv.len() == 0,
                }
                &&& match edges {
                    Some(b) => read_edges(b@, ev),
                    None => ev.len() == 0,
                }
                &&& s@ == crate::wal::load_view(nv.map_values(|n: Node| n@), ev.map_values(|e: Edge| e@))
            },
    {
        let node_list = match nodes {
            Some(b) => match nodes_from_segment(b) {
                Ok(v) => v,
                Err(e) => {
                    return Err(e);
                },
            },
            None => Vec::new(),
        };
        let edge_list = match edges {
            Some(b) => match edges_from_segment(b) {
                Ok(v) => v,
                Err(e) => {
                    return Err(e);
                },
            },
            None => Vec::new(),
        };
        let ghost nv = node_list@;
        let ghost ev = edge_list@;
        proof {
            if let Some(b) = nodes {
                assert(nv.len() == len_or_zero(member_len(b@, key_nodes())));
                assert((forall|i: int| 0 <= i < nv.len() ==> (#[trigger] nv[i]).id < u64::MAX) <==> node_ids_fit(b@)) by {
                    if node_ids_fit(b@) {
                        assert forall|i: int| 0 <= i < nv.len() implies (#[trigger] nv[i]).id < u64::MAX by {
                            assert(nv[i].id == number_or_zero(item_number(b@, key_nodes(), i, key_id())));
                        }
                    }
                    if forall|i: int| 0 <= i < nv.len() ==> (#[trigger] nv[i]).id < u64::MAX {
                        assert forall|i: int| 0 <= i < len_or_zero(member_len(b@, key_nodes())) implies #[trigger] number_or_zero(
                            item_number(b@, key_nodes(), i, key_id()),
                        ) < u64::MAX by {
                            assert(nv[i].id == number_or_zero(item_number(b@, key_nodes(), i, key_id())));
                        }
                    }
                }
            }
            if let Some(b) = edges {
                assert(ev.len() == len_or_zero(member_len(b@, key_edges())));
                assert((forall|i: int| 0 <= i < ev.len() ==> (#[trigger] ev[i]).id < u64::MAX) <==> edge_ids_fit(b@)) by {
                    if edge_ids_fit(b@) {
                        assert forall|i: int| 0 <= i < ev.len() implies (#[trigger] ev[i]).id < u64::MAX by {
                            assert(ev[i].id == number_or_zero(item_number(b@, key_edges(), i, key_id())));
                        }
                    }
                    if forall|i: int| 0 <= i < ev.len() ==> (#[trigger] ev[i]).id < u64::MAX {
                        assert forall|i: int| 0 <= i < len_or_zero(member_len(b@, key_edges())) implies #[trigger] number_or_zero(
                            item_number(b@, key_edges(), i, key_id()),
                        ) < u64::MAX by {
                            assert(ev[i].id == number_or_zero(item_number(b@, key_edges(), i, key_id())));
                        }
                    }
                }
            }
        }
        proof {
            if nodes is None && edges is None {
                assert(nv.map_values(|n: Node| n@) =~= Seq::<NodeView>::empty());
                assert(ev.map_values(|e: Edge| e@) =~= Seq::<EdgeView>::empty());
            }
        }
        match InMemoryGraphStore::from_segments(node_list, edge_list) {
            Ok(s) => Ok(s),
            Err(e) => Err(e),
        }
    }
}

pub open spec fn len_or_zero(n: Option<nat>) -> nat {
    match n {
        Some(k) => k,
        None => 0,
    }
}

/// Whether every node entry of a nodes segment reads with an id below the largest `u64`.
pub open spec fn node_ids_fit(b: Seq<u8>) -> bool {
    forall|i: int| 0 <= i < len_or_zero(member_len(b, key_nodes())) ==> #[trigger] number_or_zero(
        item_number(b, key_nodes(), i, key_id()),
    ) < u64::MAX
}

/// Whether every edge entry of an edges segment reads with an id below the largest `u64`.
pub open spec fn edge_ids_fit(b: Seq<u8>) -> bool {
    forall|i: int| 0 <= i < len_or_zero(member_len(b, key_edges())) ==> #[trigger] number_or_zero(
        item_number(b, key_edges(), i, key_id()),
    ) < u64::MAX
}

/// When loading two segments succeeds: each present segment is JSON and
/// every id it holds leaves room to advance a counter. Absent segments load
/// as empty tables.
pub open spec fn segment_loads(nodes: Option<&[u8]>, edges: Option<&[u8]>) -> bool {
    &&& nodes matches Some(b) ==> json_parses(b@) && node_ids_fit(b@)
    &&& edges matches Some(b) ==> json_parses(b@) && edge_ids_fit(b@)
}

/// Segment round trip: the bytes written for a list of nodes (or edges),
/// once they parse, read back as that many entities with the same ids and
/// labels (or the same ids, endpoints and types).
pub proof fn law_segment_round_trip(
    nb: Seq<u8>,
    ns: Seq<NodeView>,
    nv: Seq<Node>,
    eb: Seq<u8>,
    es: Seq<EdgeView>,
    ev: Seq<Edge>,
)
    requires
        nodes_segment(nb, ns),
        json_parses(nb),
        read_nodes(nb, nv),
        edges_segment(eb, es),
        json_parses(eb),
        read_edges(eb, ev),
    ensures
        nv.len() == ns.len(),
        forall|i: int| 0 <= i < ns.len() ==> (#[trigger] nv[i]).id == ns[i].id && texts(nv[i].labels@) == ns[i].labels,
        ev.len() == es.len(),
        forall|i: int| 0 <= i < es.len() ==> (#[trigger] ev[i]).id == es[i].id && ev[i].from_node == es[i].from_node
            && ev[i].to_node == es[i].to_node && ev[i]@.edge_type == es[i].edge_type,
{
    assert forall|i: int| 0 <= i < ns.len() implies (#[trigger] nv[i]).id == ns[i].id && texts(nv[i].labels@) == ns[i].labels by {
        assert(item_number(nb, key_nodes(), i, key_id()) == Some(ns[i].id));
    }
    assert forall|i: int| 0 <= i < es.len() implies (#[trigger] ev[i]).id == es[i].id && ev[i].from_node == es[i].from_node
        && ev[i].to_node == es[i].to_node && ev[i]@.edge_type == es[i].edge_type by {
        assert(item_number(eb, key_edges(), i, key_id()) == Some(es[i].id));
    }
}

} // verus!

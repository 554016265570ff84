use std::collections::HashMap;
use vstd::prelude::*;
use crate::laws::{consistent, lemma_empty_consistent, lemma_put_edge, lemma_put_node, tight};
use crate::entities::{
    same_text, texts, copy_strings, Edge, EdgeId, EdgeView, EngineError, GraphReadStore,
    GraphWriteStore, Node, NodeId, NodeView, Properties,
};

verus! {

broadcast use vstd::std_specs::hash::group_hash_axioms;

/// Mathematical model of a store: the two tables, the label index, the two
/// adjacency indexes and the two id counters.
pub struct GraphView {
    pub nodes: Map<NodeId, NodeView>,
    pub edges: Map<EdgeId, EdgeView>,
    pub labels: Map<Seq<char>, Seq<NodeId>>,
    pub out: Map<NodeId, Seq<EdgeId>>,
    pub inc: Map<NodeId, Seq<EdgeId>>,
    pub next_node: NodeId,
    pub next_edge: EdgeId,
}

/// The list that an index holds for a key; a key it does not hold has the empty list.
pub open spec fn list_of<K>(m: Map<K, Seq<u64>>, k: K) -> Seq<u64> {
    if m.contains_key(k) {
        m[k]
    } else {
        Seq::empty()
    }
}

/// Appends an id to the list of one key of an index.
pub open spec fn append_to<K>(m: Map<K, Seq<u64>>, k: K, id: u64) -> Map<K, Seq<u64>> {
    m.insert(k, list_of(m, k).push(id))
}

/// Indexes a node id under each label of a list, in order; a label listed
/// twice gives two entries.
pub open spec fn index_labels(
    m: Map<Seq<char>, Seq<u64>>,
    labels: Seq<Seq<char>>,
    id: u64,
) -> Map<Seq<char>, Seq<u64>>
    decreases labels.len(),
{
    if labels.len() == 0 {
        m
    } else {
        append_to(index_labels(m, labels.drop_last(), id), labels.last(), id)
    }
}

/// The shared counter rule of insertion, loading and replay:
/// the counter becomes `max(counter, id + 1)`.
pub open spec fn advance(counter: u64, id: u64) -> u64 {
    if id >= counter {
        (id + 1) as u64
    } else {
        counter
    }
}

/// The empty store.
pub open spec fn empty_view() -> GraphView {
    GraphView {
        nodes: Map::empty(),
        edges: Map::empty(),
        labels: Map::empty(),
        out: Map::empty(),
        inc: Map::empty(),
        next_node: 1,
        next_edge: 1,
    }
}

/// Stores a node under its id and indexes it under its labels.
pub open spec fn put_node(v: GraphView, n: NodeView) -> GraphView {
    GraphView {
        nodes: v.nodes.insert(n.id, n),
        labels: index_labels(v.labels, n.labels, n.id),
        next_node: advance(v.next_node, n.id),
        ..v
    }
}

/// Stores an edge under its id and indexes it under both endpoints.
pub open spec fn put_edge(v: GraphView, e: EdgeView) -> GraphView {
    GraphView {
        edges: v.edges.insert(e.id, e),
        out: append_to(v.out, e.from_node, e.id),
        inc: append_to(v.inc, e.to_node, e.id),
        next_edge: advance(v.next_edge, e.id),
        ..v
    }
}

/// The nodes that a list of ids resolves to, in order; ids with no node are skipped.
pub open spec fn resolve_nodes(nodes: Map<NodeId, NodeView>, ids: Seq<NodeId>) -> Seq<NodeView>
    decreases ids.len(),
{
    if ids.len() == 0 {
        Seq::empty()
    } else {
        let prev = resolve_nodes(nodes, ids.drop_last());
        if nodes.contains_key(ids.last()) {
            prev.push(nodes[ids.last()])
        } else {
            prev
        }
    }
}

pub open spec fn text_of(t: Option<&str>) -> Option<Seq<char>> {
    match t {
        Some(s) => Some(s@),
        None => None,
    }
}

/// Whether an edge passes an optional type filter.
pub open spec fn type_matches(e: EdgeView, t: Option<Seq<char>>) -> bool {
    match t {
        Some(s) => e.edge_type == s,
        None => true,
    }
}

/// The far endpoint of an edge: its destination going out, its source coming in.
pub open spec fn far_end(e: EdgeView, outgoing: bool) -> NodeId {
    if outgoing {
        e.to_node
    } else {
        e.from_node
    }
}

/// The (edge, far node) pairs of a list of edge ids, in order: edges that are
/// missing, of another type, or whose far node does not resolve are skipped.
pub open spec fn neighbor_pairs(
    v: GraphView,
    ids: Seq<EdgeId>,
    t: Option<Seq<char>>,
    outgoing: bool,
) -> Seq<(EdgeView, NodeView)>
    decreases ids.len(),
{
    if ids.len() == 0 {
        Seq::empty()
    } else {
        let prev = neighbor_pairs(v, ids.drop_last(), t, outgoing);
        let eid = ids.last();
        if v.edges.contains_key(eid) && type_matches(v.edges[eid], t) && v.nodes.contains_key(
            far_end(v.edges[eid], outgoing),
        ) {
            prev.push((v.edges[eid], v.nodes[far_end(v.edges[eid], outgoing)]))
        } else {
            prev
        }
    }
}

/// A list holds exactly the nodes of a table, each once.
pub open spec fn lists_node_table(nodes: Map<NodeId, NodeView>, r: Seq<Node>) -> bool {
    &&& forall|i: int| 0 <= i < r.len() ==> #[trigger] nodes.contains_key(r[i].id) && r[i]@ == nodes[r[i].id]
    &&& forall|k: NodeId| #[trigger] nodes.contains_key(k) ==> exists|i: int| 0 <= i < r.len() && r[i].id == k
    &&& forall|i: int, j: int| 0 <= i < r.len() && 0 <= j < r.len() && i != j ==> #[trigger] r[i].id != #[trigger] r[j].id
}

pub open spec fn pair_views(r: Seq<(Edge, Node)>) -> Seq<(EdgeView, NodeView)> {
    r.map_values(|p: (Edge, Node)| (p.0@, p.1@))
}

pub open spec fn node_views(r: Seq<Node>) -> Seq<NodeView> {
    r.map_values(|n: Node| n@)
}

/// In-memory graph store: node and edge tables, a label index and two
/// adjacency indexes, all updated together by each insertion.
pub struct InMemoryGraphStore {
    nodes: HashMap<NodeId, Node>,
    edges: HashMap<EdgeId, Edge>,
    node_order: Vec<NodeId>,
    edge_order: Vec<EdgeId>,
    label_index: Vec<(String, Vec<NodeId>)>,
    adjacency_out: HashMap<NodeId, Vec<EdgeId>>,
    adjacency_in: HashMap<NodeId, Vec<EdgeId>>,
    next_node_id: NodeId,
    next_edge_id: EdgeId,
}

impl View for InMemoryGraphStore {
    type V = GraphView;

    closed spec fn view(&self) -> GraphView {
        GraphView {
            nodes: self.nodes@.map_values(|n: Node| n@),
            edges: self.edges@.map_values(|e: Edge| e@),
            labels: self.label_view(),
            out: self.adjacency_out@.map_values(|l: Vec<EdgeId>| l@),
            inc: self.adjacency_in@.map_values(|l: Vec<EdgeId>| l@),
            next_node: self.next_node_id,
            next_edge: self.next_edge_id,
        }
    }
}

impl InMemoryGraphStore {
    closed spec fn has_label_slot(&self, l: Seq<char>) -> bool {
        exists|i: int| 0 <= i < self.label_index@.len() && (#[trigger] self.label_index@[i]).0@ == l
    }

    closed spec fn label_slot(&self, l: Seq<char>) -> int {
        choose|i: int| 0 <= i < self.label_index@.len() && (#[trigger] self.label_index@[i]).0@ == l
    }

    closed spec fn label_view(&self) -> Map<Seq<char>, Seq<NodeId>> {
        Map::new(
            |l: Seq<char>| self.has_label_slot(l),
            |l: Seq<char>| self.label_index@[self.label_slot(l)].1@,
        )
    }

    /// Ids of the nodes and edges in the order they were first stored.
    pub closed spec fn node_order_view(&self) -> Seq<NodeId> {
        self.node_order@
    }

    pub closed spec fn edge_order_view(&self) -> Seq<EdgeId> {
        self.edge_order@
    }

    pub closed spec fn wf(&self) -> bool {
        &&& self.node_order@.no_duplicates()
        &&& self.edge_order@.no_duplicates()
        &&& forall|k: NodeId| self.nodes@.contains_key(k) <==> self.node_order@.contains(k)
        &&& forall|k: EdgeId| self.edges@.contains_key(k) <==> self.edge_order@.contains(k)
        &&& forall|k: NodeId| #[trigger] self.nodes@.contains_key(k) ==> self.nodes@[k].id == k
        &&& forall|k: EdgeId| #[trigger] self.edges@.contains_key(k) ==> self.edges@[k].id == k
        &&& forall|i: int, j: int|
            0 <= i < self.label_index@.len() && 0 <= j < self.label_index@.len() && i != j
                ==> (#[trigger] self.label_index@[i]).0@ != (#[trigger] self.label_index@[j]).0@
    }

    /// Every stored node and edge carries the id it is stored under.
    pub proof fn lemma_stored_ids(&self)
        requires
            self.wf(),
        ensures
            forall|k: NodeId| #[trigger] self@.nodes.contains_key(k) ==> self@.nodes[k].id == k,
            forall|k: EdgeId| #[trigger] self@.edges.contains_key(k) ==> self@.edges[k].id == k,
    {
        assert forall|k: NodeId| #[trigger] self@.nodes.contains_key(k) implies self@.nodes[k].id == k by {
            assert(self.nodes@.contains_key(k));
        }
        assert forall|k: EdgeId| #[trigger] self@.edges.contains_key(k) implies self@.edges[k].id == k by {
            assert(self.edges@.contains_key(k));
        }
    }

    /// The first-stored orders list each stored id exactly once.
    pub proof fn lemma_orders(&self)
        requires
            self.wf(),
        ensures
            self.node_order_view().no_duplicates(),
            self.edge_order_view().no_duplicates(),
            forall|k: NodeId| #[trigger] self@.nodes.contains_key(k) <==> self.node_order_view().contains(k),
            forall|k: EdgeId| #[trigger] self@.edges.contains_key(k) <==> self.edge_order_view().contains(k),
    {
        assert(self.nodes@.dom() == self@.nodes.dom());
        assert(self.edges@.dom() == self@.edges.dom());
    }

    pub fn new() -> (r: Self)
        ensures
            r.wf(),
            r@ == empty_view(),
            consistent(r@),
            tight(r@),
    {
        proof {
            lemma_empty_consistent();
        }
        let r = InMemoryGraphStore {
            nodes: HashMap::new(),
            edges: HashMap::new(),
            node_order: Vec::new(),
            edge_order: Vec::new(),
            label_index: Vec::new(),
            adjacency_out: HashMap::new(),
            adjacency_in: HashMap::new(),
            next_node_id: 1,
            next_edge_id: 1,
        };
        assert(r@.nodes =~= Map::empty());
        assert(r@.edges =~= Map::empty());
        assert(r@.labels =~= Map::empty());
        assert(r@.out =~= Map::empty());
        assert(r@.inc =~= Map::empty());
        r
    }

    /// Position of a label in the label index, if it has one.
    fn find_label(&self, label: &str) -> (r: Option<usize>)
        requires
            self.wf(),
        ensures
            match r {
                Some(i) => i < self.label_index@.len() && self.label_index@[i as int].0@ == label@,
                None => !self.has_label_slot(label@),
            },
    {
        let mut i: usize = 0;
        while i < self.label_index.len()
            invariant
                i <= self.label_index@.len(),
                forall|k: int| 0 <= k < i ==> (#[trigger] self.label_index@[k]).0@ != label@,
            decreases self.label_index@.len() - i,
        {
            if same_text(self.label_index[i].0.as_str(), label) {
                return Some(i);
            }
            i = i + 1;
        }
        None
    }

    /// Appends a node id to the index list of one label.
    fn index_label(&mut self, label: String, id: NodeId)
        requires
            old(self).wf(),
        ensures
            final(self).wf(),
            final(self)@ == (GraphView { labels: append_to(old(self)@.labels, label@, id), ..old(self)@ }),
            final(self).node_order_view() == old(self).node_order_view(),
            final(self).edge_order_view() == old(self).edge_order_view(),
    {
        let ghost l = label@;
        match self.find_label(label.as_str()) {
            Some(i) => {
                self.label_index[i].1.push(id);
                assert forall|k: Seq<char>| #[trigger] self.label_view().contains_key(k)
                    == append_to(old(self)@.labels, l, id).contains_key(k) by {
                    if old(self).has_label_slot(k) {
                        let j = old(self).label_slot(k);
                        assert(self.label_index@[j].0@ == k);
                    }
                    if self.has_label_slot(k) {
                        let j = self.label_slot(k);
                        assert(old(self).label_index@[j].0@ == k);
                    }
                }
                assert(old(self).label_slot(l) == i as int);
                assert(self.label_slot(l) == i as int);
                assert forall|k: Seq<char>| self.label_view().contains_key(k) && k != l
                    implies #[trigger] self.label_view()[k] == old(self).label_view()[k] by {
                    let j = self.label_slot(k);
                    assert(old(self).label_index@[j].0@ == k);
                    assert(old(self).label_slot(k) == j);
                }
                assert(self.label_view() =~= append_to(old(self)@.labels, l, id));
            },
            None => {
                let mut ids: Vec<NodeId> = Vec::new();
                ids.push(id);
                self.label_index.push((label, ids));
                let ghost n = old(self).label_index@.len() as int;
                assert(self.label_index@[n].0@ == l);
                assert forall|k: Seq<char>| #[trigger] self.label_view().contains_key(k)
                    == append_to(old(self)@.labels, l, id).contains_key(k) by {
                    if old(self).has_label_slot(k) {
                        let j = old(self).label_slot(k);
                        assert(self.label_index@[j].0@ == k);
                    }
                    if self.has_label_slot(k) && k != l {
                        let j = self.label_slot(k);
                        assert(old(self).label_index@[j].0@ == k);
                    }
                }
                assert(self.label_slot(l) == n);
                assert forall|k: Seq<char>| self.label_view().contains_key(k) && k != l
                    implies #[trigger] self.label_view()[k] == old(self).label_view()[k] by {
                    let j = self.label_slot(k);
                    assert(old(self).label_index@[j].0@ == k);
                    assert(old(self).label_slot(k) == j);
                }
                assert(self.label_view()[l] =~= seq![id]);
                assert(self.label_view() =~= append_to(old(self)@.labels, l, id));
            },
        }
        assert(self@.nodes =~= old(self)@.nodes);
        assert(self@.edges =~= old(self)@.edges);
        assert(self@.out =~= old(self)@.out);
        assert(self@.inc =~= old(self)@.inc);
    }

    /// Appends an edge id to the list of one node in an adjacency index.
    fn index_edge(adj: &mut HashMap<NodeId, Vec<EdgeId>>, node: NodeId, id: EdgeId)
        ensures
            final(adj)@.map_values(|l: Vec<EdgeId>| l@) == append_to(
                old(adj)@.map_values(|l: Vec<EdgeId>| l@),
                node,
                id,
            ),
    {
        let mut list = match adj.remove(&node) {
            Some(l) => l,
            None => Vec::new(),
        };
        list.push(id);
        adj.insert(node, list);
        assert(final(adj)@.map_values(|l: Vec<EdgeId>| l@) =~= append_to(
            old(adj)@.map_values(|l: Vec<EdgeId>| l@),
            node,
            id,
        ));
    }

    /// Stores a node under the given id, indexes it under each of its labels
    /// and advances the node counter past the id. Shared by insertion,
    /// segment loading and log replay.
    pub fn put_node(&mut self, id: NodeId, labels: Vec<String>, properties: Properties)
        requires
            old(self).wf(),
            id < u64::MAX,
        ensures
            final(self).wf(),
            final(self)@ == put_node(
                old(self)@,
                NodeView { id, labels: texts(labels@), properties },
            ),
            final(self).edge_order_view() == old(self).edge_order_view(),
    {
        let ghost lv = texts(labels@);
        let ghost orig = self@;
        let indexed = copy_strings(&labels);
        if !self.nodes.contains_key(&id) {
            self.node_order.push(id);
            proof {
                assert forall|a: int, b: int|
                    0 <= a < self.node_order@.len() && 0 <= b < self.node_order@.len() && a != b
                    implies self.node_order@[a] != self.node_order@[b] by {
                    if a < old(self).node_order@.len() && b < old(self).node_order@.len() {
                    } else if a < old(self).node_order@.len() {
                        assert(old(self).node_order@.contains(self.node_order@[a]));
                    } else {
                        assert(old(self).node_order@.contains(self.node_order@[b]));
                    }
                }
                assert forall|k: NodeId| old(self).node_order@.contains(k) implies self.node_order@.contains(k) by {
                    let j = choose|j: int| 0 <= j < old(self).node_order@.len() && old(self).node_order@[j] == k;
                    assert(self.node_order@[j] == k);
                }
                assert(self.node_order@[self.node_order@.len() - 1] == id);
                assert forall|k: NodeId| self.node_order@.contains(k) && k != id implies old(self).node_order@.contains(k) by {
                    let j = choose|j: int| 0 <= j < self.node_order@.len() && self.node_order@[j] == k;
                    assert(old(self).node_order@[j] == k);
                }
            }
        }
        self.nodes.insert(id, Node { id, labels, properties });
        if id >= self.next_node_id {
            self.next_node_id = id + 1;
        }
        proof {
            let nv = NodeView { id, labels: lv, properties };
            assert(self@.nodes =~= orig.nodes.insert(id, nv));
            assert(self.label_view() =~= orig.labels) by {
                assert(self.label_index@ == old(self).label_index@);
            }
            assert(self@ == GraphView { nodes: orig.nodes.insert(id, nv), next_node: advance(orig.next_node, id), ..orig });
            assert(lv.take(0) =~= Seq::<Seq<char>>::empty());
        }
        let ghost mid = self@;
        let mut i: usize = 0;
        while i < indexed.len()
            invariant
                self.wf(),
                i <= indexed@.len(),
                indexed@ == labels@,
                lv == texts(labels@),
                self@ == (GraphView { labels: index_labels(mid.labels, lv.take(i as int), id), ..mid }),
                self.edge_order_view() == old(self).edge_order_view(),
            decreases indexed@.len() - i,
        {
            self.index_label(indexed[i].clone(), id);
            assert(lv.take(i as int + 1).drop_last() =~= lv.take(i as int));
            i = i + 1;
        }
        assert(lv.take(labels@.len() as int) =~= lv);
        proof {
            assert(self@.labels == index_labels(orig.labels, lv, id));
            assert(self@ =~= put_node(orig, NodeView { id, labels: lv, properties }));
        }
    }

    /// Stores an edge under the given id, appends it to the outgoing list of
    /// its source and the incoming list of its destination, and advances the
    /// edge counter past the id.
    pub fn put_edge(&mut self, id: EdgeId, from: NodeId, to: NodeId, edge_type: String, properties: Properties)
        requires
            old(self).wf(),
            id < u64::MAX,
        ensures
            final(self).wf(),
            final(self)@ == put_edge(
                old(self)@,
                EdgeView { id, from_node: from, to_node: to, edge_type: edge_type@, properties },
            ),
            final(self).node_order_view() == old(self).node_order_view(),
    {
        if !self.edges.contains_key(&id) {
            self.edge_order.push(id);
            proof {
                assert forall|a: int, b: int|
                    0 <= a < self.edge_order@.len() && 0 <= b < self.edge_order@.len() && a != b
                    implies self.edge_order@[a] != self.edge_order@[b] by {
                    if a < old(self).edge_order@.len() && b < old(self).edge_order@.len() {
                    } else if a < old(self).edge_order@.len() {
                        assert(old(self).edge_order@.contains(self.edge_order@[a]));
                    } else {
                        assert(old(self).edge_order@.contains(self.edge_order@[b]));
                    }
                }
                assert forall|k: EdgeId| old(self).edge_order@.contains(k) implies self.edge_order@.contains(k) by {
                    let j = choose|j: int| 0 <= j < old(self).edge_order@.len() && old(self).edge_order@[j] == k;
                    assert(self.edge_order@[j] == k);
                }
                assert(self.edge_order@[self.edge_order@.len() - 1] == id);
                assert forall|k: EdgeId| self.edge_order@.contains(k) && k != id implies old(self).edge_order@.contains(k) by {
                    let j = choose|j: int| 0 <= j < self.edge_order@.len() && self.edge_order@[j] == k;
                    assert(old(self).edge_order@[j] == k);
                }
            }
        }
        let ghost ev = EdgeView { id, from_node: from, to_node: to, edge_type: edge_type@, properties };
        self.edges.insert(id, Edge { id, from_node: from, to_node: to, edge_type, properties });
        Self::index_edge(&mut self.adjacency_out, from, id);
        Self::index_edge(&mut self.adjacency_in, to, id);
        if id >= self.next_edge_id {
            self.next_edge_id = id + 1;
        }
        proof {
            assert(self@.edges =~= old(self)@.edges.insert(id, ev));
            assert(self.label_view() =~= old(self).label_view()) by {
                assert(self.label_index@ == old(self).label_index@);
            }
            assert(self@.nodes =~= old(self)@.nodes);
        }
    }
    /// The far-end pairs of a list of edge ids, filtered by an optional type.
    fn collect_neighbors(&self, ids: &Vec<EdgeId>, edge_type: Option<&str>, outgoing: bool) -> (r: Vec<(Edge, Node)>)
        requires
            self.wf(),
        ensures
            pair_views(r@) == neighbor_pairs(self@, ids@, text_of(edge_type), outgoing),
    {
        let mut result: Vec<(Edge, Node)> = Vec::new();
        let mut i: usize = 0;
        while i < ids.len()
            invariant
                i <= ids@.len(),
                pair_views(result@) == neighbor_pairs(self@, ids@.take(i as int), text_of(edge_type), outgoing),
            decreases ids@.len() - i,
        {
            let ghost prev = result@;
            assert(ids@.take(i as int + 1).drop_last() =~= ids@.take(i as int));
            match self.edges.get(&ids[i]) {
                Some(edge) => {
                    let keep = match edge_type {
                        Some(et) => same_text(edge.edge_type.as_str(), et),
                        None => true,
                    };
                    if keep {
                        let end = if outgoing { edge.to_node } else { edge.from_node };
                        match self.nodes.get(&end) {
                            Some(node) => {
                                result.push((edge.clone(), node.clone()));
                                assert(pair_views(result@) =~= pair_views(prev).push((edge@, node@)));
                            },
                            None => {},
                        }
                    }
                },
                None => {},
            }
            i = i + 1;
        }
        assert(ids@.take(ids@.len() as int) =~= ids@);
        result
    }

    /// The nodes of the node table, each once, in the order they were first stored.
    pub fn segment_nodes(&self) -> (r: Vec<Node>)
        requires
            self.wf(),
        ensures
            node_views(r@) == self.node_order_view().map_values(|k: NodeId| self@.nodes[k]),
    {
        let mut result: Vec<Node> = Vec::new();
        let mut i: usize = 0;
        while i < self.node_order.len()
            invariant
                self.wf(),
                i <= self.node_order@.len(),
                node_views(result@) == self.node_order@.take(i as int).map_values(|k: NodeId| self@.nodes[k]),
            decreases self.node_order@.len() - i,
        {
            let ghost prev = result@;
            let id = self.node_order[i];
            assert(self.node_order@.contains(id));
            let node = self.nodes.get(&id).unwrap();
            result.push(node.clone());
            assert(node_views(result@) =~= node_views(prev).push(self@.nodes[id]));
            assert(self.node_order@.take(i as int + 1).map_values(|k: NodeId| self@.nodes[k])
                =~= self.node_order@.take(i as int).map_values(|k: NodeId| self@.nodes[k]).push(self@.nodes[id]));
            i = i + 1;
        }
        assert(self.node_order@.take(self.node_order@.len() as int) =~= self.node_order@);
        result
    }

    /// The edges of the edge table, each once, in the order they were first stored.
    pub fn segment_edges(&self) -> (r: Vec<Edge>)
        requires
            self.wf(),
        ensures
            r@.map_values(|e: Edge| e@) == self.edge_order_view().map_values(|k: EdgeId| self@.edges[k]),
    {
        let mut result: Vec<Edge> = Vec::new();
        let mut i: usize = 0;
        while i < self.edge_order.len()
            invariant
                self.wf(),
                i <= self.edge_order@.len(),
                result@.map_values(|e: Edge| e@) == self.edge_order@.take(i as int).map_values(|k: EdgeId| self@.edges[k]),
            decreases self.edge_order@.len() - i,
        {
            let ghost prev = result@;
            let id = self.edge_order[i];
            assert(self.edge_order@.contains(id));
            let edge = self.edges.get(&id).unwrap();
            result.push(edge.clone());
            assert(result@.map_values(|e: Edge| e@) =~= prev.map_values(|e: Edge| e@).push(self@.edges[id]));
            assert(self.edge_order@.take(i as int + 1).map_values(|k: EdgeId| self@.edges[k])
                =~= self.edge_order@.take(i as int).map_values(|k: EdgeId| self@.edges[k]).push(self@.edges[id]));
            i = i + 1;
        }
        assert(self.edge_order@.take(self.edge_order@.len() as int) =~= self.edge_order@);
        result
    }
}

impl GraphReadStore for InMemoryGraphStore {
    open spec fn well_formed(&self) -> bool {
        self.wf()
    }

    fn scan_all(&self) -> (r: Result<Vec<Node>, EngineError>)
        ensures
            r is Ok,
            lists_node_table(self@.nodes, r->Ok_0@),
    {
        let r = self.segment_nodes();
        assert(node_views(r@).len() == r@.len());
        assert(r@.len() == self.node_order@.len());
        assert forall|i: int| 0 <= i < r@.len() implies #[trigger] r@[i].id == self.node_order@[i] by {
            assert(node_views(r@)[i] == r@[i]@);
            assert(self.node_order@.contains(self.node_order@[i]));
            assert(self.nodes@.contains_key(self.node_order@[i]));
        }
        assert forall|i: int| 0 <= i < r@.len() implies #[trigger] self@.nodes.contains_key(r@[i].id)
            && r@[i]@ == self@.nodes[r@[i].id] by {
            assert(node_views(r@)[i] == r@[i]@);
            assert(self.node_order@.contains(self.node_order@[i]));
        }
        assert forall|k: NodeId| #[trigger] self@.nodes.contains_key(k) implies exists|i: int| 0 <= i < r@.len() && r@[i].id == k by {
            assert(self.nodes@.dom() == self@.nodes.dom());
            assert(self.nodes@.contains_key(k));
            assert(self.node_order@.contains(k));
            let i = choose|i: int| 0 <= i < self.node_order@.len() && self.node_order@[i] == k;
            assert(node_views(r@)[i] == r@[i]@);
            assert(r@[i].id == k);
        }
        assert forall|i: int, j: int| 0 <= i < r@.len() && 0 <= j < r@.len() && i != j
            implies #[trigger] r@[i].id != #[trigger] r@[j].id by {
            assert(node_views(r@)[i] == r@[i]@);
            assert(node_views(r@)[j] == r@[j]@);
            assert(self.node_order@.contains(self.node_order@[i]));
            assert(self.node_order@.contains(self.node_order@[j]));
        }
        assert(lists_node_table(self@.nodes, r@));
        Ok(r)
    }

    fn scan_by_label(&self, label: &str) -> (r: Result<Vec<Node>, EngineError>)
        ensures
            r is Ok,
            node_views(r->Ok_0@) == resolve_nodes(self@.nodes, list_of(self@.labels, label@)),
    {
        match self.find_label(label) {
            Some(slot) => {
                assert(self.label_slot(label@) == slot as int);
                let ids = &self.label_index[slot].1;
                let mut result: Vec<Node> = Vec::new();
                let mut i: usize = 0;
                while i < ids.len()
                    invariant
                        i <= ids@.len(),
                        node_views(result@) == resolve_nodes(self@.nodes, ids@.take(i as int)),
                    decreases ids@.len() - i,
                {
                    let ghost prev = result@;
                    assert(ids@.take(i as int + 1).drop_last() =~= ids@.take(i as int));
                    match self.nodes.get(&ids[i]) {
                        Some(node) => {
                            result.push(node.clone());
                            assert(node_views(result@) =~= node_views(prev).push(node@));
                        },
                        None => {},
                    }
                    i = i + 1;
                }
                assert(ids@.take(ids@.len() as int) =~= ids@);
                Ok(result)
            },
            None => {
                let result: Vec<Node> = Vec::new();
                assert(node_views(result@) =~= Seq::empty());
                Ok(result)
            },
        }
    }

    fn get_node(&self, id: NodeId) -> (r: Result<Option<Node>, EngineError>)
        ensures
            match r {
                Ok(Some(n)) => self@.nodes.contains_key(id) && n@ == self@.nodes[id] && n.id == id,
                Ok(None) => !self@.nodes.contains_key(id),
                Err(_) => false,
            },
    {
        match self.nodes.get(&id) {
            Some(n) => {
                assert(self.nodes@.contains_key(id));
                Ok(Some(n.clone()))
            },
            None => Ok(None),
        }
    }

    fn get_neighbors(&self, node_id: NodeId, edge_type: Option<&str>) -> (r: Result<Vec<(Edge, Node)>, EngineError>)
        ensures
            r is Ok,
            pair_views(r->Ok_0@) == neighbor_pairs(self@, list_of(self@.out, node_id), text_of(edge_type), true),
    {
        match self.adjacency_out.get(&node_id) {
            Some(ids) => Ok(self.collect_neighbors(ids, edge_type, true)),
            None => {
                let result: Vec<(Edge, Node)> = Vec::new();
                assert(pair_views(result@) =~= Seq::empty());
                Ok(result)
            },
        }
    }

    fn get_neighbors_incoming(&self, node_id: NodeId, edge_type: Option<&str>) -> (r: Result<Vec<(Edge, Node)>, EngineError>)
        ensures
            r is Ok,
            pair_views(r->Ok_0@) == neighbor_pairs(self@, list_of(self@.inc, node_id), text_of(edge_type), false),
    {
        match self.adjacency_in.get(&node_id) {
            Some(ids) => Ok(self.collect_neighbors(ids, edge_type, false)),
            None => {
                let result: Vec<(Edge, Node)> = Vec::new();
                assert(pair_views(result@) =~= Seq::empty());
                Ok(result)
            },
        }
    }
}

impl GraphWriteStore for InMemoryGraphStore {
    /// Fails only when the node id space is used up.
    fn add_node(&mut self, labels: Vec<String>, properties: Properties) -> (r: Result<NodeId, EngineError>)
        ensures
            match r {
                Ok(id) => old(self)@.next_node < u64::MAX && id == old(self)@.next_node
                    && final(self)@ == put_node(old(self)@, NodeView { id, labels: texts(labels@), properties }),
                Err(_) => old(self)@.next_node == u64::MAX && final(self)@ == old(self)@,
            },
            consistent(old(self)@) ==> consistent(final(self)@),
            consistent(old(self)@) && tight(old(self)@) ==> tight(final(self)@),
    {
        let id = self.next_node_id;
        if id == u64::MAX {
            return Err(EngineError::StorageIo("node id space exhausted".to_string()));
        }
        let ghost lv = texts(labels@);
        self.put_node(id, labels, properties);
        proof {
            if consistent(old(self)@) {
                lemma_put_node(old(self)@, NodeView { id, labels: lv, properties });
            }
        }
        Ok(id)
    }

    /// Fails only when the edge id space is used up; the endpoints need not exist.
    fn add_edge(&mut self, from: NodeId, to: NodeId, edge_type: String, properties: Properties) -> (r: Result<EdgeId, EngineError>)
        ensures
            match r {
                Ok(id) => old(self)@.next_edge < u64::MAX && id == old(self)@.next_edge
                    && final(self)@ == put_edge(
                        old(self)@,
                        EdgeView { id, from_node: from, to_node: to, edge_type: edge_type@, properties },
                    ),
                Err(_) => old(self)@.next_edge == u64::MAX && final(self)@ == old(self)@,
            },
            consistent(old(self)@) ==> consistent(final(self)@),
            consistent(old(self)@) && tight(old(self)@) ==> tight(final(self)@),
    {
        let id = self.next_edge_id;
        if id == u64::MAX {
            return Err(EngineError::StorageIo("edge id space exhausted".to_string()));
        }
        let ghost et = edge_type@;
        self.put_edge(id, from, to, edge_type, properties);
        proof {
            if consistent(old(self)@) {
                lemma_put_edge(old(self)@, EdgeView { id, from_node: from, to_node: to, edge_type: et, properties });
            }
        }
        Ok(id)
    }
}

} // verus!

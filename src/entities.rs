use vstd::prelude::*;

verus! {

pub type NodeId = u64;

pub type EdgeId = u64;

/// Declares serde_json's `Map`, which holds a property mapping in its JSON form.
#[verifier::external_type_specification]
#[verifier::external_body]
#[verifier::reject_recursive_types(K)]
#[verifier::reject_recursive_types(V)]
pub struct ExJsonMap<K, V>(serde_json::Map<K, V>);

/// Declares serde_json's `Value`, the JSON projection of one property value.
#[verifier::external_type_specification]
#[verifier::external_body]
pub struct ExJsonValue(serde_json::Value);

/// Relies on serde_json's `Clone` for `Map<String, Value>`: it clones the
/// underlying entries one by one, so the copy equals its source.
pub assume_specification[ <serde_json::Map<String, serde_json::Value> as Clone>::clone ](
    m: &serde_json::Map<String, serde_json::Value>,
) -> (r: serde_json::Map<String, serde_json::Value>)
    ensures
        r == *m,
;

/// A property mapping: property name to the JSON projection of its value.
pub type Properties = serde_json::Map<String, serde_json::Value>;

/// The single error kind of the storage core: a storage or I/O failure,
/// with a message naming the step that failed.
#[derive(Debug)]
pub enum EngineError {
    StorageIo(String),
}

#[derive(Debug)]
pub struct Node {
    pub id: NodeId,
    pub labels: Vec<String>,
    pub properties: Properties,
}

#[derive(Debug)]
pub struct Edge {
    pub id: EdgeId,
    pub from_node: NodeId,
    pub to_node: NodeId,
    pub edge_type: String,
    pub properties: Properties,
}

/// Mathematical model of a node: its id, its labels as text, its properties.
pub struct NodeView {
    pub id: NodeId,
    pub labels: Seq<Seq<char>>,
    pub properties: Properties,
}

/// Mathematical model of an edge.
pub struct EdgeView {
    pub id: EdgeId,
    pub from_node: NodeId,
    pub to_node: NodeId,
    pub edge_type: Seq<char>,
    pub properties: Properties,
}

pub open spec fn texts(v: Seq<String>) -> Seq<Seq<char>> {
    v.map_values(|s: String| s@)
}

impl View for Node {
    type V = NodeView;

    open spec fn view(&self) -> NodeView {
        NodeView { id: self.id, labels: texts(self.labels@), properties: self.properties }
    }
}

impl View for Edge {
    type V = EdgeView;

    open spec fn view(&self) -> EdgeView {
        EdgeView {
            id: self.id,
            from_node: self.from_node,
            to_node: self.to_node,
            edge_type: self.edge_type@,
            properties: self.properties,
        }
    }
}

/// Copies a list of strings, keeping every element.
pub fn copy_strings(v: &Vec<String>) -> (r: Vec<String>)
    ensures
        r@ == v@,
{
    let mut r: Vec<String> = Vec::new();
    let mut i: usize = 0;
    while i < v.len()
        invariant
            i <= v@.len(),
            r@ == v@.take(i as int),
        decreases v@.len() - i,
    {
        r.push(v[i].clone());
        assert(v@.take(i as int + 1) =~= v@.take(i as int).push(v@[i as int]));
        i = i + 1;
    }
    assert(v@.take(v@.len() as int) =~= v@);
    r
}

impl Clone for Node {
    fn clone(&self) -> (r: Self)
        ensures
            r@ == self@,
    {
        Node { id: self.id, labels: copy_strings(&self.labels), properties: self.properties.clone() }
    }
}

impl Clone for Edge {
    fn clone(&self) -> (r: Self)
        ensures
            r@ == self@,
    {
        Edge {
            id: self.id,
            from_node: self.from_node,
            to_node: self.to_node,
            edge_type: self.edge_type.clone(),
            properties: self.properties.clone(),
        }
    }
}

/// Whether two texts are equal, character by character.
pub fn same_text(a: &str, b: &str) -> (r: bool)
    ensures
        r == (a@ == b@),
{
    let n = a.unicode_len();
    if n != b.unicode_len() {
        return false;
    }
    let mut i: usize = 0;
    while i < n
        invariant
            n == a@.len(),
            n == b@.len(),
            i <= n,
            forall|k: int| 0 <= k < i ==> a@[k] == b@[k],
        decreases n - i,
    {
        if a.get_char(i) != b.get_char(i) {
            return false;
        }
        i = i + 1;
    }
    assert(a@ =~= b@);
    true
}

/// Read side of a graph store.
pub trait GraphReadStore {
    /// Structural well-formedness that every operation keeps.
    spec fn well_formed(&self) -> bool;

    fn scan_all(&self) -> Result<Vec<Node>, EngineError>
        requires
            self.well_formed(),
    ;

    fn scan_by_label(&self, label: &str) -> Result<Vec<Node>, EngineError>
        requires
            self.well_formed(),
    ;

    fn get_node(&self, id: NodeId) -> Result<Option<Node>, EngineError>
        requires
            self.well_formed(),
    ;

    fn get_neighbors(&self, node_id: NodeId, edge_type: Option<&str>) -> Result<
        Vec<(Edge, Node)>,
        EngineError,
    >
        requires
            self.well_formed(),
    ;

    fn get_neighbors_incoming(&self, node_id: NodeId, edge_type: Option<&str>) -> Result<
        Vec<(Edge, Node)>,
        EngineError,
    >
        requires
            self.well_formed(),
    ;
}

/// Write side of a graph store: insertion of nodes and edges under fresh ids.
pub trait GraphWriteStore: GraphReadStore {
    fn add_node(&mut self, labels: Vec<String>, properties: Properties) -> (r: Result<
        NodeId,
        EngineError,
    >)
        requires
            old(self).well_formed(),
        ensures
            final(self).well_formed(),
    ;

    fn add_edge(
        &mut self,
        from: NodeId,
        to: NodeId,
        edge_type: String,
        properties: Properties,
    ) -> (r: Result<EdgeId, EngineError>)
        requires
            old(self).well_formed(),
        ensures
            final(self).well_formed(),
    ;
}

} // verus!

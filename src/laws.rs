use vstd::prelude::*;
use crate::entities::{EdgeView, NodeView};
use crate::store::InMemoryGraphStore;
use crate::entities::EngineError;
use crate::entities::{Edge, Node};
use crate::segments::{
    edge_ids_fit, edges_segment, key_edges, key_id, key_nodes, law_segment_round_trip, len_or_zero,
    node_ids_fit, nodes_segment, read_edges, read_nodes,
};
use crate::wal::number_or_zero;
use crate::json::{item_number, member_len, json_parses, member_number, member_text, member_texts};
use crate::wal::{decoded, edge_kind, encodes, node_kind, load_view, put_edges, put_nodes, replay, WalRecord};
use crate::store::{
    append_to, empty_view, index_labels, list_of, neighbor_pairs, put_edge, put_node,
    resolve_nodes, type_matches, far_end, GraphView,
};

verus! {

/// The store's tables and indexes agree: every stored entity sits under its
/// own id, below its counter; a label list holds exactly the nodes carrying
/// that label; an adjacency list holds exactly the edges with that endpoint.
pub open spec fn consistent(v: GraphView) -> bool {
    &&& v.next_node >= 1
    &&& v.next_edge >= 1
    &&& forall|k: u64| #[trigger] v.nodes.contains_key(k) ==> v.nodes[k].id == k && k < v.next_node
    &&& forall|k: u64| #[trigger] v.edges.contains_key(k) ==> v.edges[k].id == k && k < v.next_edge
    &&& forall|l: Seq<char>, k: u64| #[trigger] list_of(v.labels, l).contains(k)
        <==> (v.nodes.contains_key(k) && v.nodes[k].labels.contains(l))
    &&& forall|n: u64, k: u64| #[trigger] list_of(v.out, n).contains(k)
        <==> (v.edges.contains_key(k) && v.edges[k].from_node == n)
    &&& forall|n: u64, k: u64| #[trigger] list_of(v.inc, n).contains(k)
        <==> (v.edges.contains_key(k) && v.edges[k].to_node == n)
}

/// Each counter sits just above the largest id of its class (at 1 when the class is empty).
pub open spec fn tight(v: GraphView) -> bool {
    &&& v.next_node == 1 || v.nodes.contains_key((v.next_node - 1) as u64)
    &&& v.next_edge == 1 || v.edges.contains_key((v.next_edge - 1) as u64)
}

/// Two stores hold the same tables and counters, and their indexes hold the
/// same ids under every key (the order inside a list aside).
pub open spec fn equivalent(a: GraphView, b: GraphView) -> bool {
    &&& a.nodes == b.nodes
    &&& a.edges == b.edges
    &&& a.next_node == b.next_node
    &&& a.next_edge == b.next_edge
    &&& forall|l: Seq<char>, k: u64| #[trigger] list_of(a.labels, l).contains(k) == list_of(b.labels, l).contains(k)
    &&& forall|n: u64, k: u64| #[trigger] list_of(a.out, n).contains(k) == list_of(b.out, n).contains(k)
    &&& forall|n: u64, k: u64| #[trigger] list_of(a.inc, n).contains(k) == list_of(b.inc, n).contains(k)
}

proof fn lemma_append_contains<K>(m: Map<K, Seq<u64>>, key: K, id: u64, q: K, k: u64)
    ensures
        list_of(append_to(m, key, id), q).contains(k) == (list_of(m, q).contains(k) || (q == key && k == id)),
{
    if q == key {
        let s = list_of(m, key);
        assert(list_of(append_to(m, key, id), q) == s.push(id));
        if s.push(id).contains(k) {
            let i = choose|i: int| 0 <= i < s.push(id).len() && s.push(id)[i] == k;
            if i < s.len() {
                assert(s[i] == k);
            }
        }
        if s.contains(k) {
            let i = choose|i: int| 0 <= i < s.len() && s[i] == k;
            assert(s.push(id)[i] == k);
        }
        if k == id {
            assert(s.push(id)[s.len() as int] == id);
        }
    } else {
        assert(list_of(append_to(m, key, id), q) == list_of(m, q));
    }
}

proof fn lemma_index_labels_contains(m: Map<Seq<char>, Seq<u64>>, labels: Seq<Seq<char>>, id: u64, l: Seq<char>, k: u64)
    ensures
        list_of(index_labels(m, labels, id), l).contains(k) == (list_of(m, l).contains(k) || (k == id && labels.contains(l))),
    decreases labels.len(),
{
    if labels.len() > 0 {
        let init = labels.drop_last();
        lemma_index_labels_contains(m, init, id, l, k);
        lemma_append_contains(index_labels(m, init, id), labels.last(), id, l, k);
        if labels.contains(l) {
            let i = choose|i: int| 0 <= i < labels.len() && labels[i] == l;
            if i < init.len() {
                assert(init[i] == l);
            }
        }
        if init.contains(l) {
            let i = choose|i: int| 0 <= i < init.len() && init[i] == l;
            assert(labels[i] == l);
        }
    }
}

/// The empty store is consistent and its counters are tight.
pub proof fn lemma_empty_consistent()
    ensures
        consistent(empty_view()),
        tight(empty_view()),
{
}

/// Storing a node under an unused id keeps a store consistent and its counters tight.
pub proof fn lemma_put_node(v: GraphView, n: NodeView)
    requires
        consistent(v),
        n.id < u64::MAX,
        !v.nodes.contains_key(n.id),
    ensures
        consistent(put_node(v, n)),
        tight(v) ==> tight(put_node(v, n)),
{
    let w = put_node(v, n);
    assert forall|l: Seq<char>, k: u64| #[trigger] list_of(w.labels, l).contains(k)
        <==> (w.nodes.contains_key(k) && w.nodes[k].labels.contains(l)) by {
        lemma_index_labels_contains(v.labels, n.labels, n.id, l, k);
    }
}

/// Storing an edge under an unused id keeps a store consistent and its counters tight.
pub proof fn lemma_put_edge(v: GraphView, e: EdgeView)
    requires
        consistent(v),
        e.id < u64::MAX,
        !v.edges.contains_key(e.id),
    ensures
        consistent(put_edge(v, e)),
        tight(v) ==> tight(put_edge(v, e)),
{
    let w = put_edge(v, e);
    assert forall|q: u64, k: u64| #[trigger] list_of(w.out, q).contains(k)
        <==> (w.edges.contains_key(k) && w.edges[k].from_node == q) by {
        lemma_append_contains(v.out, e.from_node, e.id, q, k);
    }
    assert forall|q: u64, k: u64| #[trigger] list_of(w.inc, q).contains(k)
        <==> (w.edges.contains_key(k) && w.edges[k].to_node == q) by {
        lemma_append_contains(v.inc, e.to_node, e.id, q, k);
    }
}

/// Id monotonicity: in a consistent store every stored id lies below its
/// counter, so the id that insertion issues (the counter) is above every id
/// of its class issued so far; and storing an entity, whether inserted,
/// loaded or replayed, leaves the counter above its id and never lowers it.
pub proof fn law_id_monotonicity(v: GraphView, n: NodeView, e: EdgeView)
    requires
        consistent(v),
        n.id < u64::MAX,
        !v.nodes.contains_key(n.id),
        e.id < u64::MAX,
        !v.edges.contains_key(e.id),
    ensures
        forall|k: u64| v.nodes.contains_key(k) ==> k < v.next_node,
        forall|k: u64| v.edges.contains_key(k) ==> k < v.next_edge,
        put_node(v, n).next_node > n.id,
        put_node(v, n).next_node >= v.next_node,
        consistent(put_node(v, n)),
        put_edge(v, e).next_edge > e.id,
        put_edge(v, e).next_edge >= v.next_edge,
        consistent(put_edge(v, e)),
{
    lemma_put_node(v, n);
    lemma_put_edge(v, e);
}

proof fn lemma_resolve_contains(nodes: Map<u64, NodeView>, ids: Seq<u64>, k: u64)
    requires
        forall|x: u64| #[trigger] nodes.contains_key(x) ==> nodes[x].id == x,
    ensures
        (exists|i: int| 0 <= i < resolve_nodes(nodes, ids).len() && #[trigger] resolve_nodes(nodes, ids)[i] == nodes[k]
            && nodes.contains_key(k)) == (ids.contains(k) && nodes.contains_key(k)),
        forall|i: int| 0 <= i < resolve_nodes(nodes, ids).len() ==> nodes.contains_key(#[trigger] resolve_nodes(nodes, ids)[i].id)
            && resolve_nodes(nodes, ids)[i] == nodes[resolve_nodes(nodes, ids)[i].id]
            && ids.contains(resolve_nodes(nodes, ids)[i].id),
    decreases ids.len(),
{
    if ids.len() > 0 {
        let init = ids.drop_last();
        lemma_resolve_contains(nodes, init, k);
        let prev = resolve_nodes(nodes, init);
        let cur = resolve_nodes(nodes, ids);
        assert forall|i: int| 0 <= i < cur.len() implies nodes.contains_key(#[trigger] cur[i].id)
            && cur[i] == nodes[cur[i].id] && ids.contains(cur[i].id) by {
            if i < prev.len() {
                assert(cur[i] == prev[i]);
                let j = choose|j: int| 0 <= j < init.len() && init[j] == prev[i].id;
                assert(ids[j] == prev[i].id);
            } else {
                assert(ids[ids.len() - 1] == ids.last());
            }
        }
        if ids.contains(k) && nodes.contains_key(k) {
            let j = choose|j: int| 0 <= j < ids.len() && ids[j] == k;
            if j < init.len() {
                assert(init[j] == k);
                let i = choose|i: int| 0 <= i < prev.len() && prev[i] == nodes[k] && nodes.contains_key(k);
                assert(cur[i] == nodes[k]);
            } else {
                assert(cur[prev.len() as int] == nodes[k]);
            }
        }
        if exists|i: int| 0 <= i < cur.len() && #[trigger] cur[i] == nodes[k] && nodes.contains_key(k) {
            let i = choose|i: int| 0 <= i < cur.len() && #[trigger] cur[i] == nodes[k] && nodes.contains_key(k);
            assert(nodes.contains_key(cur[i].id));
            assert(cur[i].id == k);
        }
    }
}

/// Label index completeness: in a store whose label lists hold exactly the
/// nodes carrying each label, the nodes that a scan by
/// label returns include node `k` exactly when `k` is stored and carries the label.
pub proof fn law_label_index(v: GraphView, l: Seq<char>, k: u64)
    requires
        forall|x: u64| #[trigger] v.nodes.contains_key(x) ==> v.nodes[x].id == x,
        forall|m: Seq<char>, x: u64| #[trigger] list_of(v.labels, m).contains(x)
            <==> (v.nodes.contains_key(x) && v.nodes[x].labels.contains(m)),
    ensures
        (exists|i: int| 0 <= i < resolve_nodes(v.nodes, list_of(v.labels, l)).len()
            && #[trigger] resolve_nodes(v.nodes, list_of(v.labels, l))[i] == v.nodes[k] && v.nodes.contains_key(k))
            == (v.nodes.contains_key(k) && v.nodes[k].labels.contains(l)),
{
    lemma_resolve_contains(v.nodes, list_of(v.labels, l), k);
}

proof fn lemma_neighbor_pairs(v: GraphView, ids: Seq<u64>, t: Option<Seq<char>>, outgoing: bool, eid: u64)
    requires
        forall|x: u64| #[trigger] v.edges.contains_key(x) ==> v.edges[x].id == x,
    ensures
        (exists|i: int| 0 <= i < neighbor_pairs(v, ids, t, outgoing).len()
            && #[trigger] neighbor_pairs(v, ids, t, outgoing)[i].0.id == eid) == (ids.contains(eid)
            && v.edges.contains_key(eid) && type_matches(v.edges[eid], t) && v.nodes.contains_key(
            far_end(v.edges[eid], outgoing),
        )),
        forall|i: int| 0 <= i < neighbor_pairs(v, ids, t, outgoing).len() ==> v.edges.contains_key(
            (#[trigger] neighbor_pairs(v, ids, t, outgoing)[i]).0.id,
        ) && neighbor_pairs(v, ids, t, outgoing)[i] == (
            v.edges[neighbor_pairs(v, ids, t, outgoing)[i].0.id],
            v.nodes[far_end(v.edges[neighbor_pairs(v, ids, t, outgoing)[i].0.id], outgoing)],
        ) && ids.contains(neighbor_pairs(v, ids, t, outgoing)[i].0.id),
    decreases ids.len(),
{
    if ids.len() > 0 {
        let init = ids.drop_last();
        lemma_neighbor_pairs(v, init, t, outgoing, eid);
        let prev = neighbor_pairs(v, init, t, outgoing);
        let cur = neighbor_pairs(v, ids, t, outgoing);
        assert forall|i: int| 0 <= i < cur.len() implies v.edges.contains_key((#[trigger] cur[i]).0.id)
            && cur[i] == (v.edges[cur[i].0.id], v.nodes[far_end(v.edges[cur[i].0.id], outgoing)])
            && ids.contains(cur[i].0.id) by {
            if i < prev.len() {
                assert(cur[i] == prev[i]);
                let j = choose|j: int| 0 <= j < init.len() && init[j] == prev[i].0.id;
                assert(ids[j] == prev[i].0.id);
            } else {
                assert(ids[ids.len() - 1] == ids.last());
            }
        }
        let good = ids.contains(eid) && v.edges.contains_key(eid) && type_matches(v.edges[eid], t)
            && v.nodes.contains_key(far_end(v.edges[eid], outgoing));
        if good {
            let j = choose|j: int| 0 <= j < ids.len() && ids[j] == eid;
            if j < init.len() {
                assert(init[j] == eid);
                let i = choose|i: int| 0 <= i < prev.len() && #[trigger] prev[i].0.id == eid;
                assert(cur[i] == prev[i]);
            } else {
                assert(cur[prev.len() as int].0.id == eid);
            }
        }
        if exists|i: int| 0 <= i < cur.len() && #[trigger] cur[i].0.id == eid {
            let i = choose|i: int| 0 <= i < cur.len() && #[trigger] cur[i].0.id == eid;
            assert(v.edges.contains_key(cur[i].0.id));
        }
    }
}

/// Adjacency completeness: in a store whose adjacency lists hold exactly the
/// edges with each endpoint, the outgoing neighbours of
/// an edge's source hold the pair (edge, destination) exactly when the
/// destination resolves and the edge passes the type filter; symmetrically,
/// the incoming neighbours of its destination hold (edge, source).
pub proof fn law_adjacency(v: GraphView, eid: u64, t: Option<Seq<char>>)
    requires
        forall|x: u64| #[trigger] v.edges.contains_key(x) ==> v.edges[x].id == x,
        forall|n: u64, x: u64| #[trigger] list_of(v.out, n).contains(x)
            <==> (v.edges.contains_key(x) && v.edges[x].from_node == n),
        forall|n: u64, x: u64| #[trigger] list_of(v.inc, n).contains(x)
            <==> (v.edges.contains_key(x) && v.edges[x].to_node == n),
        v.edges.contains_key(eid),
    ensures
        (exists|i: int| 0 <= i < neighbor_pairs(v, list_of(v.out, v.edges[eid].from_node), t, true).len()
            && #[trigger] neighbor_pairs(v, list_of(v.out, v.edges[eid].from_node), t, true)[i] == (
            v.edges[eid],
            v.nodes[v.edges[eid].to_node],
        )) == (type_matches(v.edges[eid], t) && v.nodes.contains_key(v.edges[eid].to_node)),
        (exists|i: int| 0 <= i < neighbor_pairs(v, list_of(v.inc, v.edges[eid].to_node), t, false).len()
            && #[trigger] neighbor_pairs(v, list_of(v.inc, v.edges[eid].to_node), t, false)[i] == (
            v.edges[eid],
            v.nodes[v.edges[eid].from_node],
        )) == (type_matches(v.edges[eid], t) && v.nodes.contains_key(v.edges[eid].from_node)),
{
    let e = v.edges[eid];
    let outs = list_of(v.out, e.from_node);
    let ins = list_of(v.inc, e.to_node);
    assert(outs.contains(eid));
    assert(ins.contains(eid));
    lemma_neighbor_pairs(v, outs, t, true, eid);
    lemma_neighbor_pairs(v, ins, t, false, eid);
    let np = neighbor_pairs(v, outs, t, true);
    let nq = neighbor_pairs(v, ins, t, false);
    if exists|i: int| 0 <= i < np.len() && #[trigger] np[i] == (e, v.nodes[e.to_node]) {
        let i = choose|i: int| 0 <= i < np.len() && #[trigger] np[i] == (e, v.nodes[e.to_node]);
        assert(np[i].0.id == eid);
    }
    if type_matches(e, t) && v.nodes.contains_key(e.to_node) {
        let i = choose|i: int| 0 <= i < np.len() && #[trigger] np[i].0.id == eid;
        assert(np[i] == (e, v.nodes[e.to_node]));
    }
    if exists|i: int| 0 <= i < nq.len() && #[trigger] nq[i] == (e, v.nodes[e.from_node]) {
        let i = choose|i: int| 0 <= i < nq.len() && #[trigger] nq[i] == (e, v.nodes[e.from_node]);
        assert(nq[i].0.id == eid);
    }
    if type_matches(e, t) && v.nodes.contains_key(e.from_node) {
        let i = choose|i: int| 0 <= i < nq.len() && #[trigger] nq[i].0.id == eid;
        assert(nq[i] == (e, v.nodes[e.from_node]));
    }
}

/// Dangling reference tolerance: an edge whose destination is not stored is
/// still indexed under both endpoints, and the outgoing neighbours of its
/// source leave it out.
pub proof fn law_dangling_edge(v: GraphView, e: EdgeView)
    requires
        consistent(v),
        e.id < u64::MAX,
        !v.edges.contains_key(e.id),
        !v.nodes.contains_key(e.to_node),
    ensures
        list_of(put_edge(v, e).out, e.from_node).contains(e.id),
        list_of(put_edge(v, e).inc, e.to_node).contains(e.id),
        forall|i: int| 0 <= i < neighbor_pairs(put_edge(v, e), list_of(put_edge(v, e).out, e.from_node), None, true).len()
            ==> (#[trigger] neighbor_pairs(put_edge(v, e), list_of(put_edge(v, e).out, e.from_node), None, true)[i]).0.id != e.id,
{
    let w = put_edge(v, e);
    lemma_put_edge(v, e);
    assert(w.edges.contains_key(e.id));
    lemma_neighbor_pairs(w, list_of(w.out, e.from_node), None, true, e.id);
}

proof fn lemma_put_nodes(v: GraphView, ns: Seq<NodeView>)
    requires
        consistent(v),
        tight(v),
        forall|i: int, j: int| 0 <= i < ns.len() && 0 <= j < ns.len() && i != j ==> #[trigger] ns[i].id != #[trigger] ns[j].id,
        forall|i: int| 0 <= i < ns.len() ==> (#[trigger] ns[i]).id < u64::MAX && !v.nodes.contains_key(ns[i].id),
    ensures
        consistent(put_nodes(v, ns)),
        tight(put_nodes(v, ns)),
        forall|k: u64| #[trigger] put_nodes(v, ns).nodes.contains_key(k) <==> (v.nodes.contains_key(k)
            || exists|i: int| 0 <= i < ns.len() && ns[i].id == k),
        forall|i: int| 0 <= i < ns.len() ==> put_nodes(v, ns).nodes[(#[trigger] ns[i]).id] == ns[i],
        put_nodes(v, ns).edges == v.edges,
        put_nodes(v, ns).next_edge == v.next_edge,
        put_nodes(v, ns).out == v.out,
        put_nodes(v, ns).inc == v.inc,
    decreases ns.len(),
{
    if ns.len() > 0 {
        let init = ns.drop_last();
        assert forall|i: int, j: int| 0 <= i < init.len() && 0 <= j < init.len() && i != j implies #[trigger] init[i].id != #[trigger] init[j].id by {
            assert(init[i] == ns[i] && init[j] == ns[j]);
        }
        assert forall|i: int| 0 <= i < init.len() implies (#[trigger] init[i]).id < u64::MAX && !v.nodes.contains_key(init[i].id) by {
            assert(init[i] == ns[i]);
        }
        lemma_put_nodes(v, init);
        let w = put_nodes(v, init);
        let last = ns[ns.len() - 1];
        assert(ns.last() == last);
        assert(!w.nodes.contains_key(last.id)) by {
            if w.nodes.contains_key(last.id) {
                if !v.nodes.contains_key(last.id) {
                    let i = choose|i: int| 0 <= i < init.len() && init[i].id == last.id;
                    assert(ns[i].id == ns[ns.len() - 1].id);
                }
            }
        }
        lemma_put_node(w, last);
        let x = put_nodes(v, ns);
        assert forall|k: u64| #[trigger] x.nodes.contains_key(k) <==> (v.nodes.contains_key(k)
            || exists|i: int| 0 <= i < ns.len() && ns[i].id == k) by {
            if exists|i: int| 0 <= i < ns.len() && ns[i].id == k {
                let i = choose|i: int| 0 <= i < ns.len() && ns[i].id == k;
                if i < init.len() {
                    assert(init[i].id == k);
                }
            }
            if w.nodes.contains_key(k) && !v.nodes.contains_key(k) {
                let i = choose|i: int| 0 <= i < init.len() && init[i].id == k;
                assert(ns[i].id == k);
            }
        }
        assert forall|i: int| 0 <= i < ns.len() implies x.nodes[(#[trigger] ns[i]).id] == ns[i] by {
            if i < init.len() {
                assert(init[i] == ns[i]);
                assert(w.nodes[init[i].id] == init[i]);
            }
        }
    }
}

proof fn lemma_put_edges(v: GraphView, es: Seq<EdgeView>)
    requires
        consistent(v),
        tight(v),
        forall|i: int, j: int| 0 <= i < es.len() && 0 <= j < es.len() && i != j ==> #[trigger] es[i].id != #[trigger] es[j].id,
        forall|i: int| 0 <= i < es.len() ==> (#[trigger] es[i]).id < u64::MAX && !v.edges.contains_key(es[i].id),
    ensures
        consistent(put_edges(v, es)),
        tight(put_edges(v, es)),
        forall|k: u64| #[trigger] put_edges(v, es).edges.contains_key(k) <==> (v.edges.contains_key(k)
            || exists|i: int| 0 <= i < es.len() && es[i].id == k),
        forall|i: int| 0 <= i < es.len() ==> put_edges(v, es).edges[(#[trigger] es[i]).id] == es[i],
        put_edges(v, es).nodes == v.nodes,
        put_edges(v, es).next_node == v.next_node,
        put_edges(v, es).labels == v.labels,
    decreases es.len(),
{
    if es.len() > 0 {
        let init = es.drop_last();
        assert forall|i: int, j: int| 0 <= i < init.len() && 0 <= j < init.len() && i != j implies #[trigger] init[i].id != #[trigger] init[j].id by {
            assert(init[i] == es[i] && init[j] == es[j]);
        }
        assert forall|i: int| 0 <= i < init.len() implies (#[trigger] init[i]).id < u64::MAX && !v.edges.contains_key(init[i].id) by {
            assert(init[i] == es[i]);
        }
        lemma_put_edges(v, init);
        let w = put_edges(v, init);
        let last = es[es.len() - 1];
        assert(es.last() == last);
        assert(!w.edges.contains_key(last.id)) by {
            if w.edges.contains_key(last.id) {
                if !v.edges.contains_key(last.id) {
                    let i = choose|i: int| 0 <= i < init.len() && init[i].id == last.id;
                    assert(es[i].id == es[es.len() - 1].id);
                }
            }
        }
        lemma_put_edge(w, last);
        let x = put_edges(v, es);
        assert forall|k: u64| #[trigger] x.edges.contains_key(k) <==> (v.edges.contains_key(k)
            || exists|i: int| 0 <= i < es.len() && es[i].id == k) by {
            if exists|i: int| 0 <= i < es.len() && es[i].id == k {
                let i = choose|i: int| 0 <= i < es.len() && es[i].id == k;
                if i < init.len() {
                    assert(init[i].id == k);
                }
            }
            if w.edges.contains_key(k) && !v.edges.contains_key(k) {
                let i = choose|i: int| 0 <= i < init.len() && init[i].id == k;
                assert(es[i].id == k);
            }
        }
        assert forall|i: int| 0 <= i < es.len() implies x.edges[(#[trigger] es[i]).id] == es[i] by {
            if i < init.len() {
                assert(init[i] == es[i]);
                assert(w.edges[init[i].id] == init[i]);
            }
        }
    }
}

proof fn lemma_tight_counters(a: GraphView, b: GraphView)
    requires
        consistent(a),
        consistent(b),
        tight(a),
        tight(b),
        a.nodes.dom() == b.nodes.dom(),
        a.edges.dom() == b.edges.dom(),
    ensures
        a.next_node == b.next_node,
        a.next_edge == b.next_edge,
{
    if a.next_node < b.next_node {
        assert(b.nodes.contains_key((b.next_node - 1) as u64));
        assert(a.nodes.contains_key((b.next_node - 1) as u64));
    }
    if b.next_node < a.next_node {
        assert(a.nodes.contains_key((a.next_node - 1) as u64));
        assert(b.nodes.contains_key((a.next_node - 1) as u64));
    }
    if a.next_edge < b.next_edge {
        assert(b.edges.contains_key((b.next_edge - 1) as u64));
        assert(a.edges.contains_key((b.next_edge - 1) as u64));
    }
    if b.next_edge < a.next_edge {
        assert(a.edges.contains_key((a.next_edge - 1) as u64));
        assert(b.edges.contains_key((a.next_edge - 1) as u64));
    }
}

/// What a flush writes: the node table, then the edge table, each entity once.
pub open spec fn flushed_nodes(s: InMemoryGraphStore) -> Seq<NodeView> {
    s.node_order_view().map_values(|k: u64| s@.nodes[k])
}

pub open spec fn flushed_edges(s: InMemoryGraphStore) -> Seq<EdgeView> {
    s.edge_order_view().map_values(|k: u64| s@.edges[k])
}

/// Flush/load round trip: rebuilding a store from what a flush writes gives
/// the same node and edge tables, the same counters, and indexes that hold
/// the same ids under every key.
pub proof fn law_flush_load_round_trip(s: InMemoryGraphStore)
    requires
        s.wf(),
        consistent(s@),
        tight(s@),
    ensures
        consistent(load_view(flushed_nodes(s), flushed_edges(s))),
        tight(load_view(flushed_nodes(s), flushed_edges(s))),
        equivalent(load_view(flushed_nodes(s), flushed_edges(s)), s@),
{
    s.lemma_orders();
    let v = s@;
    let ns = flushed_nodes(s);
    let es = flushed_edges(s);
    let order = s.node_order_view();
    let eorder = s.edge_order_view();
    assert forall|i: int| 0 <= i < ns.len() implies (#[trigger] ns[i]).id == order[i] by {
        assert(order.contains(order[i]));
        assert(v.nodes.contains_key(order[i]));
        assert(ns[i] == v.nodes[order[i]]);
    }
    assert forall|i: int| 0 <= i < es.len() implies (#[trigger] es[i]).id == eorder[i] by {
        assert(eorder.contains(eorder[i]));
        assert(v.edges.contains_key(eorder[i]));
        assert(es[i] == v.edges[eorder[i]]);
    }
    assert forall|i: int, j: int| 0 <= i < ns.len() && 0 <= j < ns.len() && i != j implies #[trigger] ns[i].id != #[trigger] ns[j].id by {
        assert(ns[i].id == order[i] && ns[j].id == order[j]);
    }
    assert forall|i: int, j: int| 0 <= i < es.len() && 0 <= j < es.len() && i != j implies #[trigger] es[i].id != #[trigger] es[j].id by {
        assert(es[i].id == eorder[i] && es[j].id == eorder[j]);
    }
    assert forall|i: int| 0 <= i < ns.len() implies (#[trigger] ns[i]).id < u64::MAX && !empty_view().nodes.contains_key(ns[i].id) by {
        assert(ns[i].id == order[i]);
        assert(order.contains(order[i]));
        assert(v.nodes.contains_key(order[i]));
    }
    lemma_empty_consistent();
    lemma_put_nodes(empty_view(), ns);
    let w = put_nodes(empty_view(), ns);
    assert forall|i: int| 0 <= i < es.len() implies (#[trigger] es[i]).id < u64::MAX && !w.edges.contains_key(es[i].id) by {
        assert(es[i].id == eorder[i]);
        assert(eorder.contains(eorder[i]));
        assert(v.edges.contains_key(eorder[i]));
        assert(w.edges == empty_view().edges);
    }
    lemma_put_edges(w, es);
    let x = load_view(ns, es);
    assert forall|k: u64| #[trigger] x.nodes.contains_key(k) == v.nodes.contains_key(k) by {
        if v.nodes.contains_key(k) {
            let i = choose|i: int| 0 <= i < order.len() && order[i] == k;
            assert(ns[i].id == k);
        }
        if x.nodes.contains_key(k) {
            let i = choose|i: int| 0 <= i < ns.len() && ns[i].id == k;
            assert(order.contains(order[i]));
        }
    }
    assert forall|k: u64| #[trigger] x.nodes.contains_key(k) implies x.nodes[k] == v.nodes[k] by {
        let i = choose|i: int| 0 <= i < ns.len() && ns[i].id == k;
        assert(x.nodes[ns[i].id] == ns[i]);
    }
    assert(x.nodes =~= v.nodes);
    assert forall|k: u64| #[trigger] x.edges.contains_key(k) == v.edges.contains_key(k) by {
        if v.edges.contains_key(k) {
            let i = choose|i: int| 0 <= i < eorder.len() && eorder[i] == k;
            assert(es[i].id == k);
        }
        if x.edges.contains_key(k) {
            let i = choose|i: int| 0 <= i < es.len() && es[i].id == k;
            assert(eorder.contains(eorder[i]));
        }
    }
    assert forall|k: u64| #[trigger] x.edges.contains_key(k) implies x.edges[k] == v.edges[k] by {
        let i = choose|i: int| 0 <= i < es.len() && es[i].id == k;
        assert(x.edges[es[i].id] == es[i]);
    }
    assert(x.edges =~= v.edges);
    lemma_tight_counters(x, v);
}

/// Whether each record carries the id that live insertion would have issued
/// for it: the counter of its class in the store reached by the records before it.
pub open spec fn issued(v: GraphView, recs: Seq<WalRecord>) -> bool {
    forall|i: int| 0 <= i < recs.len() ==> match #[trigger] recs[i] {
        WalRecord::AddNode { id, .. } => id == replay(v, recs.take(i)).next_node && id < u64::MAX,
        WalRecord::AddEdge { id, .. } => id == replay(v, recs.take(i)).next_edge && id < u64::MAX,
    }
}

proof fn lemma_replay_equivalent(a: GraphView, b: GraphView, recs: Seq<WalRecord>)
    requires
        consistent(a),
        consistent(b),
        equivalent(a, b),
        issued(a, recs),
    ensures
        consistent(replay(a, recs)),
        consistent(replay(b, recs)),
        equivalent(replay(a, recs), replay(b, recs)),
    decreases recs.len(),
{
    if recs.len() > 0 {
        let init = recs.drop_last();
        assert forall|i: int| 0 <= i < init.len() implies match #[trigger] init[i] {
            WalRecord::AddNode { id, .. } => id == replay(a, init.take(i)).next_node && id < u64::MAX,
            WalRecord::AddEdge { id, .. } => id == replay(a, init.take(i)).next_edge && id < u64::MAX,
        } by {
            assert(init.take(i) =~= recs.take(i));
            assert(init[i] == recs[i]);
        }
        lemma_replay_equivalent(a, b, init);
        let x = replay(a, init);
        let y = replay(b, init);
        let last = recs[recs.len() - 1];
        assert(recs.take(recs.len() - 1) =~= init);
        assert(recs.last() == last);
        match last {
            WalRecord::AddNode { id, labels, properties } => {
                let n = NodeView { id, labels: crate::entities::texts(labels@), properties };
                assert(!x.nodes.contains_key(id));
                lemma_put_node(x, n);
                lemma_put_node(y, n);
                let p = put_node(x, n);
                let q = put_node(y, n);
                assert forall|l: Seq<char>, k: u64| #[trigger] list_of(p.labels, l).contains(k) == list_of(q.labels, l).contains(k) by {
                    lemma_index_labels_contains(x.labels, n.labels, id, l, k);
                    lemma_index_labels_contains(y.labels, n.labels, id, l, k);
                }
            },
            WalRecord::AddEdge { id, from_node, to_node, edge_type, properties } => {
                let e = EdgeView { id, from_node, to_node, edge_type: edge_type@, properties };
                assert(!x.edges.contains_key(id));
                lemma_put_edge(x, e);
                lemma_put_edge(y, e);
                let p = put_edge(x, e);
                let q = put_edge(y, e);
                assert forall|m: u64, k: u64| #[trigger] list_of(p.out, m).contains(k) == list_of(q.out, m).contains(k) by {
                    lemma_append_contains(x.out, from_node, id, m, k);
                    lemma_append_contains(y.out, from_node, id, m, k);
                }
                assert forall|m: u64, k: u64| #[trigger] list_of(p.inc, m).contains(k) == list_of(q.inc, m).contains(k) by {
                    lemma_append_contains(x.inc, to_node, id, m, k);
                    lemma_append_contains(y.inc, to_node, id, m, k);
                }
            },
        }
    }
}

/// Log replay equivalence: applying a sequence of insertions to a store
/// directly (each record carrying the id that insertion issued) gives a store
/// equivalent to loading the store's flush and replaying those records on it.
pub proof fn law_replay_equivalence(s: InMemoryGraphStore, recs: Seq<WalRecord>)
    requires
        s.wf(),
        consistent(s@),
        tight(s@),
        issued(s@, recs),
    ensures
        equivalent(replay(s@, recs), replay(load_view(flushed_nodes(s), flushed_edges(s)), recs)),
{
    law_flush_load_round_trip(s);
    let l = load_view(flushed_nodes(s), flushed_edges(s));
    lemma_replay_equivalent(s@, l, recs);
}

/// Lenient record parsing: a decoding of an `add_node` object whose label list
/// is missing gives a node record with no labels, and a decoding whose kind is
/// neither `add_node` nor `add_edge` gives an error.
pub proof fn law_lenient_parsing(
    r: Result<WalRecord, EngineError>,
    kind: Option<Seq<char>>,
    id: Option<u64>,
    labels: Option<Seq<Seq<char>>>,
    from_node: Option<u64>,
    to_node: Option<u64>,
    edge_type: Option<Seq<char>>,
)
    requires
        decoded(r, kind, id, labels, from_node, to_node, edge_type),
    ensures
        kind == Some(node_kind()) && labels is None ==> (r matches Ok(WalRecord::AddNode { labels: l, .. })
            && l@.len() == 0),
        kind != Some(node_kind()) && kind != Some(edge_kind()) ==> r is Err,
{
    if kind == Some(node_kind()) {
        assert(node_kind() != edge_kind()) by {
            assert(node_kind()[4] != edge_kind()[4]);
        }
        if let Ok(WalRecord::AddNode { labels: l, .. }) = r {
            assert(crate::entities::texts(l@).len() == l@.len());
        }
    }
}

/// Log record round trip: the bytes that encoding gives, once they parse,
/// decode to a record of the same variant with the same id, labels,
/// endpoints and type.
pub proof fn law_wal_round_trip(rec: WalRecord, b: Seq<u8>, r: Result<WalRecord, EngineError>)
    requires
        encodes(rec, b),
        json_parses(b),
        decoded(
            r,
            member_text(b, seq!['t', 'y', 'p', 'e']),
            member_number(b, seq!['i', 'd']),
            member_texts(b, seq!['l', 'a', 'b', 'e', 'l', 's']),
            member_number(b, seq!['f', 'r', 'o', 'm']),
            member_number(b, seq!['t', 'o']),
            member_text(b, seq!['e', 'd', 'g', 'e', '_', 't', 'y', 'p', 'e']),
        ),
    ensures
        match rec {
            WalRecord::AddNode { id, labels, .. } => r matches Ok(WalRecord::AddNode { id: i, labels: l, .. })
                && i == id && crate::entities::texts(l@) == crate::entities::texts(labels@),
            WalRecord::AddEdge { id, from_node, to_node, edge_type, .. } => r matches Ok(
                WalRecord::AddEdge { id: i, from_node: f, to_node: t, edge_type: e, .. },
            ) && i == id && f == from_node && t == to_node && e@ == edge_type@,
        },
{
    assert(node_kind() != edge_kind()) by {
        assert(node_kind()[4] != edge_kind()[4]);
    }
}

/// Every stored id lies below the counter of its class, and the counters start at 1.
pub open spec fn counters_above(v: GraphView) -> bool {
    &&& v.next_node >= 1
    &&& v.next_edge >= 1
    &&& forall|k: u64| #[trigger] v.nodes.contains_key(k) ==> k < v.next_node
    &&& forall|k: u64| #[trigger] v.edges.contains_key(k) ==> k < v.next_edge
}

/// Storing any node, fresh id or not, keeps its counter above every node id
/// and just above the largest one.
pub proof fn lemma_node_counters(v: GraphView, n: NodeView)
    requires
        counters_above(v),
        tight(v),
        n.id < u64::MAX,
    ensures
        counters_above(put_node(v, n)),
        tight(put_node(v, n)),
{
}

/// Storing any edge, fresh id or not, keeps its counter above every edge id
/// and just above the largest one.
pub proof fn lemma_edge_counters(v: GraphView, e: EdgeView)
    requires
        counters_above(v),
        tight(v),
        e.id < u64::MAX,
    ensures
        counters_above(put_edge(v, e)),
        tight(put_edge(v, e)),
{
}

proof fn lemma_put_nodes_counters(v: GraphView, ns: Seq<NodeView>)
    requires
        counters_above(v),
        tight(v),
        forall|i: int| 0 <= i < ns.len() ==> (#[trigger] ns[i]).id < u64::MAX,
    ensures
        counters_above(put_nodes(v, ns)),
        tight(put_nodes(v, ns)),
    decreases ns.len(),
{
    if ns.len() > 0 {
        let init = ns.drop_last();
        assert forall|i: int| 0 <= i < init.len() implies (#[trigger] init[i]).id < u64::MAX by {
            assert(init[i] == ns[i]);
        }
        lemma_put_nodes_counters(v, init);
        assert(ns[ns.len() - 1] == ns.last());
        lemma_node_counters(put_nodes(v, init), ns.last());
    }
}

proof fn lemma_put_edges_counters(v: GraphView, es: Seq<EdgeView>)
    requires
        counters_above(v),
        tight(v),
        forall|i: int| 0 <= i < es.len() ==> (#[trigger] es[i]).id < u64::MAX,
    ensures
        counters_above(put_edges(v, es)),
        tight(put_edges(v, es)),
    decreases es.len(),
{
    if es.len() > 0 {
        let init = es.drop_last();
        assert forall|i: int| 0 <= i < init.len() implies (#[trigger] init[i]).id < u64::MAX by {
            assert(init[i] == es[i]);
        }
        lemma_put_edges_counters(v, init);
        assert(es[es.len() - 1] == es.last());
        lemma_edge_counters(put_edges(v, init), es.last());
    }
}

/// Id monotonicity across loading: loading segments leaves each counter
/// above every loaded id of its class and just above the largest one (at 1
/// when there is none), so no later insertion reuses an id.
pub proof fn law_load_counters(nodes: Seq<NodeView>, edges: Seq<EdgeView>)
    requires
        forall|i: int| 0 <= i < nodes.len() ==> (#[trigger] nodes[i]).id < u64::MAX,
        forall|i: int| 0 <= i < edges.len() ==> (#[trigger] edges[i]).id < u64::MAX,
    ensures
        counters_above(load_view(nodes, edges)),
        tight(load_view(nodes, edges)),
{
    lemma_put_nodes_counters(empty_view(), nodes);
    lemma_put_edges_counters(put_nodes(empty_view(), nodes), edges);
}

/// Id monotonicity across replay: replaying records whose ids leave room to
/// advance keeps each counter above every id of its class and just above the
/// largest one.
pub proof fn law_replay_counters(v: GraphView, recs: Seq<WalRecord>)
    requires
        counters_above(v),
        tight(v),
        crate::wal::replayable(recs),
    ensures
        counters_above(replay(v, recs)),
        tight(replay(v, recs)),
    decreases recs.len(),
{
    if recs.len() > 0 {
        let init = recs.drop_last();
        assert forall|i: int| 0 <= i < init.len() implies (#[trigger] init[i]).record_id() < u64::MAX by {
            assert(init[i] == recs[i]);
        }
        law_replay_counters(v, init);
        assert(recs[recs.len() - 1] == recs.last());
        match recs.last() {
            WalRecord::AddNode { id, labels, properties } => {
                lemma_node_counters(replay(v, init), NodeView { id, labels: crate::entities::texts(labels@), properties });
            },
            WalRecord::AddEdge { id, from_node, to_node, edge_type, properties } => {
                lemma_edge_counters(replay(v, init), EdgeView { id, from_node, to_node, edge_type: edge_type@, properties });
            },
        }
    }
}
/// Whether each record's id is new: not stored in the store yet, and not
/// carried by an earlier record of the same kind.
pub open spec fn fresh_records(v: GraphView, recs: Seq<WalRecord>) -> bool {
    forall|i: int| 0 <= i < recs.len() ==> match #[trigger] recs[i] {
        WalRecord::AddNode { id, .. } => !v.nodes.contains_key(id) && forall|j: int|
            0 <= j < i ==> !(recs[j] is AddNode && #[trigger] recs[j].record_id() == id),
        WalRecord::AddEdge { id, .. } => !v.edges.contains_key(id) && forall|j: int|
            0 <= j < i ==> !(recs[j] is AddEdge && #[trigger] recs[j].record_id() == id),
    }
}

/// Replaying records with new ids keeps a store consistent.
pub proof fn lemma_replay_consistent(v: GraphView, recs: Seq<WalRecord>)
    requires
        consistent(v),
        fresh_records(v, recs),
        crate::wal::replayable(recs),
    ensures
        consistent(replay(v, recs)),
        forall|k: u64| #[trigger] replay(v, recs).nodes.contains_key(k) <==> (v.nodes.contains_key(k)
            || exists|j: int| 0 <= j < recs.len() && recs[j] is AddNode && recs[j].record_id() == k),
        forall|k: u64| #[trigger] replay(v, recs).edges.contains_key(k) <==> (v.edges.contains_key(k)
            || exists|j: int| 0 <= j < recs.len() && recs[j] is AddEdge && recs[j].record_id() == k),
    decreases recs.len(),
{
    if recs.len() > 0 {
        let init = recs.drop_last();
        let n = recs.len() - 1;
        assert forall|i: int| 0 <= i < init.len() implies (#[trigger] init[i]).record_id() < u64::MAX by {
            assert(init[i] == recs[i]);
        }
        assert forall|i: int| 0 <= i < init.len() implies match #[trigger] init[i] {
            WalRecord::AddNode { id, .. } => !v.nodes.contains_key(id) && forall|j: int|
                0 <= j < i ==> !(init[j] is AddNode && #[trigger] init[j].record_id() == id),
            WalRecord::AddEdge { id, .. } => !v.edges.contains_key(id) && forall|j: int|
                0 <= j < i ==> !(init[j] is AddEdge && #[trigger] init[j].record_id() == id),
        } by {
            assert(init[i] == recs[i]);
            assert forall|j: int| 0 <= j < i implies init[j] == recs[j] by {}
            match recs[i] {
                WalRecord::AddNode { id, .. } => {
                    assert forall|j: int| 0 <= j < i implies !(init[j] is AddNode && #[trigger] init[j].record_id() == id) by {
                        assert(init[j] == recs[j]);
                        assert(!(recs[j] is AddNode && recs[j].record_id() == id));
                    }
                },
                WalRecord::AddEdge { id, .. } => {
                    assert forall|j: int| 0 <= j < i implies !(init[j] is AddEdge && #[trigger] init[j].record_id() == id) by {
                        assert(init[j] == recs[j]);
                        assert(!(recs[j] is AddEdge && recs[j].record_id() == id));
                    }
                },
            }
        }
        lemma_replay_consistent(v, init);
        let w = replay(v, init);
        let last = recs[n];
        assert(recs.last() == last);
        assert(last.record_id() < u64::MAX);
        match last {
            WalRecord::AddNode { id, labels, properties } => {
                assert(!w.nodes.contains_key(id)) by {
                    if w.nodes.contains_key(id) && !v.nodes.contains_key(id) {
                        let j = choose|j: int| 0 <= j < init.len() && init[j] is AddNode && init[j].record_id() == id;
                        assert(recs[j] == init[j]);
                        assert(!(recs[j] is AddNode && recs[j].record_id() == id));
                    }
                }
                lemma_put_node(w, NodeView { id, labels: crate::entities::texts(labels@), properties });
            },
            WalRecord::AddEdge { id, from_node, to_node, edge_type, properties } => {
                assert(!w.edges.contains_key(id)) by {
                    if w.edges.contains_key(id) && !v.edges.contains_key(id) {
                        let j = choose|j: int| 0 <= j < init.len() && init[j] is AddEdge && init[j].record_id() == id;
                        assert(recs[j] == init[j]);
                        assert(!(recs[j] is AddEdge && recs[j].record_id() == id));
                    }
                }
                lemma_put_edge(w, EdgeView { id, from_node, to_node, edge_type: edge_type@, properties });
            },
        }
        let x = replay(v, recs);
        assert forall|k: u64| #[trigger] x.nodes.contains_key(k) <==> (v.nodes.contains_key(k)
            || exists|j: int| 0 <= j < recs.len() && recs[j] is AddNode && recs[j].record_id() == k) by {
            if exists|j: int| 0 <= j < recs.len() && recs[j] is AddNode && recs[j].record_id() == k {
                let j = choose|j: int| 0 <= j < recs.len() && recs[j] is AddNode && recs[j].record_id() == k;
                if j < n {
                    assert(init[j] == recs[j]);
                }
            }
            if w.nodes.contains_key(k) && !v.nodes.contains_key(k) {
                let j = choose|j: int| 0 <= j < init.len() && init[j] is AddNode && init[j].record_id() == k;
                assert(recs[j] == init[j]);
            }
        }
        assert forall|k: u64| #[trigger] x.edges.contains_key(k) <==> (v.edges.contains_key(k)
            || exists|j: int| 0 <= j < recs.len() && recs[j] is AddEdge && recs[j].record_id() == k) by {
            if exists|j: int| 0 <= j < recs.len() && recs[j] is AddEdge && recs[j].record_id() == k {
                let j = choose|j: int| 0 <= j < recs.len() && recs[j] is AddEdge && recs[j].record_id() == k;
                if j < n {
                    assert(init[j] == recs[j]);
                }
            }
            if w.edges.contains_key(k) && !v.edges.contains_key(k) {
                let j = choose|j: int| 0 <= j < init.len() && init[j] is AddEdge && init[j].record_id() == k;
                assert(recs[j] == init[j]);
            }
        }
    }
}

/// Neighbour soundness: every pair that the outgoing neighbours of a node hold
/// is a stored edge from that node, of the filtered type, with its resolved
/// destination; symmetrically for the incoming neighbours.
pub proof fn law_neighbors_sound(v: GraphView, n: u64, t: Option<Seq<char>>)
    requires
        forall|x: u64| #[trigger] v.edges.contains_key(x) ==> v.edges[x].id == x,
        forall|m: u64, x: u64| #[trigger] list_of(v.out, m).contains(x)
            <==> (v.edges.contains_key(x) && v.edges[x].from_node == m),
        forall|m: u64, x: u64| #[trigger] list_of(v.inc, m).contains(x)
            <==> (v.edges.contains_key(x) && v.edges[x].to_node == m),
    ensures
        forall|i: int| 0 <= i < neighbor_pairs(v, list_of(v.out, n), t, true).len() ==> {
            let p = #[trigger] neighbor_pairs(v, list_of(v.out, n), t, true)[i];
            &&& v.edges.contains_key(p.0.id) && v.edges[p.0.id] == p.0
            &&& p.0.from_node == n && type_matches(p.0, t)
            &&& v.nodes.contains_key(p.0.to_node) && p.1 == v.nodes[p.0.to_node]
        },
        forall|i: int| 0 <= i < neighbor_pairs(v, list_of(v.inc, n), t, false).len() ==> {
            let p = #[trigger] neighbor_pairs(v, list_of(v.inc, n), t, false)[i];
            &&& v.edges.contains_key(p.0.id) && v.edges[p.0.id] == p.0
            &&& p.0.to_node == n && type_matches(p.0, t)
            &&& v.nodes.contains_key(p.0.from_node) && p.1 == v.nodes[p.0.from_node]
        },
{
    let outs = list_of(v.out, n);
    let ins = list_of(v.inc, n);
    let np = neighbor_pairs(v, outs, t, true);
    let nq = neighbor_pairs(v, ins, t, false);
    assert forall|i: int| 0 <= i < np.len() implies {
        let p = #[trigger] np[i];
        &&& v.edges.contains_key(p.0.id) && v.edges[p.0.id] == p.0
        &&& p.0.from_node == n && type_matches(p.0, t)
        &&& v.nodes.contains_key(p.0.to_node) && p.1 == v.nodes[p.0.to_node]
    } by {
        let eid = np[i].0.id;
        lemma_neighbor_pairs(v, outs, t, true, eid);
        assert(np[i].0.id == eid);
        assert(outs.contains(eid));
    }
    assert forall|i: int| 0 <= i < nq.len() implies {
        let p = #[trigger] nq[i];
        &&& v.edges.contains_key(p.0.id) && v.edges[p.0.id] == p.0
        &&& p.0.to_node == n && type_matches(p.0, t)
        &&& v.nodes.contains_key(p.0.from_node) && p.1 == v.nodes[p.0.from_node]
    } by {
        let eid = nq[i].0.id;
        lemma_neighbor_pairs(v, ins, t, false, eid);
        assert(nq[i].0.id == eid);
        assert(ins.contains(eid));
    }
}

/// Two stores agree in everything but property values: the same node and
/// edge ids, labels, endpoints and types, the same counters, and indexes
/// that hold the same ids under every key.
pub open spec fn same_shape(a: GraphView, b: GraphView) -> bool {
    &&& a.nodes.dom() == b.nodes.dom()
    &&& forall|k: u64| #[trigger] a.nodes.contains_key(k) ==> a.nodes[k].id == b.nodes[k].id && a.nodes[k].labels
        == b.nodes[k].labels
    &&& a.edges.dom() == b.edges.dom()
    &&& forall|k: u64| #[trigger] a.edges.contains_key(k) ==> a.edges[k].id == b.edges[k].id && a.edges[k].from_node
        == b.edges[k].from_node && a.edges[k].to_node == b.edges[k].to_node && a.edges[k].edge_type
        == b.edges[k].edge_type
    &&& a.next_node == b.next_node
    &&& a.next_edge == b.next_edge
    &&& forall|l: Seq<char>, k: u64| #[trigger] list_of(a.labels, l).contains(k) == list_of(b.labels, l).contains(k)
    &&& forall|n: u64, k: u64| #[trigger] list_of(a.out, n).contains(k) == list_of(b.out, n).contains(k)
    &&& forall|n: u64, k: u64| #[trigger] list_of(a.inc, n).contains(k) == list_of(b.inc, n).contains(k)
}

/// Flush/load round trip through the segment bytes: when the bytes that a
/// flush writes parse, loading them succeeds and gives a store that agrees
/// with the flushed one in everything but property values (which read back
/// as objects).
pub proof fn law_flush_load_bytes(s: InMemoryGraphStore, nb: Seq<u8>, eb: Seq<u8>, nv: Seq<Node>, ev: Seq<Edge>)
    requires
        s.wf(),
        consistent(s@),
        tight(s@),
        nodes_segment(nb, flushed_nodes(s)),
        edges_segment(eb, flushed_edges(s)),
        json_parses(nb),
        json_parses(eb),
        read_nodes(nb, nv),
        read_edges(eb, ev),
    ensures
        node_ids_fit(nb),
        edge_ids_fit(eb),
        same_shape(load_view(nv.map_values(|n: Node| n@), ev.map_values(|e: Edge| e@)), s@),
{
    s.lemma_orders();
    let v = s@;
    let ns = flushed_nodes(s);
    let es = flushed_edges(s);
    let order = s.node_order_view();
    let eorder = s.edge_order_view();
    law_segment_round_trip(nb, ns, nv, eb, es, ev);
    let lns = nv.map_values(|n: Node| n@);
    let les = ev.map_values(|e: Edge| e@);
    assert forall|i: int| 0 <= i < ns.len() implies (#[trigger] ns[i]).id == order[i] && v.nodes.contains_key(order[i]) && ns[i] == v.nodes[order[i]] by {
        assert(order.contains(order[i]));
        assert(v.nodes.contains_key(order[i]));
        assert(ns[i] == v.nodes[order[i]]);
    }
    assert forall|i: int| 0 <= i < es.len() implies (#[trigger] es[i]).id == eorder[i] && v.edges.contains_key(eorder[i]) && es[i] == v.edges[eorder[i]] by {
        assert(eorder.contains(eorder[i]));
        assert(v.edges.contains_key(eorder[i]));
        assert(es[i] == v.edges[eorder[i]]);
    }
    assert forall|i: int| 0 <= i < lns.len() implies (#[trigger] lns[i]).id == ns[i].id && lns[i].labels == ns[i].labels by {
        assert(lns[i] == nv[i]@);
        assert(nv[i].id == ns[i].id);
    }
    assert forall|i: int| 0 <= i < les.len() implies (#[trigger] les[i]).id == es[i].id && les[i].from_node == es[i].from_node
        && les[i].to_node == es[i].to_node && les[i].edge_type == es[i].edge_type by {
        assert(les[i] == ev[i]@);
        assert(ev[i].id == es[i].id);
    }
    assert(node_ids_fit(nb)) by {
        assert forall|i: int| 0 <= i < len_or_zero(member_len(nb, key_nodes())) implies #[trigger] number_or_zero(
            item_number(nb, key_nodes(), i, key_id()),
        ) < u64::MAX by {
            assert(ns[i].id == order[i]);
            assert(item_number(nb, key_nodes(), i, key_id()) == Some(ns[i].id));
        }
    }
    assert(edge_ids_fit(eb)) by {
        assert forall|i: int| 0 <= i < len_or_zero(member_len(eb, key_edges())) implies #[trigger] number_or_zero(
            item_number(eb, key_edges(), i, key_id()),
        ) < u64::MAX by {
            assert(es[i].id == eorder[i]);
            assert(item_number(eb, key_edges(), i, key_id()) == Some(es[i].id));
        }
    }
    assert forall|i: int, j: int| 0 <= i < lns.len() && 0 <= j < lns.len() && i != j implies #[trigger] lns[i].id != #[trigger] lns[j].id by {
        assert(lns[i].id == order[i] && lns[j].id == order[j]);
    }
    assert forall|i: int, j: int| 0 <= i < les.len() && 0 <= j < les.len() && i != j implies #[trigger] les[i].id != #[trigger] les[j].id by {
        assert(les[i].id == eorder[i] && les[j].id == eorder[j]);
    }
    assert forall|i: int| 0 <= i < lns.len() implies (#[trigger] lns[i]).id < u64::MAX && !empty_view().nodes.contains_key(lns[i].id) by {
        assert(lns[i].id == order[i]);
    }
    lemma_empty_consistent();
    lemma_put_nodes(empty_view(), lns);
    let w = put_nodes(empty_view(), lns);
    assert forall|i: int| 0 <= i < les.len() implies (#[trigger] les[i]).id < u64::MAX && !w.edges.contains_key(les[i].id) by {
        assert(les[i].id == eorder[i]);
        assert(w.edges == empty_view().edges);
    }
    lemma_put_edges(w, les);
    let x = load_view(lns, les);
    assert forall|k: u64| #[trigger] x.nodes.contains_key(k) == v.nodes.contains_key(k) by {
        if v.nodes.contains_key(k) {
            let i = choose|i: int| 0 <= i < order.len() && order[i] == k;
            assert(lns[i].id == k);
        }
        if x.nodes.contains_key(k) {
            let i = choose|i: int| 0 <= i < lns.len() && lns[i].id == k;
            assert(lns[i].id == order[i]);
        }
    }
    assert(x.nodes.dom() =~= v.nodes.dom());
    assert forall|k: u64| #[trigger] x.nodes.contains_key(k) implies x.nodes[k].id == v.nodes[k].id && x.nodes[k].labels == v.nodes[k].labels by {
        let i = choose|i: int| 0 <= i < lns.len() && lns[i].id == k;
        assert(x.nodes[lns[i].id] == lns[i]);
        assert(ns[i] == v.nodes[order[i]]);
    }
    assert forall|k: u64| #[trigger] x.edges.contains_key(k) == v.edges.contains_key(k) by {
        if v.edges.contains_key(k) {
            let i = choose|i: int| 0 <= i < eorder.len() && eorder[i] == k;
            assert(les[i].id == k);
        }
        if x.edges.contains_key(k) {
            let i = choose|i: int| 0 <= i < les.len() && les[i].id == k;
            assert(les[i].id == eorder[i]);
        }
    }
    assert(x.edges.dom() =~= v.edges.dom());
    assert forall|k: u64| #[trigger] x.edges.contains_key(k) implies x.edges[k].id == v.edges[k].id && x.edges[k].from_node
        == v.edges[k].from_node && x.edges[k].to_node == v.edges[k].to_node && x.edges[k].edge_type
        == v.edges[k].edge_type by {
        let i = choose|i: int| 0 <= i < les.len() && les[i].id == k;
        assert(x.edges[les[i].id] == les[i]);
        assert(es[i] == v.edges[eorder[i]]);
    }
    lemma_tight_counters(x, v);
    assert forall|l: Seq<char>, k: u64| #[trigger] list_of(x.labels, l).contains(k) == list_of(v.labels, l).contains(k) by {
        if x.nodes.contains_key(k) {
            assert(x.nodes[k].labels == v.nodes[k].labels);
        }
    }
    assert forall|n: u64, k: u64| #[trigger] list_of(x.out, n).contains(k) == list_of(v.out, n).contains(k) by {
        if x.edges.contains_key(k) {
            assert(x.edges[k].from_node == v.edges[k].from_node);
        }
    }
    assert forall|n: u64, k: u64| #[trigger] list_of(x.inc, n).contains(k) == list_of(v.inc, n).contains(k) by {
        if x.edges.contains_key(k) {
            assert(x.edges[k].to_node == v.edges[k].to_node);
        }
    }
}

/// Counters after replay: each counter is the larger of its old value and one
/// past the largest replayed id of its class. It never decreases, it exceeds
/// every replayed id, and it is either its old value or one past a replayed id.
pub proof fn law_replay_counter_max(v: GraphView, recs: Seq<WalRecord>)
    requires
        crate::wal::replayable(recs),
    ensures
        replay(v, recs).next_node >= v.next_node,
        replay(v, recs).next_edge >= v.next_edge,
        forall|i: int| 0 <= i < recs.len() && recs[i] is AddNode ==> replay(v, recs).next_node > (#[trigger] recs[i]).record_id(),
        forall|i: int| 0 <= i < recs.len() && recs[i] is AddEdge ==> replay(v, recs).next_edge > (#[trigger] recs[i]).record_id(),
        replay(v, recs).next_node == v.next_node || exists|i: int| 0 <= i < recs.len() && recs[i] is AddNode
            && replay(v, recs).next_node == (#[trigger] recs[i]).record_id() + 1,
        replay(v, recs).next_edge == v.next_edge || exists|i: int| 0 <= i < recs.len() && recs[i] is AddEdge
            && replay(v, recs).next_edge == (#[trigger] recs[i]).record_id() + 1,
    decreases recs.len(),
{
    if recs.len() > 0 {
        let init = recs.drop_last();
        let n = recs.len() - 1;
        assert forall|i: int| 0 <= i < init.len() implies (#[trigger] init[i]).record_id() < u64::MAX by {
            assert(init[i] == recs[i]);
        }
        law_replay_counter_max(v, init);
        assert(recs.last() == recs[n]);
        assert(recs[n].record_id() < u64::MAX);
        let w = replay(v, init);
        let x = replay(v, recs);
        assert forall|i: int| 0 <= i < recs.len() && recs[i] is AddNode implies x.next_node > (#[trigger] recs[i]).record_id() by {
            if i < n {
                assert(init[i] == recs[i]);
            }
        }
        assert forall|i: int| 0 <= i < recs.len() && recs[i] is AddEdge implies x.next_edge > (#[trigger] recs[i]).record_id() by {
            if i < n {
                assert(init[i] == recs[i]);
            }
        }
        if x.next_node != v.next_node {
            if x.next_node == w.next_node {
                let i = choose|i: int| 0 <= i < init.len() && init[i] is AddNode && w.next_node == (#[trigger] init[i]).record_id() + 1;
                assert(recs[i] == init[i]);
            } else {
                assert(recs[n] is AddNode && x.next_node == recs[n].record_id() + 1);
            }
        }
        if x.next_edge != v.next_edge {
            if x.next_edge == w.next_edge {
                let i = choose|i: int| 0 <= i < init.len() && init[i] is AddEdge && w.next_edge == (#[trigger] init[i]).record_id() + 1;
                assert(recs[i] == init[i]);
            } else {
                assert(recs[n] is AddEdge && x.next_edge == recs[n].record_id() + 1);
            }
        }
    }
}

proof fn lemma_replay_same_shape(a: GraphView, b: GraphView, recs: Seq<WalRecord>)
    requires
        consistent(a),
        consistent(b),
        same_shape(a, b),
        issued(a, recs),
    ensures
        consistent(replay(a, recs)),
        consistent(replay(b, recs)),
        same_shape(replay(a, recs), replay(b, recs)),
    decreases recs.len(),
{
    if recs.len() > 0 {
        let init = recs.drop_last();
        assert forall|i: int| 0 <= i < init.len() implies match #[trigger] init[i] {
            WalRecord::AddNode { id, .. } => id == replay(a, init.take(i)).next_node && id < u64::MAX,
            WalRecord::AddEdge { id, .. } => id == replay(a, init.take(i)).next_edge && id < u64::MAX,
        } by {
            assert(init.take(i) =~= recs.take(i));
            assert(init[i] == recs[i]);
        }
        lemma_replay_same_shape(a, b, init);
        let x = replay(a, init);
        let y = replay(b, init);
        let last = recs[recs.len() - 1];
        assert(recs.take(recs.len() - 1) =~= init);
        assert(recs.last() == last);
        match last {
            WalRecord::AddNode { id, labels, properties } => {
                let n = NodeView { id, labels: crate::entities::texts(labels@), properties };
                assert(!x.nodes.contains_key(id));
                assert(!y.nodes.contains_key(id));
                lemma_put_node(x, n);
                lemma_put_node(y, n);
                let p = put_node(x, n);
                let q = put_node(y, n);
                assert forall|l: Seq<char>, k: u64| #[trigger] list_of(p.labels, l).contains(k) == list_of(q.labels, l).contains(k) by {
                    lemma_index_labels_contains(x.labels, n.labels, id, l, k);
                    lemma_index_labels_contains(y.labels, n.labels, id, l, k);
                }
            },
            WalRecord::AddEdge { id, from_node, to_node, edge_type, properties } => {
                let e = EdgeView { id, from_node, to_node, edge_type: edge_type@, properties };
                assert(!x.edges.contains_key(id));
                assert(!y.edges.contains_key(id));
                lemma_put_edge(x, e);
                lemma_put_edge(y, e);
                let p = put_edge(x, e);
                let q = put_edge(y, e);
                assert forall|m: u64, k: u64| #[trigger] list_of(p.out, m).contains(k) == list_of(q.out, m).contains(k) by {
                    lemma_append_contains(x.out, from_node, id, m, k);
                    lemma_append_contains(y.out, from_node, id, m, k);
                }
                assert forall|m: u64, k: u64| #[trigger] list_of(p.inc, m).contains(k) == list_of(q.inc, m).contains(k) by {
                    lemma_append_contains(x.inc, to_node, id, m, k);
                    lemma_append_contains(y.inc, to_node, id, m, k);
                }
            },
        }
    }
}

/// Log replay equivalence through the segment bytes: when the bytes that a
/// flush of a store writes parse, loading them and replaying records that
/// carry the ids insertion issued gives a store that agrees, property values
/// aside, with applying those insertions to the store directly.
pub proof fn law_replay_after_load_bytes(
    s: InMemoryGraphStore,
    nb: Seq<u8>,
    eb: Seq<u8>,
    nv: Seq<Node>,
    ev: Seq<Edge>,
    recs: Seq<WalRecord>,
)
    requires
        s.wf(),
        consistent(s@),
        tight(s@),
        nodes_segment(nb, flushed_nodes(s)),
        edges_segment(eb, flushed_edges(s)),
        json_parses(nb),
        json_parses(eb),
        read_nodes(nb, nv),
        read_edges(eb, ev),
        issued(s@, recs),
    ensures
        same_shape(
            replay(s@, recs),
            replay(load_view(nv.map_values(|n: Node| n@), ev.map_values(|e: Edge| e@)), recs),
        ),
{
    law_flush_load_bytes(s, nb, eb, nv, ev);
    let l = load_view(nv.map_values(|n: Node| n@), ev.map_values(|e: Edge| e@));
    assert(consistent(l)) by {
        assert forall|k: u64| #[trigger] l.nodes.contains_key(k) implies l.nodes[k].id == k && k < l.next_node by {
            assert(s@.nodes.contains_key(k));
        }
        assert forall|k: u64| #[trigger] l.edges.contains_key(k) implies l.edges[k].id == k && k < l.next_edge by {
            assert(s@.edges.contains_key(k));
        }
        assert forall|m: Seq<char>, k: u64| #[trigger] list_of(l.labels, m).contains(k)
            <==> (l.nodes.contains_key(k) && l.nodes[k].labels.contains(m)) by {
            assert(list_of(l.labels, m).contains(k) == list_of(s@.labels, m).contains(k));
            if l.nodes.contains_key(k) {
                assert(s@.nodes.contains_key(k));
            }
        }
        assert forall|m: u64, k: u64| #[trigger] list_of(l.out, m).contains(k)
            <==> (l.edges.contains_key(k) && l.edges[k].from_node == m) by {
            assert(list_of(l.out, m).contains(k) == list_of(s@.out, m).contains(k));
            if l.edges.contains_key(k) {
                assert(s@.edges.contains_key(k));
            }
        }
        assert forall|m: u64, k: u64| #[trigger] list_of(l.inc, m).contains(k)
            <==> (l.edges.contains_key(k) && l.edges[k].to_node == m) by {
            assert(list_of(l.inc, m).contains(k) == list_of(s@.inc, m).contains(k));
            if l.edges.contains_key(k) {
                assert(s@.edges.contains_key(k));
            }
        }
    }
    assert(same_shape(s@, l)) by {
        assert forall|k: u64| #[trigger] s@.nodes.contains_key(k) implies s@.nodes[k].id == l.nodes[k].id && s@.nodes[k].labels
            == l.nodes[k].labels by {
            assert(l.nodes.contains_key(k));
        }
        assert forall|k: u64| #[trigger] s@.edges.contains_key(k) implies s@.edges[k].id == l.edges[k].id && s@.edges[k].from_node
            == l.edges[k].from_node && s@.edges[k].to_node == l.edges[k].to_node && s@.edges[k].edge_type
            == l.edges[k].edge_type by {
            assert(l.edges.contains_key(k));
        }
    }
    lemma_replay_same_shape(s@, l, recs);
}

} // verus!

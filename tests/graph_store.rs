use casys_graph_store::{
    Edge, GraphReadStore, GraphWriteStore, InMemoryGraphStore, Node, Properties, WalRecord,
};

fn props() -> Properties {
    serde_json::Map::new()
}

fn labels(ls: &[&str]) -> Vec<String> {
    ls.iter().map(|s| s.to_string()).collect()
}

fn ids_of(nodes: &[Node]) -> Vec<u64> {
    let mut v: Vec<u64> = nodes.iter().map(|n| n.id).collect();
    v.sort();
    v
}

#[test]
fn end_to_end_person_knows() {
    let mut s = InMemoryGraphStore::new();
    let a = s.add_node(labels(&["Person"]), props()).unwrap();
    let b = s.add_node(labels(&["Person"]), props()).unwrap();
    let e = s.add_edge(a, b, "KNOWS".to_string(), props()).unwrap();
    let people = s.scan_by_label("Person").unwrap();
    assert_eq!(ids_of(&people), vec![a, b]);
    let knows = s.get_neighbors(a, Some("KNOWS")).unwrap();
    assert_eq!(knows.len(), 1);
    assert_eq!(knows[0].0.id, e);
    assert_eq!(knows[0].1.id, b);
    assert!(s.get_neighbors(a, Some("LIKES")).unwrap().is_empty());
}

#[test]
fn ids_start_at_one_and_increase() {
    let mut s = InMemoryGraphStore::new();
    assert_eq!(s.add_node(vec![], props()).unwrap(), 1);
    assert_eq!(s.add_node(vec![], props()).unwrap(), 2);
    assert_eq!(s.add_edge(1, 2, "T".to_string(), props()).unwrap(), 1);
    assert_eq!(s.add_edge(2, 1, "T".to_string(), props()).unwrap(), 2);
}

#[test]
fn unknown_label_scans_empty() {
    let mut s = InMemoryGraphStore::new();
    s.add_node(labels(&["A"]), props()).unwrap();
    assert!(s.scan_by_label("B").unwrap().is_empty());
    assert_eq!(s.scan_by_label("A").unwrap().len(), 1);
}

#[test]
fn duplicate_labels_give_duplicate_entries() {
    let mut s = InMemoryGraphStore::new();
    s.add_node(labels(&["A", "A"]), props()).unwrap();
    assert_eq!(s.scan_by_label("A").unwrap().len(), 2);
}

#[test]
fn get_node_absent_and_present() {
    let mut s = InMemoryGraphStore::new();
    let mut p = props();
    p.insert("age".to_string(), serde_json::Value::from(42u64));
    let id = s.add_node(labels(&["P"]), p.clone()).unwrap();
    let n = s.get_node(id).unwrap().unwrap();
    assert_eq!(n.labels, labels(&["P"]));
    assert_eq!(n.properties, p);
    assert!(s.get_node(99).unwrap().is_none());
}

#[test]
fn scan_all_lists_every_node_once() {
    let mut s = InMemoryGraphStore::new();
    assert!(s.scan_all().unwrap().is_empty());
    for _ in 0..3 {
        s.add_node(vec![], props()).unwrap();
    }
    assert_eq!(ids_of(&s.scan_all().unwrap()), vec![1, 2, 3]);
}

#[test]
fn dangling_edge_is_indexed_but_not_returned() {
    let mut s = InMemoryGraphStore::new();
    let a = s.add_node(vec![], props()).unwrap();
    let e = s.add_edge(a, 77, "T".to_string(), props()).unwrap();
    assert_eq!(e, 1);
    assert!(s.get_neighbors(a, None).unwrap().is_empty());
    // the source still resolves from the dangling destination's side
    let inc = s.get_neighbors_incoming(77, None).unwrap();
    assert_eq!(inc.len(), 1);
    assert_eq!(inc[0].1.id, a);
}

#[test]
fn incoming_neighbors_filter_by_type() {
    let mut s = InMemoryGraphStore::new();
    let a = s.add_node(vec![], props()).unwrap();
    let b = s.add_node(vec![], props()).unwrap();
    s.add_edge(a, b, "X".to_string(), props()).unwrap();
    s.add_edge(a, b, "Y".to_string(), props()).unwrap();
    let all = s.get_neighbors_incoming(b, None).unwrap();
    assert_eq!(all.len(), 2);
    let ys = s.get_neighbors_incoming(b, Some("Y")).unwrap();
    assert_eq!(ys.len(), 1);
    assert_eq!(ys[0].0.edge_type, "Y");
    assert_eq!(ys[0].1.id, a);
}

#[test]
fn replay_advances_counters_past_logged_ids() {
    let mut s = InMemoryGraphStore::new();
    let recs = vec![
        WalRecord::AddNode { id: 10, labels: labels(&["L"]), properties: props() },
        WalRecord::AddNode { id: 4, labels: vec![], properties: props() },
        WalRecord::AddEdge { id: 7, from_node: 10, to_node: 4, edge_type: "E".to_string(), properties: props() },
    ];
    assert!(s.replay_wal(&recs).is_ok());
    assert_eq!(s.add_node(vec![], props()).unwrap(), 11);
    assert_eq!(s.add_edge(4, 10, "E".to_string(), props()).unwrap(), 8);
    assert_eq!(ids_of(&s.scan_by_label("L").unwrap()), vec![10]);
    let n = s.get_neighbors(10, Some("E")).unwrap();
    assert_eq!(n.len(), 1);
    assert_eq!(n[0].1.id, 4);
}

#[test]
fn replay_rejects_largest_id_and_changes_nothing() {
    let mut s = InMemoryGraphStore::new();
    let recs = vec![
        WalRecord::AddNode { id: 3, labels: vec![], properties: props() },
        WalRecord::AddNode { id: u64::MAX, labels: vec![], properties: props() },
    ];
    assert!(s.replay_wal(&recs).is_err());
    assert!(s.scan_all().unwrap().is_empty());
    assert_eq!(s.add_node(vec![], props()).unwrap(), 1);
}

#[test]
fn segments_round_trip() {
    let mut s = InMemoryGraphStore::new();
    let a = s.add_node(labels(&["A", "B"]), props()).unwrap();
    let b = s.add_node(labels(&["B"]), props()).unwrap();
    s.add_edge(a, b, "R".to_string(), props()).unwrap();
    let nodes: Vec<Node> = s.segment_nodes();
    let edges: Vec<Edge> = s.segment_edges();
    assert_eq!(nodes.len(), 2);
    assert_eq!(edges.len(), 1);
    let mut t = InMemoryGraphStore::from_segments(nodes, edges).ok().unwrap();
    assert_eq!(ids_of(&t.scan_by_label("B").unwrap()), vec![a, b]);
    assert_eq!(ids_of(&t.scan_by_label("A").unwrap()), vec![a]);
    assert_eq!(t.get_neighbors(a, None).unwrap().len(), 1);
    assert_eq!(t.get_neighbors_incoming(b, Some("R")).unwrap().len(), 1);
    assert_eq!(t.add_node(vec![], props()).unwrap(), 3);
    assert_eq!(t.add_edge(a, b, "R".to_string(), props()).unwrap(), 2);
}

#[test]
fn load_then_replay_matches_direct_inserts() {
    let mut s = InMemoryGraphStore::new();
    s.add_node(labels(&["P"]), props()).unwrap();
    let mut t = InMemoryGraphStore::from_segments(s.segment_nodes(), s.segment_edges()).ok().unwrap();
    let n = s.add_node(labels(&["P"]), props()).unwrap();
    let e = s.add_edge(1, n, "K".to_string(), props()).unwrap();
    let recs = vec![
        WalRecord::AddNode { id: n, labels: labels(&["P"]), properties: props() },
        WalRecord::AddEdge { id: e, from_node: 1, to_node: n, edge_type: "K".to_string(), properties: props() },
    ];
    assert!(t.replay_wal(&recs).is_ok());
    assert_eq!(ids_of(&t.scan_by_label("P").unwrap()), ids_of(&s.scan_by_label("P").unwrap()));
    assert_eq!(ids_of(&t.scan_all().unwrap()), ids_of(&s.scan_all().unwrap()));
    assert_eq!(t.get_neighbors(1, None).unwrap().len(), 1);
    assert_eq!(t.add_node(vec![], props()).unwrap(), s.add_node(vec![], props()).unwrap());
}

#[test]
fn from_bytes_node_without_labels() {
    let r = WalRecord::from_bytes(br#"{"type":"add_node","id":5,"properties":{"k":"v"}}"#).ok().unwrap();
    match r {
        WalRecord::AddNode { id, labels, properties } => {
            assert_eq!(id, 5);
            assert!(labels.is_empty());
            assert_eq!(properties.get("k"), Some(&serde_json::Value::from("v")));
        }
        _ => panic!("expected a node record"),
    }
}

#[test]
fn from_bytes_edge_with_missing_fields() {
    let r = WalRecord::from_bytes(br#"{"type":"add_edge","from":2}"#).ok().unwrap();
    match r {
        WalRecord::AddEdge { id, from_node, to_node, edge_type, properties } => {
            assert_eq!(id, 0);
            assert_eq!(from_node, 2);
            assert_eq!(to_node, 0);
            assert_eq!(edge_type, "");
            assert!(properties.is_empty());
        }
        _ => panic!("expected an edge record"),
    }
}

#[test]
fn from_bytes_full_node_record() {
    let r = WalRecord::from_bytes(br#"{"type":"add_node","id":9,"labels":["A","B"]}"#).ok().unwrap();
    match r {
        WalRecord::AddNode { id, labels: ls, .. } => {
            assert_eq!(id, 9);
            assert_eq!(ls, labels(&["A", "B"]));
        }
        _ => panic!("expected a node record"),
    }
}

#[test]
fn from_bytes_unknown_type_is_error() {
    assert!(WalRecord::from_bytes(br#"{"type":"drop_node","id":1}"#).is_err());
}

#[test]
fn from_bytes_missing_type_is_error() {
    assert!(WalRecord::from_bytes(br#"{"id":1}"#).is_err());
}

#[test]
fn from_bytes_malformed_is_error() {
    assert!(WalRecord::from_bytes(b"not json").is_err());
    assert!(WalRecord::from_bytes(b"").is_err());
}

#[test]
fn from_fields_defaults() {
    let r = WalRecord::from_fields(Some("add_node".to_string()), None, None, None, None, None, None);
    match r.ok().unwrap() {
        WalRecord::AddNode { id, labels, .. } => {
            assert_eq!(id, 0);
            assert!(labels.is_empty());
        }
        _ => panic!("expected a node record"),
    }
    assert!(WalRecord::from_fields(None, Some(1), None, None, None, None, Some(props())).is_err());
}

#[test]
fn segment_entry_defaults() {
    let n = Node::from_segment_fields(None, None, None);
    assert_eq!(n.id, 0);
    assert!(n.labels.is_empty());
    let n = Node::from_segment_fields(Some(4), Some(labels(&["X"])), Some(props()));
    assert_eq!(n.id, 4);
    assert_eq!(n.labels, labels(&["X"]));
    let e = Edge::from_segment_fields(Some(2), None, Some(5), None, None);
    assert_eq!((e.id, e.from_node, e.to_node), (2, 0, 5));
    assert_eq!(e.edge_type, "");
    let e = Edge::from_segment_fields(None, Some(1), None, Some("T".to_string()), Some(props()));
    assert_eq!((e.id, e.from_node, e.to_node), (0, 1, 0));
    assert_eq!(e.edge_type, "T");
}

#[test]
fn add_node_keeps_properties_and_labels() {
    let mut s = InMemoryGraphStore::new();
    let mut p = props();
    p.insert("name".to_string(), serde_json::Value::from("Ada"));
    let id = s.add_node(labels(&["Person", "Admin"]), p.clone()).unwrap();
    let all = s.scan_all().unwrap();
    assert_eq!(all.len(), 1);
    assert_eq!(all[0].id, id);
    assert_eq!(all[0].labels, labels(&["Person", "Admin"]));
    assert_eq!(all[0].properties, p);
    assert_eq!(ids_of(&s.scan_by_label("Admin").unwrap()), vec![id]);
}

#[test]
fn to_bytes_round_trips_node_record() {
    let mut p = props();
    p.insert("age".to_string(), serde_json::Value::from(7u64));
    let rec = WalRecord::AddNode { id: 12, labels: labels(&["A", "B"]), properties: p.clone() };
    let bytes = rec.to_bytes();
    assert!(!bytes.is_empty());
    match WalRecord::from_bytes(&bytes).ok().unwrap() {
        WalRecord::AddNode { id, labels: ls, properties } => {
            assert_eq!(id, 12);
            assert_eq!(ls, labels(&["A", "B"]));
            assert_eq!(properties, p);
        }
        _ => panic!("expected a node record"),
    }
}

#[test]
fn to_bytes_round_trips_edge_record() {
    let rec = WalRecord::AddEdge { id: 3, from_node: 1, to_node: 2, edge_type: "KNOWS".to_string(), properties: props() };
    let bytes = rec.to_bytes();
    let v: serde_json::Value = serde_json::from_slice(&bytes).unwrap();
    assert_eq!(v["type"], serde_json::Value::from("add_edge"));
    match WalRecord::from_bytes(&bytes).ok().unwrap() {
        WalRecord::AddEdge { id, from_node, to_node, edge_type, .. } => {
            assert_eq!((id, from_node, to_node), (3, 1, 2));
            assert_eq!(edge_type, "KNOWS");
        }
        _ => panic!("expected an edge record"),
    }
}

#[test]
fn segment_bytes_round_trip() {
    let mut s = InMemoryGraphStore::new();
    let a = s.add_node(labels(&["A", "B"]), props()).unwrap();
    let b = s.add_node(labels(&["B"]), props()).unwrap();
    s.add_edge(a, b, "R".to_string(), props()).unwrap();
    s.add_edge(b, 9, "D".to_string(), props()).unwrap();
    let nb = s.nodes_segment_bytes();
    let eb = s.edges_segment_bytes();
    let v: serde_json::Value = serde_json::from_slice(&nb).unwrap();
    assert_eq!(v["count"], serde_json::Value::from(2u64));
    let mut t = InMemoryGraphStore::from_segment_bytes(Some(&nb), Some(&eb)).ok().unwrap();
    assert_eq!(ids_of(&t.scan_by_label("B").unwrap()), vec![a, b]);
    assert_eq!(t.get_neighbors(a, Some("R")).unwrap().len(), 1);
    assert_eq!(t.get_neighbors_incoming(9, None).unwrap().len(), 1);
    assert_eq!(t.add_node(vec![], props()).unwrap(), 3);
    assert_eq!(t.add_edge(a, b, "R".to_string(), props()).unwrap(), 3);
}

#[test]
fn segment_bytes_absent_and_malformed() {
    let mut t = InMemoryGraphStore::from_segment_bytes(None, None).ok().unwrap();
    assert!(t.scan_all().unwrap().is_empty());
    assert_eq!(t.add_node(vec![], props()).unwrap(), 1);
    assert!(InMemoryGraphStore::from_segment_bytes(Some(b"{"), None).is_err());
    assert!(InMemoryGraphStore::from_segment_bytes(None, Some(b"nope")).is_err());
}

#[test]
fn segment_entries_default_missing_members() {
    let nb = br#"{"count":1,"nodes":[{"id":4}]}"#;
    let eb = br#"{"count":1,"edges":[{"from":4,"type":"T"}]}"#;
    let t = InMemoryGraphStore::from_segment_bytes(Some(nb), Some(eb)).ok().unwrap();
    let n = t.get_node(4).unwrap().unwrap();
    assert!(n.labels.is_empty());
    let out = t.get_neighbors_incoming(0, Some("T")).unwrap();
    assert_eq!(out.len(), 1);
    assert_eq!(out[0].0.id, 0);
    assert_eq!(out[0].1.id, 4);
    assert!(t.get_neighbors(4, None).unwrap().is_empty());
}

#[test]
fn parse_errors_name_the_step() {
    match InMemoryGraphStore::from_segment_bytes(Some(b"{"), None) {
        Err(casys_graph_store::EngineError::StorageIo(msg)) => assert!(msg.starts_with("parse nodes.seg: ")),
        Ok(_) => panic!("expected an error"),
    }
    match InMemoryGraphStore::from_segment_bytes(None, Some(b"[")) {
        Err(casys_graph_store::EngineError::StorageIo(msg)) => assert!(msg.starts_with("parse edges.seg: ")),
        Ok(_) => panic!("expected an error"),
    }
    match WalRecord::from_bytes(b"x") {
        Err(casys_graph_store::EngineError::StorageIo(msg)) => assert!(msg.starts_with("WAL record parse: ")),
        Ok(_) => panic!("expected an error"),
    }
}

#[test]
fn to_bytes_is_deterministic() {
    let a = WalRecord::AddNode { id: 1, labels: labels(&["A"]), properties: props() };
    let b = WalRecord::AddNode { id: 1, labels: labels(&["A"]), properties: props() };
    assert_eq!(a.to_bytes(), b.to_bytes());
    assert_eq!(a.to_bytes(), a.to_bytes());
}

#[test]
fn segment_ids_at_the_limit_fail_to_load() {
    let nb = format!("{{\"count\":1,\"nodes\":[{{\"id\":{}}}]}}", u64::MAX);
    assert!(InMemoryGraphStore::from_segment_bytes(Some(nb.as_bytes()), None).is_err());
}

use rgbuilder::fingerprint::{compute_export_fingerprint, AnalysisIndexEntry, SemanticIndexFile};
use rgbuilder::dashboard::{graph_counts, payload_stats};
use rgbuilder::dataflow_export::{export_dataflow_index, SliceFunction};
use rgbuilder::function_meta::{function_meta_from_backend, resolve_function_meta};
use rgbuilder::graph::{Edge, EdgeType, Node, NodeType};
use rgbuilder::query::MemoryBackend;
use rgbuilder::source_catalog::{source_entry, source_id_for_path, source_index_payload, SourceFileEntry};

#[test]
fn source_id_is_a_blake3_prefix() {
    let id = source_id_for_path("src/main.rs");
    let full = blake3::hash(b"src/main.rs").to_hex().to_string();
    assert_eq!(id, full[..16]);
    assert_eq!(id.len(), 16);
    assert!(id.chars().all(|c| c.is_ascii_hexdigit() && !c.is_ascii_uppercase()));
    assert_eq!(id, source_id_for_path("src/main.rs"));
    assert_ne!(id, source_id_for_path("src/lib.rs"));
}

#[test]
fn source_entry_counts_lines_and_never_zero() {
    let e = source_entry("a.rs", "fn a() {}\nfn b() {}\n");
    assert_eq!(e.total_lines, 2);
    assert_eq!(e.file_path, "a.rs");
    assert_eq!(e.source_id, source_id_for_path("a.rs"));
    assert_eq!(source_entry("empty.rs", "").total_lines, 1);
    assert_eq!(source_entry("crlf.rs", "x\r\ny").total_lines, 2);
}

fn entry(path: &str, lines: usize) -> SourceFileEntry {
    SourceFileEntry {
        source_id: source_id_for_path(path),
        file_path: path.to_string(),
        total_lines: lines,
    }
}

#[test]
fn source_index_sorts_by_path_and_keeps_ties_in_order() {
    let entries = vec![entry("src/z.rs", 1), entry("src/a.rs", 2), entry("lib.rs", 3), entry("src/a.rs", 4)];
    let payload = source_index_payload(&entries);
    assert_eq!(payload.schema_version, 1);
    let order: Vec<(&str, usize)> = payload
        .files
        .iter()
        .map(|e| (e.file_path.as_str(), e.total_lines))
        .collect();
    assert_eq!(order, vec![("lib.rs", 3), ("src/a.rs", 2), ("src/a.rs", 4), ("src/z.rs", 1)]);
}

fn slice_fn(id: &str, pdg_nodes: usize) -> SliceFunction {
    SliceFunction {
        function_id: id.to_string(),
        name: format!("{id}_name"),
        file_path: Some("src/a.rs".to_string()),
        pdg_nodes,
    }
}

#[test]
fn dataflow_index_unavailable_without_slices() {
    let (index, summary) = export_dataflow_index(false, &[], &[], &[], "slice").unwrap();
    assert!(!index.available);
    assert_eq!(index.schema_version, 1);
    assert_eq!(index.detail_dir, "slice");
    assert_eq!(index.function_count, 0);
    assert!(index.functions.is_empty());
    assert!(!summary.available);
    assert_eq!(summary.function_count, 0);
}

#[test]
fn dataflow_index_counts_data_edges_and_blocks() {
    let functions = vec![slice_fn("f1", 10), slice_fn("f2", 4)];
    let bundle = br#"{"pdg":{"edges":[{"kind":"data"},{"kind":"control"},{"kind":"data"},{}]}}"#.to_vec();
    let bundles = vec![Some(bundle), None];
    let blocks = vec![("f1".to_string(), 3), ("f1".to_string(), 5)];
    let (index, summary) = export_dataflow_index(true, &functions, &bundles, &blocks, "slice").unwrap();
    assert!(index.available);
    assert_eq!(index.function_count, 2);
    assert_eq!(index.functions[0].function_id, "f1");
    assert_eq!(index.functions[0].name, "f1_name");
    assert_eq!(index.functions[0].pdg_nodes, 10);
    assert_eq!(index.functions[0].data_edges, 2);
    assert_eq!(index.functions[0].block_count, 5);
    assert_eq!(index.functions[1].data_edges, 0);
    assert_eq!(index.functions[1].block_count, 0);
    assert!(summary.available);
    assert_eq!(summary.function_count, 2);
}

#[test]
fn dataflow_index_reports_a_broken_bundle() {
    let functions = vec![slice_fn("f1", 1)];
    let bundles = vec![Some(b"{not json".to_vec())];
    assert!(export_dataflow_index(true, &functions, &bundles, &[], "slice").is_err());
}

fn header(nodes: u64, edges: u64, digest: &str) -> Vec<u8> {
    let mut b = b"RBGR".to_vec();
    b.extend_from_slice(&[0u8; 8]);
    b.extend_from_slice(&nodes.to_le_bytes());
    b.extend_from_slice(&edges.to_le_bytes());
    let mut d = digest.as_bytes().to_vec();
    d.resize(64, 0);
    b.extend_from_slice(&d);
    b.extend_from_slice(b"payload");
    b
}

#[test]
fn payload_stats_reads_the_snapshot_header() {
    let backend = MemoryBackend::new();
    let bytes = header(5, 7, "abc123");
    let (n, e, digest) = payload_stats(Some(&bytes), &backend);
    assert_eq!((n, e, digest.as_str()), (5, 7, "abc123"));
}

#[test]
fn payload_stats_falls_back_to_the_graph() {
    let mut backend = MemoryBackend::new();
    backend.insert_node(Node::new(NodeType::Function, "main"));
    let mut bad = header(5, 7, "abc");
    bad[0] = b'X';
    assert_eq!(payload_stats(Some(&bad), &backend), (1, 0, String::new()));
    assert_eq!(payload_stats(Some(&bad[..50]), &backend), (1, 0, String::new()));
    assert_eq!(payload_stats(None, &backend), (1, 0, String::new()));
}

#[test]
fn resolve_prefers_record_name_over_uuid_fallback() {
    let backend = MemoryBackend::new();
    let id = uuid::Uuid::new_v4().as_u128();
    let cache = function_meta_from_backend(&backend);
    let (name, _) = resolve_function_meta(
        &id,
        "checkout",
        &Some("src/Checkout.java".into()),
        "/tmp",
        &backend,
        &cache,
    );
    assert_eq!(name, "checkout");
}

#[test]
fn backend_names_used_when_present() {
    let mut backend = MemoryBackend::new();
    let node = Node::new(NodeType::Function, "main");
    let id = node.id;
    backend.insert_node(node);
    let cache = function_meta_from_backend(&backend);
    let (name, _) = resolve_function_meta(&id, "", &None, "/tmp", &backend, &cache);
    assert_eq!(name, "main");
}

#[test]
fn unknown_function_falls_back_to_its_uuid_text() {
    let backend = MemoryBackend::new();
    let cache = function_meta_from_backend(&backend);
    let id = 0x550e8400_e29b_41d4_a716_446655440000u128;
    let uuid_name = "550e8400-e29b-41d4-a716-446655440000";
    // A record name that is itself a UUID does not count as a name.
    let (name, path) =
        resolve_function_meta(&id, uuid_name, &Some("a.rs".to_string()), "/tmp", &backend, &cache);
    assert_eq!(name, uuid_name);
    assert_eq!(path.as_deref(), Some("a.rs"));
}


fn function_with_hash(name: &str, file: &str, hash: &str) -> Node {
    Node::new(NodeType::Function, name)
        .with_file_path(file.to_string())
        .with_code_hash(hash.to_string())
}

#[test]
fn export_fingerprint_hashes_sorted_function_bodies() {
    let mut backend = MemoryBackend::new();
    backend.insert_node(function_with_hash("zeta", "b.rs", "h2"));
    backend.insert_node(function_with_hash("alpha", "b.rs", "h1"));
    backend.insert_node(Node::new(NodeType::Function, "no_hash").with_file_path("a.rs".to_string()));
    backend.insert_node(function_with_hash("main", "a.rs", "h0"));

    let mut msg: Vec<u8> = Vec::new();
    msg.extend_from_slice(&4u64.to_le_bytes());
    msg.extend_from_slice(&0u64.to_le_bytes());
    for part in ["a.rs", "main", "h0", "b.rs", "alpha", "h1", "b.rs", "zeta", "h2"] {
        msg.extend_from_slice(part.as_bytes());
    }
    let expected = blake3::hash(&msg).to_hex().to_string();
    assert_eq!(compute_export_fingerprint(&backend, None, None), expected);

    // The analysis index (by key) and the semantic index file are hashed after.
    let entries = vec![
        AnalysisIndexEntry { key: "k2".into(), code_hash: "c2".into(), flow_count: 1, vulnerable_count: 0 },
        AnalysisIndexEntry { key: "k1".into(), code_hash: "c1".into(), flow_count: 3, vulnerable_count: 2 },
    ];
    let semantic = SemanticIndexFile { metadata: Some((1024, Some(77))) };
    msg.extend_from_slice(&2u64.to_le_bytes());
    for (k, c, f, v) in [("k1", "c1", 3u64, 2u64), ("k2", "c2", 1, 0)] {
        msg.extend_from_slice(k.as_bytes());
        msg.extend_from_slice(c.as_bytes());
        msg.extend_from_slice(&f.to_le_bytes());
        msg.extend_from_slice(&v.to_le_bytes());
    }
    msg.extend_from_slice(b"semantic_index_v1");
    msg.extend_from_slice(&1024u64.to_le_bytes());
    msg.extend_from_slice(&77u64.to_le_bytes());
    let expected_full = blake3::hash(&msg).to_hex().to_string();
    assert_eq!(compute_export_fingerprint(&backend, Some(&entries), Some(semantic)), expected_full);
}

#[test]
fn graph_counts_count_functions_classes_and_calls() {
    let mut backend = MemoryBackend::new();
    let f = Node::new(NodeType::Function, "f");
    let g = Node::new(NodeType::Function, "g");
    let (fid, gid) = (f.id, g.id);
    backend.insert_node(f);
    backend.insert_node(g);
    backend.insert_node(Node::new(NodeType::Class, "C"));
    backend.insert_node(Node::new(NodeType::File, "a.rs"));
    backend.insert_edge(Edge::new(fid, gid, EdgeType::Calls));
    backend.insert_edge(Edge::new(gid, fid, EdgeType::Uses));
    let c = graph_counts(&backend);
    assert_eq!((c.function_count, c.class_count, c.calls_count), (2, 1, 1));
}

#[test]
fn export_fingerprint_ignores_node_order() {
    let mut a = MemoryBackend::new();
    a.insert_node(function_with_hash("f", "x.rs", "1"));
    a.insert_node(function_with_hash("g", "y.rs", "2"));
    let mut b = MemoryBackend::new();
    b.insert_node(function_with_hash("g", "y.rs", "2"));
    b.insert_node(function_with_hash("f", "x.rs", "1"));
    assert_eq!(compute_export_fingerprint(&a, None, None), compute_export_fingerprint(&b, None, None));
    let mut c = MemoryBackend::new();
    c.insert_node(function_with_hash("f", "x.rs", "1"));
    c.insert_node(function_with_hash("g", "y.rs", "3"));
    assert_ne!(compute_export_fingerprint(&a, None, None), compute_export_fingerprint(&c, None, None));
}

#[test]
fn record_names_shaped_like_uuids_are_judged_by_the_parser() {
    let backend = MemoryBackend::new();
    let cache = function_meta_from_backend(&backend);
    let id = 0x550e8400_e29b_41d4_a716_446655440000u128;
    let fallback = "550e8400-e29b-41d4-a716-446655440000";
    // upper-case hex is still a UUID, so it is passed over
    let (name, _) = resolve_function_meta(&id, "550E8400-E29B-41D4-A716-446655440000", &None, "/tmp", &backend, &cache);
    assert_eq!(name, fallback);
    // a non-hex digit makes it a plain name
    let odd = "550e8400-e29b-41d4-a716-44665544000g";
    assert!(uuid::Uuid::parse_str(odd).is_err());
    let (name, _) = resolve_function_meta(&id, odd, &None, "/tmp", &backend, &cache);
    assert_eq!(name, odd);
    // a misplaced hyphen too
    let shifted = "550e840-0e29b-41d4-a716-446655440000";
    let (name, _) = resolve_function_meta(&id, shifted, &None, "/tmp", &backend, &cache);
    assert_eq!(name, shifted);
}

use rgbuilder::error::Error;
use rgbuilder::export::{filtered_counts, select_subgraph};
use rgbuilder::graph::{Edge, EdgeType, Node, NodeType};
use rgbuilder::graph_compactor::{DeltaSegment, GraphCompactor, SnapshotGraph};
use rgbuilder::intern::StringInterner;
use rgbuilder::query::{execute, execute_chunks, execute_node_ids, parse_node_type, MemoryBackend};
use rgbuilder::universe_actions::{action_cli_hint, build_argv, resolve_action};
use rgbuilder::universe_layout::{bridge_edges, compute_package_units, Metaedge, Metanode};
use std::collections::HashMap;
use std::sync::Arc;

#[test]
fn test_compound_query_intersects_ids() {
    let mut backend = MemoryBackend::new();
    backend.insert_node(
        Node::new(NodeType::Function, "run").with_return_type("Result<()>".to_string()),
    );
    backend.insert_node(Node::new(NodeType::Function, "other").with_return_type("i32".to_string()));
    backend.insert_node(Node::new(NodeType::Class, "Svc"));

    let results = execute(&backend, "type:Function|return_type:Result").unwrap();
    assert_eq!(results.len(), 1);
    assert_eq!(results[0].name, "run");
}

#[test]
fn test_query_by_type() {
    let mut backend = MemoryBackend::new();
    backend.insert_node(Node::new(NodeType::Function, "main"));
    backend.insert_node(Node::new(NodeType::File, "main.rs"));

    let results = execute(&backend, "type:Function").unwrap();
    assert_eq!(results.len(), 1);
    assert_eq!(results[0].name, "main");
}

#[test]
fn test_query_functions_shorthand() {
    let mut backend = MemoryBackend::new();
    backend.insert_node(Node::new(NodeType::Function, "foo"));

    let results = execute(&backend, "functions").unwrap();
    assert_eq!(results.len(), 1);
}

#[test]
fn test_query_by_repo() {
    let mut backend = MemoryBackend::new();
    backend.insert_node(
        Node::new(NodeType::Function, "main").with_property("repo".to_string(), "api".to_string()),
    );
    backend.insert_node(
        Node::new(NodeType::Function, "other").with_property("repo".to_string(), "web".to_string()),
    );

    let results = execute(&backend, "repo:api").unwrap();
    assert_eq!(results.len(), 1);
    assert_eq!(results[0].name, "main");
}

#[test]
fn test_query_by_name_suffix() {
    let mut backend = MemoryBackend::new();
    backend.insert_node(Node::new(NodeType::Class, "UserService"));
    backend.insert_node(Node::new(NodeType::Class, "OrderService"));
    backend.insert_node(Node::new(NodeType::Class, "UserController"));

    let results = execute(&backend, "name_suffix:Service").unwrap();
    assert_eq!(results.len(), 2);
    assert!(results.iter().all(|n| n.name.ends_with("Service")));
}

#[test]
fn test_query_signature_filter() {
    let mut backend = MemoryBackend::new();
    backend.insert_node(
        Node::new(NodeType::Function, "run").with_signature("async fn run()".to_string()),
    );
    let results = execute(&backend, "signature:*async*").unwrap();
    assert_eq!(results.len(), 1);
}

#[test]
fn test_execute_chunks() {
    let mut backend = MemoryBackend::new();
    for i in 0..5 {
        backend.insert_node(Node::new(NodeType::Function, &format!("fn{i}")));
    }

    let chunks = execute_chunks(&backend, "functions", 2).unwrap();
    assert_eq!(chunks.len(), 3);
    assert_eq!(chunks.iter().map(|c| c.len()).sum::<usize>(), 5);
}

#[test]
fn execute_chunks_rejects_zero_size() {
    let backend = MemoryBackend::new();
    assert!(matches!(
        execute_chunks(&backend, "functions", 0),
        Err(Error::InvalidQuery(_))
    ));
}

#[test]
fn unknown_node_type_is_an_invalid_query() {
    assert!(matches!(parse_node_type("Function"), Ok(NodeType::Function)));
    assert!(matches!(parse_node_type("Gizmo"), Err(Error::InvalidQuery(_))));
}

#[test]
fn node_ids_follow_insertion_order() {
    let mut backend = MemoryBackend::new();
    let a = Node::new(NodeType::Function, "a");
    let b = Node::new(NodeType::Class, "b");
    let c = Node::new(NodeType::Function, "c");
    let (ia, ic) = (a.id, c.id);
    backend.insert_node(a);
    backend.insert_node(b);
    backend.insert_node(c);
    assert_eq!(execute_node_ids(&backend, "functions").unwrap(), vec![ia, ic]);
}

fn chain_backend() -> MemoryBackend {
    let mut backend = MemoryBackend::new();
    let a = Node::new(NodeType::Function, "a");
    let b = Node::new(NodeType::Function, "b");
    let c = Node::new(NodeType::Function, "c");
    let id_a = a.id;
    let id_b = b.id;
    let id_c = c.id;
    backend.insert_node(a);
    backend.insert_node(b);
    backend.insert_node(c);
    backend.insert_edge(Edge::new(id_a, id_b, EdgeType::Calls));
    backend.insert_edge(Edge::new(id_b, id_c, EdgeType::Calls));
    backend
}

#[test]
fn test_select_subgraph_max_depth() {
    let backend = chain_backend();
    let sg = select_subgraph(&backend, "name:a", Some(1)).unwrap();
    assert_eq!(sg.nodes.len(), 2);
    assert!(sg.nodes.iter().any(|n| n.name == "b"));
    assert!(!sg.nodes.iter().any(|n| n.name == "c"));
}

#[test]
fn select_subgraph_without_depth_keeps_only_the_matches() {
    let backend = chain_backend();
    let sg = select_subgraph(&backend, "name:a", None).unwrap();
    assert_eq!(sg.nodes.len(), 1);
    assert!(sg.edges.is_empty());
    let deep = select_subgraph(&backend, "name:a", Some(5)).unwrap();
    assert_eq!(deep.nodes.len(), 3);
    assert_eq!(deep.edges.len(), 2);
}

#[test]
fn test_intern_deduplicates() {
    let mut interner = StringInterner::new();
    let a = interner.intern("hello").unwrap();
    let b = interner.intern("hello").unwrap();
    assert!(Arc::ptr_eq(&a, &b));
    assert_eq!(interner.len(), 1);
    assert!(!interner.is_empty());
}

#[test]
fn resolve_whitelisted_actions() {
    assert_eq!(resolve_action("semantic_index"), Some("semantic_index"));
    assert_eq!(resolve_action("discover_refresh"), Some("discover_refresh"));
    assert!(resolve_action("rm_rf").is_none());
}

#[test]
fn build_argv_rejects_unknown() {
    assert!(build_argv("evil", "/bin/rg-build", "/tmp").is_err());
}

#[test]
fn cli_hints_include_repo() {
    let hint = action_cli_hint("semantic_index", "/repo").unwrap();
    assert!(hint.contains("semantic index"));
    assert!(hint.contains("/repo"));
}

#[test]
fn compact_drops_invalidated_file_and_appends_delta() {
    let keep = Node::new(NodeType::Function, "keep").with_file_path("a.rs".into());
    let drop_n = Node::new(NodeType::Function, "drop_me").with_file_path("b.rs".into());
    let keep_id = keep.id;
    let drop_id = drop_n.id;
    let e_keep = Edge::new(keep_id, keep_id, EdgeType::Calls);
    let e_drop = Edge::new(keep_id, drop_id, EdgeType::Calls);
    let base = SnapshotGraph {
        nodes: vec![keep, drop_n],
        edges: vec![e_keep, e_drop],
    };

    let replacement = Node::new(NodeType::Function, "fresh").with_file_path("b.rs".into());
    let fresh_id = replacement.id;
    let mut delta = DeltaSegment::new();
    delta.invalidate_file("b.rs");
    delta.new_nodes.push(replacement);
    delta.new_edges.push(Edge::new(keep_id, fresh_id, EdgeType::Calls));

    let (out, stats) = GraphCompactor::new(base, delta).compact();

    assert_eq!(stats.nodes_kept, 1);
    assert_eq!(stats.nodes_dropped, 1);
    assert_eq!(stats.nodes_from_delta, 1);
    assert_eq!(stats.edges_kept, 1); // self-call on keep
    assert!(stats.edges_dropped >= 1);
    assert_eq!(stats.edges_from_delta, 1);
    assert_eq!(out.nodes.len(), 2);
    assert_eq!(out.edges.len(), 2);
    assert!(out
        .edges
        .iter()
        .all(|e| out.nodes.iter().any(|n| n.id == e.from) && out.nodes.iter().any(|n| n.id == e.to)));
    assert!(!out.nodes.iter().any(|n| n.id == drop_id));
}

fn metanode(id: u32, community: Option<usize>) -> Metanode {
    Metanode {
        id,
        label: format!("pkg{id}"),
        member_indices: vec![],
        community_id: community,
    }
}

#[test]
fn universe_bridges_reference_valid_communities() {
    let metanodes = vec![metanode(0, Some(0)), metanode(1, Some(1)), metanode(2, Some(1))];
    let metaedges = vec![
        Metaedge { source: 0, target: 1, weight: 3 },
        Metaedge { source: 2, target: 0, weight: 2 },
        Metaedge { source: 1, target: 2, weight: 5 },
    ];
    let bridges = bridge_edges(&metanodes, &metaedges);
    assert_eq!(bridges.len(), 1);
    assert_eq!(bridges[0].source_community_id, 0);
    assert_eq!(bridges[0].target_community_id, 1);
    assert_eq!(bridges[0].weight, 5);
}

#[test]
fn filtered_counts_cover_all_or_the_matches() {
    let backend = chain_backend();
    assert_eq!(filtered_counts(&backend, "all").unwrap(), (3, 2));
    assert_eq!(filtered_counts(&backend, "functions").unwrap(), (3, 2));
    assert_eq!(filtered_counts(&backend, "name:a").unwrap(), (1, 0));
    assert!(filtered_counts(&backend, "type:Gizmo").is_err());
}

#[test]
fn package_units_group_methods_with_their_class() {
    let class = Node::new(NodeType::Class, "Order")
        .with_qualified_name("shop.Order".to_string())
        .with_file_path("shop/order.rs".to_string())
        .with_lines(1, 10);
    let total = Node::new(NodeType::Function, "total")
        .with_qualified_name("shop.Order.total".to_string())
        .with_file_path("shop/order.rs".to_string())
        .with_lines(2, 4);
    let helper = Node::new(NodeType::Function, "helper")
        .with_qualified_name("shop.util.helper".to_string())
        .with_file_path("shop/util.rs".to_string())
        .with_lines(1, 2);
    let mut ids = HashMap::new();
    ids.insert(0u32, class.id);
    ids.insert(1u32, total.id);
    ids.insert(2u32, helper.id);
    let nodes = vec![class, total, helper];
    let units = compute_package_units(&nodes, &ids, &[0, 1, 2]);
    assert_eq!(units.len(), 2);
    assert_eq!(units[0].id, 0);
    assert_eq!(units[0].kind, "class");
    assert_eq!(units[0].label, "Order");
    assert_eq!(units[0].member_indices, vec![0, 1]);
    assert_eq!(units[0].loc_estimate, Some(13));
    assert_eq!(units[1].id, 1);
    assert_eq!(units[1].kind, "file");
    assert_eq!(units[1].label, "util.rs");
    assert_eq!(units[1].member_indices, vec![2]);
    assert_eq!(units[1].loc_estimate, Some(2));
}

#[test]
fn whitespace_test_agrees_with_the_standard_library() {
    for u in 0u32..0x3100 {
        if let Some(c) = char::from_u32(u) {
            assert_eq!(rgbuilder::text::char_is_whitespace(c), c.is_whitespace(), "U+{:04X}", u);
        }
    }
    for c in ['\u{FEFF}', '\u{180E}', '\u{200B}', '\u{10FFFF}', 'a'] {
        assert_eq!(rgbuilder::text::char_is_whitespace(c), c.is_whitespace());
    }
}

#[test]
fn two_clause_query_is_the_intersection_in_either_order() {
    let mut backend = MemoryBackend::new();
    backend.insert_node(Node::new(NodeType::Function, "run").with_return_type("Result<()>".to_string()));
    backend.insert_node(Node::new(NodeType::Function, "other").with_return_type("i32".to_string()));
    backend.insert_node(Node::new(NodeType::Class, "Svc"));
    backend.insert_node(Node::new(NodeType::Struct, "load").with_return_type("Result<Svc>".to_string()));
    let ids = |q: &str| -> Vec<u128> {
        let mut v: Vec<u128> = execute(&backend, q).unwrap().iter().map(|n| n.id).collect();
        v.sort();
        v
    };
    let p = ids("type:Function");
    let q = ids("return_type:Result");
    let both: Vec<u128> = p.iter().copied().filter(|x| q.contains(x)).collect();
    assert_eq!(both.len(), 1);
    assert_eq!(ids("type:Function|return_type:Result"), both);
    assert_eq!(ids("return_type:Result|type:Function"), both);
}

#[test]
fn fresh_node_ids_are_random_uuids() {
    for _ in 0..16 {
        let id = Node::new(NodeType::Function, "f").id;
        assert_eq!((id >> 76) & 0xF, 4);
        assert_eq!((id >> 62) & 0x3, 2);
    }
    assert_ne!(Node::new(NodeType::Function, "f").id, Node::new(NodeType::Function, "f").id);
}

#[test]
fn two_clause_query_with_spaces_or_an_empty_clause() {
    let mut backend = MemoryBackend::new();
    backend.insert_node(Node::new(NodeType::Function, "run").with_return_type("Result<()>".to_string()));
    backend.insert_node(Node::new(NodeType::Function, "other").with_return_type("i32".to_string()));
    backend.insert_node(Node::new(NodeType::Class, "Svc"));
    let ids = |q: &str| -> Vec<u128> {
        let mut v = execute_node_ids(&backend, q).unwrap();
        v.sort();
        v
    };
    let p = ids("  type:Function ");
    let q = ids(" return_type:Result");
    let both: Vec<u128> = p.iter().copied().filter(|x| q.contains(x)).collect();
    assert_eq!(ids("  type:Function | return_type:Result"), both);
    assert_eq!(ids(" return_type:Result|  type:Function "), both);
    // an empty clause selects everything alone, so it leaves the other as it is
    assert_eq!(ids(" |type:Function"), p);
    assert_eq!(ids("type:Function| "), p);
    assert_eq!(ids("|").len(), 3);
}

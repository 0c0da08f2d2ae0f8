use rgbuilder::graph::{EdgeType, NodeType};
use rgbuilder::graph_builder::{ConfigUsageKind, GraphBuilder};
use rgbuilder::symbols::{
    ComplexityMetrics, ConfigKey, Field, MetaValue, Relation, RelationType, SourceLocation, Symbol,
    SymbolType,
};

fn location(file: &str, start_line: usize, end_line: usize) -> SourceLocation {
    SourceLocation {
        file: file.to_string(),
        start_line,
        end_line,
        start_column: 0,
        end_column: 1,
    }
}

fn sample_symbol() -> Symbol {
    Symbol {
        name: "main".to_string(),
        symbol_type: SymbolType::Function,
        qualified_name: None,
        location: location("src/main.rs", 1, 3),
        signature: Some("fn main()".to_string()),
        return_type: None,
        fields: vec![],
        modifiers: vec![],
        documentation: None,
        metadata: vec![],
    }
}

fn function_symbol(file: &str, name: &str, qualified: &str) -> Symbol {
    Symbol {
        name: name.to_string(),
        symbol_type: SymbolType::Function,
        qualified_name: Some(qualified.to_string()),
        location: location(file, 1, 3),
        signature: None,
        return_type: None,
        fields: vec![],
        modifiers: vec![],
        documentation: None,
        metadata: vec![],
    }
}

fn text(s: &str) -> MetaValue {
    MetaValue::Text(s.to_string())
}

fn property<'a>(props: &'a [(String, String)], key: &str) -> Option<&'a str> {
    props.iter().rev().find(|(k, _)| k == key).map(|(_, v)| v.as_str())
}

#[test]
fn java_annotated_with_resolves_package_qualified_annotation() {
    let mut builder = GraphBuilder::new();
    let marker_file = builder.ensure_file_node("Marker.java");
    let foo_file = builder.ensure_file_node("Foo.java");

    let annotation = Symbol {
        name: "Marker".to_string(),
        symbol_type: SymbolType::Annotation,
        qualified_name: Some("demo.Marker".to_string()),
        location: location("Marker.java", 1, 1),
        signature: None,
        return_type: None,
        fields: vec![],
        modifiers: vec!["public".into()],
        documentation: None,
        metadata: vec![("language".to_string(), text("java"))],
    };
    let method = Symbol {
        name: "bar".to_string(),
        symbol_type: SymbolType::Function,
        qualified_name: Some("demo.Foo.bar".to_string()),
        location: location("Foo.java", 3, 4),
        signature: None,
        return_type: None,
        fields: vec![],
        modifiers: vec!["public".into()],
        documentation: None,
        metadata: vec![("language".to_string(), text("java"))],
    };
    builder.add_symbol(&annotation, marker_file);
    builder.add_symbol(&method, foo_file);
    builder
        .add_relation(&Relation {
            from: "demo.Foo.bar".to_string(),
            to: "Marker".to_string(),
            relation_type: RelationType::AnnotatedWith,
            location: location("Foo.java", 3, 3),
            metadata: vec![("language".to_string(), text("java"))],
            to_qualified_hint: None,
            to_type_hint: None,
        })
        .unwrap();

    assert!(
        builder
            .edges()
            .iter()
            .any(|e| e.edge_type == EdgeType::AnnotatedWith),
        "AnnotatedWith edge must resolve Marker via dotted QN suffix index"
    );
}

#[test]
fn test_add_symbol_creates_file_and_symbol_nodes() {
    let mut builder = GraphBuilder::new();
    let file_id = builder.ensure_file_node("src/main.rs");
    builder.add_symbol(&sample_symbol(), file_id);

    assert_eq!(builder.node_count(), 2);
    assert_eq!(builder.edge_count(), 2);
}

#[test]
fn test_add_symbol_materializes_fields() {
    let mut builder = GraphBuilder::new();
    let file_id = builder.ensure_file_node("OrderDTO.java");
    let mut symbol = sample_symbol();
    symbol.name = "OrderDTO".to_string();
    symbol.symbol_type = SymbolType::Class;
    symbol.location.file = "OrderDTO.java".to_string();
    symbol.fields = vec![Field {
        name: "status".to_string(),
        field_type: Some("String".to_string()),
        visibility: Some("private".to_string()),
    }];
    builder.add_symbol(&symbol, file_id);

    let field = builder
        .nodes()
        .iter()
        .find(|n| n.name == "status" && n.node_type == NodeType::Variable)
        .expect("field variable node");
    assert_eq!(property(&field.properties, "member_of"), Some("OrderDTO"));
    assert_eq!(property(&field.properties, "field_type"), Some("String"));
    let owner = builder
        .nodes()
        .iter()
        .find(|n| n.name == "OrderDTO")
        .unwrap();
    assert!(builder.edges().iter().any(|e| {
        e.from == owner.id && e.to == field.id && e.edge_type == EdgeType::Contains
    }));
}

#[test]
fn test_add_config_key() {
    let mut builder = GraphBuilder::new();
    let file_id = builder.ensure_file_node("config.yaml");
    let key = ConfigKey {
        key_path: "database.host".to_string(),
        value: "localhost".to_string(),
        value_type: "String".to_string(),
        location: SourceLocation {
            file: "config.yaml".to_string(),
            start_line: 1,
            end_line: 1,
            start_column: 0,
            end_column: 0,
        },
    };

    builder.add_config_key(&key, file_id);
    assert_eq!(builder.node_count(), 2);
}

#[test]
fn test_link_config_usage_env_var() {
    let mut builder = GraphBuilder::new();
    let file_id = builder.ensure_file_node("src/main.rs");
    builder.add_symbol(&sample_symbol(), file_id);

    builder.link_config_usage("src/main.rs", 1, "DB_HOST", ConfigUsageKind::EnvVar);

    assert!(builder.node_count() >= 3);
    assert!(builder
        .edges()
        .iter()
        .any(|e| e.edge_type == EdgeType::UsesConfig));
}

#[test]
fn qe_duplicate_qualified_name_must_not_collapse_index() {
    let mut builder = GraphBuilder::new();
    let a = builder.ensure_file_node("a.rs");
    let b = builder.ensure_file_node("b.rs");
    builder.add_symbol(&function_symbol("a.rs", "transform", "Helper.transform"), a);
    builder.add_symbol(&function_symbol("b.rs", "transform", "Helper.transform"), b);
    builder.build_resolution_indexes();

    let nodes_with_fqn = builder
        .nodes()
        .iter()
        .filter(|n| n.qualified_name.as_deref() == Some("Helper.transform"))
        .count();
    assert_eq!(nodes_with_fqn, 2, "both nodes must survive ingest");

    let suffix_n = builder.suffix_candidates("Helper.transform").len();
    assert!(
        suffix_n >= 2,
        "suffix index should retain both UUIDs (got {suffix_n})"
    );

    let qn_n = builder.qualified_candidates("Helper.transform").len();
    assert!(
        qn_n >= 2,
        "qualified index should retain both UUIDs (got {qn_n})"
    );

    let resolved =
        builder.resolve_symbol("transform", "caller.rs", Some("Helper.transform"), None);
    assert!(
        resolved.is_none(),
        "duplicate FQN must not resolve to a single UUID via qualified hint (got {resolved:?})"
    );
}

#[test]
fn qe_suffix_multimatch_must_not_pick_first_silently() {
    let mut builder = GraphBuilder::new();
    let a = builder.ensure_file_node("pkg/a.rs");
    let b = builder.ensure_file_node("pkg/b.rs");
    builder.add_symbol(&function_symbol("pkg/a.rs", "twin", "alpha::twin"), a);
    builder.add_symbol(&function_symbol("pkg/b.rs", "twin", "beta::twin"), b);
    builder.build_resolution_indexes();

    let candidates = builder.suffix_candidates("twin").len();
    assert!(
        candidates >= 2,
        "expected at least 2 suffix candidates for twin, got {candidates}"
    );

    let resolved = builder.resolve_symbol("twin", "other.rs", None, None);
    assert!(
        resolved.is_none(),
        "fuzzy suffix multi-match must not return Some(uuid) (got {resolved:?})"
    );
}

#[test]
fn adding_a_symbol_twice_returns_the_same_node() {
    let mut builder = GraphBuilder::new();
    let file_id = builder.ensure_file_node("src/main.rs");
    let first = builder.add_symbol(&sample_symbol(), file_id);
    let second = builder.add_symbol(&sample_symbol(), file_id);
    assert_eq!(first, second);
    assert_eq!(builder.node_count(), 2);
    assert_eq!(builder.edge_count(), 2);
    assert_eq!(builder.ensure_file_node("src/main.rs"), file_id);
    assert_eq!(builder.node_count(), 2);
}

#[test]
fn symbol_node_carries_modifiers_documentation_and_metadata() {
    let mut builder = GraphBuilder::new();
    let file_id = builder.ensure_file_node("svc.rs");
    let mut symbol = function_symbol("svc.rs", "run", "svc::run");
    symbol.modifiers = vec!["pub".to_string(), "async".to_string()];
    symbol.documentation = Some("Runs it.".to_string());
    symbol.metadata = vec![
        ("language".to_string(), text("rust")),
        ("exported".to_string(), MetaValue::Flag(true)),
        ("arity".to_string(), MetaValue::Number("2".to_string())),
        ("extra".to_string(), MetaValue::Other),
    ];
    let id = builder.add_symbol_with_body(&symbol, file_id, Some("abc123".to_string()));
    let node = builder.nodes().iter().find(|n| n.id == id).unwrap();
    assert_eq!(node.node_type, NodeType::Function);
    assert_eq!(node.code_hash.as_deref(), Some("abc123"));
    let expected: Vec<(String, String)> = vec![
        ("modifiers".to_string(), "pub async".to_string()),
        ("documentation".to_string(), "Runs it.".to_string()),
        ("language".to_string(), "rust".to_string()),
        ("exported".to_string(), "true".to_string()),
        ("arity".to_string(), "2".to_string()),
    ];
    assert_eq!(node.properties, expected);
}

#[test]
fn call_edges_record_their_call_site_line() {
    let mut builder = GraphBuilder::new();
    let file_id = builder.ensure_file_node("lib.rs");
    builder.add_symbol(&function_symbol("lib.rs", "caller", "caller"), file_id);
    builder.add_symbol(&function_symbol("lib.rs", "callee", "callee"), file_id);
    builder
        .add_relation(&Relation {
            from: "caller".to_string(),
            to: "callee".to_string(),
            relation_type: RelationType::Calls,
            location: location("lib.rs", 7, 7),
            metadata: vec![],
            to_qualified_hint: None,
            to_type_hint: None,
        })
        .unwrap();
    let call = builder
        .edges()
        .iter()
        .find(|e| e.edge_type == EdgeType::Calls)
        .expect("call edge");
    assert_eq!(call.call_site_line, Some(7));

    // An endpoint that resolves to nothing adds no edge.
    let before = builder.edge_count();
    builder
        .add_relation(&Relation {
            from: "caller".to_string(),
            to: "missing".to_string(),
            relation_type: RelationType::Uses,
            location: location("lib.rs", 8, 8),
            metadata: vec![],
            to_qualified_hint: None,
            to_type_hint: None,
        })
        .unwrap();
    assert_eq!(builder.edge_count(), before);
}

#[test]
fn go_selector_call_resolves_through_field_type() {
    let mut builder = GraphBuilder::new();
    let file_id = builder.ensure_file_node("svc.go");
    let mut server = function_symbol("svc.go", "Server", "Server");
    server.symbol_type = SymbolType::Struct;
    server.fields = vec![Field {
        name: "store".to_string(),
        field_type: Some("*db.Store".to_string()),
        visibility: None,
    }];
    builder.add_symbol(&server, file_id);
    let save = builder.add_symbol(&function_symbol("db.go", "Save", "Store.Save"), file_id);
    builder.add_symbol(&function_symbol("other.go", "Save", "Cache.Save"), file_id);
    let handle = builder.add_symbol(&function_symbol("svc.go", "Handle", "Server.Handle"), file_id);

    // The field's simple type name is recorded under Owner.field.
    let field = builder
        .nodes()
        .iter()
        .find(|n| n.name == "store")
        .unwrap();
    assert_eq!(property(&field.properties, "field_type"), Some("*db.Store"));

    builder
        .add_relation(&Relation {
            from: "Server.Handle".to_string(),
            to: "s.store.Save".to_string(),
            relation_type: RelationType::Calls,
            location: location("svc.go", 12, 12),
            metadata: vec![
                ("language".to_string(), text("go")),
                ("go_recv_type".to_string(), text("Server")),
                ("go_field".to_string(), text("store")),
            ],
            to_qualified_hint: None,
            to_type_hint: None,
        })
        .unwrap();
    let call = builder
        .edges()
        .iter()
        .find(|e| e.edge_type == EdgeType::Calls)
        .expect("resolved go call");
    assert_eq!(call.from, handle);
    assert_eq!(call.to, save);
}

#[test]
fn link_config_key_usage_creates_key_node_once() {
    let mut builder = GraphBuilder::new();
    let file_id = builder.ensure_file_node("app.py");
    let f = builder.add_symbol(&function_symbol("app.py", "load", "app.load"), file_id);
    builder.link_config_usage("app.py", 2, "db.port", ConfigUsageKind::ConfigKey);
    builder.link_config_usage("app.py", 9, "db.port", ConfigUsageKind::ConfigKey);
    let keys: Vec<_> = builder
        .nodes()
        .iter()
        .filter(|n| n.node_type == NodeType::ConfigKey)
        .collect();
    assert_eq!(keys.len(), 1);
    let uses: Vec<_> = builder
        .edges()
        .iter()
        .filter(|e| e.edge_type == EdgeType::UsesConfig)
        .collect();
    assert_eq!(uses.len(), 2);
    // Line 2 falls inside the function; line 9 falls back to the file node.
    assert_eq!(uses[0].from, f);
    assert_eq!(uses[1].from, file_id);

    // A file the builder has never seen links nothing.
    let before = builder.edge_count();
    builder.link_config_usage("unknown.py", 1, "X", ConfigUsageKind::EnvVar);
    assert_eq!(builder.edge_count(), before);
}

#[test]
fn complexity_is_attached_as_properties() {
    let mut builder = GraphBuilder::new();
    let file_id = builder.ensure_file_node("src/main.rs");
    let id = builder.add_symbol(&sample_symbol(), file_id);
    builder.add_complexity(
        &sample_symbol(),
        &ComplexityMetrics {
            cyclomatic: 4,
            cognitive: 7,
            loc: 30,
            nesting_depth: 2,
        },
    );
    let node = builder.nodes().iter().find(|n| n.id == id).unwrap();
    assert_eq!(property(&node.properties, "cyclomatic"), Some("4"));
    assert_eq!(property(&node.properties, "cognitive"), Some("7"));
    assert_eq!(property(&node.properties, "loc"), Some("30"));
    assert_eq!(property(&node.properties, "nesting_depth"), Some("2"));
}

#[test]
fn recorded_symbol_keeps_its_node_after_other_symbols() {
    let mut builder = GraphBuilder::new();
    let file_id = builder.ensure_file_node("lib.rs");
    let first = builder.add_symbol(&function_symbol("lib.rs", "alpha", "m::alpha"), file_id);
    builder.add_symbol(&function_symbol("lib.rs", "beta", "m::beta"), file_id);
    builder.add_symbol(&function_symbol("other.rs", "alpha", "m::alpha"), file_id);
    let nodes = builder.node_count();
    let edges = builder.edge_count();
    let again = builder.add_symbol(&function_symbol("lib.rs", "alpha2", "m::alpha"), file_id);
    assert_eq!(again, first);
    assert_eq!(builder.node_count(), nodes);
    assert_eq!(builder.edge_count(), edges);
}

#[test]
fn recorded_symbol_keeps_its_node_after_other_operations() {
    let mut builder = GraphBuilder::new();
    let file_id = builder.ensure_file_node("lib.rs");
    let first = builder.add_symbol_with_body(&function_symbol("lib.rs", "alpha", "m::alpha"), file_id, Some("h1".to_string()));
    builder.ensure_file_node("other.rs");
    builder.link_config_usage("lib.rs", 2, "API_KEY", ConfigUsageKind::EnvVar);
    builder.build_resolution_indexes();
    builder.add_symbol(&function_symbol("lib.rs", "beta", "m::beta"), file_id);
    let nodes = builder.node_count();
    let edges = builder.edge_count();
    let again = builder.add_symbol_with_body(&function_symbol("lib.rs", "alpha", "m::alpha"), file_id, Some("h2".to_string()));
    assert_eq!(again, first);
    assert_eq!(builder.node_count(), nodes);
    assert_eq!(builder.edge_count(), edges);
}

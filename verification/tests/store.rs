use codegraph::graph::CodeGraph;
use codegraph::node::{CodeNode, NodeType};
use codegraph::relationship::{Relationship, RelationshipType};

fn node(id: &str, kind: NodeType, name: &str, file: &str, range: (usize, usize)) -> CodeNode {
    CodeNode::new(
        id.to_string(),
        kind,
        name.to_string(),
        file.to_string(),
        range,
        String::new(),
    )
}

#[test]
fn empty_store_has_no_nodes_or_edges() {
    let g = CodeGraph::new();
    assert_eq!(g.node_count(), 0);
    assert_eq!(g.relationship_count(), 0);
    assert!(g.get_node("missing").is_none());
    assert!(g.find_nodes_by_name("anything").is_empty());
    assert!(g.find_nodes_in_file("a.rs").is_empty());
    assert!(g.find_nodes_by_type(&NodeType::Function).is_empty());
}

#[test]
fn add_node_updates_all_queries() {
    let mut g = CodeGraph::new();
    g.add_node(node("n1", NodeType::Function, "alpha", "a.rs", (1, 3)));
    g.add_node(node("n2", NodeType::Class, "Beta", "a.rs", (5, 9)));
    g.add_node(node("n3", NodeType::Function, "alpha", "b.rs", (1, 2)));

    assert_eq!(g.node_count(), 3);
    assert_eq!(g.get_node("n2").unwrap().name, "Beta");

    let alphas = g.find_nodes_by_name("alpha");
    assert_eq!(alphas.len(), 2);
    assert!(alphas.iter().all(|n| n.name == "alpha"));

    let in_a = g.find_nodes_in_file("a.rs");
    assert_eq!(in_a.len(), 2);

    let functions = g.find_nodes_by_type(&NodeType::Function);
    assert_eq!(functions.len(), 2);
    let classes = g.find_nodes_by_type(&NodeType::Class);
    assert_eq!(classes.len(), 1);
    assert_eq!(classes[0].id, "n2");
}

#[test]
fn add_relationship_counts_directed_edges() {
    let mut g = CodeGraph::new();
    g.add_node(node("n1", NodeType::Function, "alpha", "a.rs", (1, 3)));
    g.add_node(node("n2", NodeType::Function, "beta", "a.rs", (5, 8)));
    g.add_relationship(Relationship::new(
        RelationshipType::Calls,
        "n1".to_string(),
        "n2".to_string(),
    ));
    g.add_relationship(Relationship::new(
        RelationshipType::Calls,
        "n2".to_string(),
        "n1".to_string(),
    ));
    // Directed edges are counted one each, not divided into pairs.
    assert_eq!(g.relationship_count(), 2);
}

#[test]
fn find_callers_and_called_resolve_nodes() {
    let mut g = CodeGraph::new();
    g.add_node(node("n1", NodeType::Function, "main", "a.rs", (1, 5)));
    g.add_node(node("n2", NodeType::Function, "helper", "a.rs", (7, 9)));
    g.add_relationship(Relationship::new(
        RelationshipType::Calls,
        "n1".to_string(),
        "n2".to_string(),
    ));
    // An edge of another kind does not show up in call queries.
    g.add_relationship(Relationship::new(
        RelationshipType::Imports,
        "n1".to_string(),
        "n2".to_string(),
    ));

    let callers = g.find_callers("n2");
    assert_eq!(callers.len(), 1);
    assert_eq!(callers[0].id, "n1");

    let called = g.find_called_functions("n1");
    assert_eq!(called.len(), 1);
    assert_eq!(called[0].id, "n2");

    assert!(g.find_callers("n1").is_empty());
}

#[test]
fn edges_to_missing_nodes_are_dropped_by_queries() {
    let mut g = CodeGraph::new();
    g.add_node(node("n1", NodeType::Function, "main", "a.rs", (1, 5)));
    g.add_relationship(Relationship::new(
        RelationshipType::Calls,
        "n1".to_string(),
        "ghostly".to_string(),
    ));
    // The edge is stored but its target never resolves.
    assert_eq!(g.relationship_count(), 1);
    assert!(g.find_called_functions("n1").is_empty());
}

#[test]
fn find_related_depth_zero_returns_start_only() {
    let mut g = CodeGraph::new();
    g.add_node(node("n1", NodeType::Function, "main", "a.rs", (1, 5)));
    g.add_node(node("n2", NodeType::Function, "helper", "a.rs", (7, 9)));
    g.add_relationship(Relationship::new(
        RelationshipType::Calls,
        "n1".to_string(),
        "n2".to_string(),
    ));

    let r = g.find_related_nodes("n1", 0);
    assert_eq!(r.len(), 1);
    assert_eq!(r[0].id, "n1");

    // A missing start yields nothing at all.
    assert!(g.find_related_nodes("nope", 0).is_empty());
    assert!(g.find_related_nodes("nope", 3).is_empty());
}

#[test]
fn find_related_grows_with_depth() {
    let mut g = CodeGraph::new();
    g.add_node(node("n1", NodeType::Function, "one", "a.rs", (1, 2)));
    g.add_node(node("n2", NodeType::Function, "two", "a.rs", (3, 4)));
    g.add_node(node("n3", NodeType::Function, "three", "a.rs", (5, 6)));
    g.add_node(node("n4", NodeType::Function, "four", "a.rs", (7, 8)));
    g.add_relationship(Relationship::new(
        RelationshipType::Calls,
        "n1".to_string(),
        "n2".to_string(),
    ));
    g.add_relationship(Relationship::new(
        RelationshipType::Calls,
        "n2".to_string(),
        "n3".to_string(),
    ));
    // n4 points at n1: reachable against the arrow too.
    g.add_relationship(Relationship::new(
        RelationshipType::References,
        "n4".to_string(),
        "n1".to_string(),
    ));

    let ids = |depth: usize| {
        let mut v: Vec<String> = g
            .find_related_nodes("n1", depth)
            .iter()
            .map(|n| n.id.clone())
            .collect();
        v.sort();
        v
    };
    assert_eq!(ids(0), vec!["n1".to_string()]);
    assert_eq!(ids(1), vec!["n1".to_string(), "n2".to_string(), "n4".to_string()]);
    assert_eq!(
        ids(2),
        vec!["n1".to_string(), "n2".to_string(), "n3".to_string(), "n4".to_string()]
    );
    // Each shallower set is contained in the deeper one.
    for d in 0..2 {
        let small = ids(d);
        let big = ids(d + 1);
        assert!(small.iter().all(|x| big.contains(x)));
    }
}

#[test]
fn duplicate_id_overwrites_primary_entry() {
    let mut g = CodeGraph::new();
    g.add_node(node("n1", NodeType::Function, "first", "a.rs", (1, 2)));
    g.add_node(node("n1", NodeType::Function, "second", "a.rs", (3, 4)));
    assert_eq!(g.node_count(), 1);
    assert_eq!(g.get_node("n1").unwrap().name, "second");
}

#[test]
fn metadata_insert_get_and_replace() {
    let mut n = node("n1", NodeType::Method, "draw", "a.rs", (1, 2));
    assert!(n.metadata.get(&"parent_class".to_string()).is_none());
    n.add_metadata("parent_class".to_string(), "Widget".to_string());
    assert_eq!(
        n.metadata.get(&"parent_class".to_string()).unwrap(),
        "Widget"
    );
    n.add_metadata("parent_class".to_string(), "Gadget".to_string());
    assert_eq!(
        n.metadata.get(&"parent_class".to_string()).unwrap(),
        "Gadget"
    );
    assert_eq!(n.metadata.len(), 1);
}

#[test]
fn with_summary_and_with_metadata_build_nodes() {
    let n = node("n1", NodeType::Function, "run", "a.rs", (1, 2))
        .with_summary("does things".to_string())
        .with_metadata("lang".to_string(), "rust".to_string());
    assert_eq!(n.summary.as_deref(), Some("does things"));
    assert_eq!(n.metadata.get(&"lang".to_string()).unwrap(), "rust");
}

#[test]
fn relationship_metadata_builds_up() {
    let r = Relationship::new(
        RelationshipType::Contains,
        "a".to_string(),
        "b".to_string(),
    )
    .with_metadata("weight".to_string(), "2".to_string());
    assert_eq!(r.metadata.get(&"weight".to_string()).unwrap(), "2");
    assert_eq!(r.from_id, "a");
    assert_eq!(r.to_id, "b");
}

#[test]
fn create_node_generates_identifier() {
    let n = codegraph::node::create_node(
        NodeType::Function,
        "go".to_string(),
        "x.rs",
        (1, 4),
        "fn go() {}".to_string(),
    );
    assert_eq!(n.id.len(), 36);
    assert_eq!(n.name, "go");
    assert_eq!(n.file_path, "x.rs");
    assert_eq!(n.line_range, (1, 4));
    let m = codegraph::node::create_node(
        NodeType::Function,
        "go".to_string(),
        "x.rs",
        (1, 4),
        "fn go() {}".to_string(),
    );
    // Random identifiers: two creations almost surely differ.
    assert_ne!(n.id, m.id);
}

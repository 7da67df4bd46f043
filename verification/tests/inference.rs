use codegraph::analyzer::{
    enhance_method_names, generate_summaries, identify_relationships, CallList, FileNames,
};
use codegraph::graph::CodeGraph;
use codegraph::node::{CodeNode, NodeType};
use codegraph::relationship::RelationshipType;

fn node(id: &str, kind: NodeType, name: &str, file: &str, range: (usize, usize)) -> CodeNode {
    CodeNode::new(
        id.to_string(),
        kind,
        name.to_string(),
        file.to_string(),
        range,
        String::new(),
    )
}

fn calls(caller: &str, names: &[&str]) -> CallList {
    CallList {
        caller_id: caller.to_string(),
        called_names: names.iter().map(|s| s.to_string()).collect(),
    }
}

fn file(path: &str, c: Vec<CallList>, imports: &[&str]) -> FileNames {
    FileNames {
        file_path: path.to_string(),
        calls: c,
        imported_modules: imports.iter().map(|s| s.to_string()).collect(),
    }
}

#[test]
fn end_to_end_call_edge_between_two_files() {
    // File `a` defines `helper` (lines 1-3); file `b` defines `main`
    // (lines 1-5) whose body names `helper`.
    let mut g = CodeGraph::new();
    g.add_node(node("h", NodeType::Function, "helper", "a", (1, 3)));
    g.add_node(node("m", NodeType::Function, "main", "b", (1, 5)));
    let exts = vec![
        file("a", vec![calls("h", &[])], &[]),
        file("b", vec![calls("m", &["helper"])], &[]),
    ];
    identify_relationships(&mut g, &exts);

    assert_eq!(g.relationship_count(), 1);
    let callers = g.find_callers("h");
    assert_eq!(callers.len(), 1);
    assert_eq!(callers[0].id, "m");
    assert_eq!(callers[0].name, "main");
}

#[test]
fn no_self_call_edges() {
    let mut g = CodeGraph::new();
    g.add_node(node("r", NodeType::Function, "recurse", "a", (1, 4)));
    let exts = vec![file("a", vec![calls("r", &["recurse"])], &[])];
    identify_relationships(&mut g, &exts);
    assert_eq!(g.relationship_count(), 0);
    assert!(g.find_callers("r").is_empty());
}

#[test]
fn short_names_are_ignored_in_call_resolution() {
    let mut g = CodeGraph::new();
    g.add_node(node("a1", NodeType::Function, "go", "a", (1, 2)));
    g.add_node(node("b1", NodeType::Function, "main", "b", (1, 5)));
    let exts = vec![file("b", vec![calls("b1", &["go"])], &[])];
    identify_relationships(&mut g, &exts);
    // "go" is under three characters: no edge.
    assert_eq!(g.relationship_count(), 0);
}

#[test]
fn call_fans_out_to_every_same_named_function() {
    let mut g = CodeGraph::new();
    g.add_node(node("m", NodeType::Function, "main", "a", (1, 9)));
    g.add_node(node("p1", NodeType::Function, "parse", "b", (1, 3)));
    g.add_node(node("p2", NodeType::Method, "parse", "c", (4, 8)));
    g.add_node(node("cl", NodeType::Class, "parse", "d", (1, 9)));
    let exts = vec![file("a", vec![calls("m", &["parse"])], &[])];
    identify_relationships(&mut g, &exts);
    // Both the function and the method are targets; the class is not.
    let called = g.find_called_functions("m");
    let mut ids: Vec<&str> = called.iter().map(|n| n.id.as_str()).collect();
    ids.sort();
    assert_eq!(ids, vec!["p1", "p2"]);
}

#[test]
fn duplicate_candidates_store_one_edge() {
    // The same called name listed twice yields one stored edge.
    let mut g = CodeGraph::new();
    g.add_node(node("m", NodeType::Function, "main", "a", (1, 9)));
    g.add_node(node("h", NodeType::Function, "helper", "b", (1, 3)));
    let exts = vec![file("a", vec![calls("m", &["helper", "helper"])], &[])];
    identify_relationships(&mut g, &exts);
    assert_eq!(g.relationship_count(), 1);
    assert_eq!(g.find_callers("h").len(), 1);
}

#[test]
fn import_edges_go_to_first_match_from_all_file_nodes() {
    let mut g = CodeGraph::new();
    g.add_node(node("f1", NodeType::Function, "alpha", "app.py", (1, 3)));
    g.add_node(node("f2", NodeType::Function, "omega", "app.py", (5, 7)));
    g.add_node(node("mod", NodeType::Module, "utils", "utils.py", (1, 20)));
    let exts = vec![file("app.py", vec![], &["utils"])];
    identify_relationships(&mut g, &exts);

    assert_eq!(g.relationship_count(), 2);
    for src in ["f1", "f2"] {
        let n = g.get_node(src).unwrap();
        assert_eq!(n.file_path, "app.py");
    }
    // Both nodes of the importing file point at the module.
    let outgoing = g.outgoing_entries();
    let mut froms: Vec<String> = Vec::new();
    for (id, edges) in outgoing.iter() {
        for e in edges.iter() {
            assert_eq!(e.relationship_type, RelationshipType::Imports);
            assert_eq!(e.to_id, "mod");
            froms.push(id.clone());
        }
    }
    froms.sort();
    assert_eq!(froms, vec!["f1".to_string(), "f2".to_string()]);
}

#[test]
fn import_matches_by_file_stem_and_skips_same_file() {
    let mut g = CodeGraph::new();
    g.add_node(node("f1", NodeType::Function, "run", "main.js", (1, 3)));
    // A same-file module never matches its own file's imports.
    g.add_node(node("selfmod", NodeType::Module, "helpers", "main.js", (5, 9)));
    // This class matches by the stem of its file, not by its name.
    g.add_node(node("c1", NodeType::Class, "Thing", "lib/helpers.js", (1, 20)));
    let exts = vec![file("main.js", vec![], &["helpers"])];
    identify_relationships(&mut g, &exts);

    let incoming = g.incoming_entries();
    let mut hits = 0;
    for (id, edges) in incoming.iter() {
        for e in edges.iter() {
            assert_eq!(e.relationship_type, RelationshipType::Imports);
            assert_eq!(id, "c1");
            assert_eq!(e.to_id, "c1");
            hits += 1;
        }
    }
    // One edge per node of the importing file (run and the local module).
    assert_eq!(hits, 2);
}

#[test]
fn import_resolution_stops_at_first_match() {
    let mut g = CodeGraph::new();
    g.add_node(node("f1", NodeType::Function, "run", "app.py", (1, 3)));
    // Two candidates match the import by name; insertion order decides.
    g.add_node(node("m1", NodeType::Module, "utils", "utils.py", (1, 9)));
    g.add_node(node("m2", NodeType::Class, "utils", "other.py", (1, 9)));
    let exts = vec![file("app.py", vec![], &["utils"])];
    identify_relationships(&mut g, &exts);

    assert_eq!(g.relationship_count(), 1);
    let incoming = g.incoming_entries();
    for (id, edges) in incoming.iter() {
        for e in edges.iter() {
            assert_eq!(id, "m1");
            assert_eq!(e.to_id, "m1");
            assert_eq!(e.from_id, "f1");
        }
    }
}

#[test]
fn related_nodes_stay_put_beyond_the_diameter() {
    let mut g = CodeGraph::new();
    g.add_node(node("a", NodeType::Function, "one", "f", (1, 1)));
    g.add_node(node("b", NodeType::Function, "two", "f", (2, 2)));
    g.add_relationship(codegraph::relationship::Relationship::new(
        RelationshipType::Calls,
        "a".to_string(),
        "b".to_string(),
    ));
    let deep = g.find_related_nodes("a", 50);
    assert_eq!(deep.len(), 2);
}

#[test]
fn nested_class_produces_one_containment_edge() {
    // Outer spans lines 1-20, Inner spans 5-10: Contains(Outer, Inner)
    // and nothing the other way.
    let mut g = CodeGraph::new();
    g.add_node(node("o", NodeType::Class, "Outer", "a.py", (1, 20)));
    g.add_node(node("i", NodeType::Class, "Inner", "a.py", (5, 10)));
    let exts = vec![file("a.py", vec![], &[])];
    identify_relationships(&mut g, &exts);

    assert_eq!(g.relationship_count(), 1);
    let outgoing = g.outgoing_entries();
    for (id, edges) in outgoing.iter() {
        for e in edges.iter() {
            assert_eq!(id, "o");
            assert_eq!(e.relationship_type, RelationshipType::Contains);
            assert_eq!(e.from_id, "o");
            assert_eq!(e.to_id, "i");
        }
    }
}

#[test]
fn containment_needs_strict_nesting() {
    let mut g = CodeGraph::new();
    // Adjacent ranges: no containment.
    g.add_node(node("a1", NodeType::Class, "First", "x.py", (1, 10)));
    g.add_node(node("a2", NodeType::Class, "Second", "x.py", (11, 20)));
    // Overlapping but not nested: no containment.
    g.add_node(node("b1", NodeType::Class, "Left", "y.py", (1, 12)));
    g.add_node(node("b2", NodeType::Class, "Right", "y.py", (8, 20)));
    // Boundary-touching: excluded by strict inequality on both ends.
    g.add_node(node("c1", NodeType::Class, "Outer", "z.py", (1, 20)));
    g.add_node(node("c2", NodeType::Class, "Edge", "z.py", (1, 10)));
    let exts = vec![
        file("x.py", vec![], &[]),
        file("y.py", vec![], &[]),
        file("z.py", vec![], &[]),
    ];
    identify_relationships(&mut g, &exts);
    assert_eq!(g.relationship_count(), 0);
}

#[test]
fn method_with_parent_class_gets_contained_and_qualified() {
    let mut g = CodeGraph::new();
    let mut m = node("m", NodeType::Method, "originalName", "w.rs", (3, 6));
    m.add_metadata("parent_class".to_string(), "Widget".to_string());
    g.add_node(m);
    g.add_node(node("w", NodeType::Class, "Widget", "w.rs", (1, 20)));
    let exts = vec![file("w.rs", vec![], &[])];
    identify_relationships(&mut g, &exts);

    // Contains(Widget, method) — plus Contains(Widget, method)? The
    // hierarchical phase adds nothing: a method is not a class.
    let callers = g.incoming_entries();
    let mut contained = 0;
    for (id, edges) in callers.iter() {
        for e in edges.iter() {
            assert_eq!(e.relationship_type, RelationshipType::Contains);
            assert_eq!(id, "m");
            assert_eq!(e.from_id, "w");
            contained += 1;
        }
    }
    assert_eq!(contained, 1);

    enhance_method_names(&mut g);
    assert_eq!(g.get_node("m").unwrap().name, "Widget::originalName");
}

#[test]
fn qualification_runs_idempotently() {
    let mut g = CodeGraph::new();
    let mut m = node("m", NodeType::Method, "draw", "w.rs", (3, 6));
    m.add_metadata("parent_class".to_string(), "Widget".to_string());
    g.add_node(m);
    enhance_method_names(&mut g);
    assert_eq!(g.get_node("m").unwrap().name, "Widget::draw");
    enhance_method_names(&mut g);
    assert_eq!(g.get_node("m").unwrap().name, "Widget::draw");
}

#[test]
fn summaries_follow_the_kind_templates() {
    let mut g = CodeGraph::new();
    g.add_node(node("f", NodeType::Function, "run", "a.rs", (1, 2)));
    g.add_node(node("m", NodeType::Method, "draw", "a.rs", (3, 4)));
    g.add_node(node("c", NodeType::Class, "Widget", "a.rs", (5, 9)));
    g.add_node(node("i", NodeType::Interface, "Paint", "a.rs", (10, 12)));
    g.add_node(node("o", NodeType::Module, "shapes", "a.rs", (13, 14)));
    g.add_node(node("t", NodeType::TypeDefinition, "Pixel", "a.rs", (15, 15)));
    g.add_node(node("u", NodeType::Unknown, "misc", "a.rs", (16, 16)));
    generate_summaries(&mut g);

    let s = |id: &str| g.get_node(id).unwrap().summary.clone().unwrap();
    assert_eq!(s("f"), "Function that handles run");
    assert_eq!(s("m"), "Method that implements draw");
    assert_eq!(s("c"), "Class that represents Widget");
    assert_eq!(s("i"), "Interface for Paint");
    assert_eq!(s("o"), "Module containing shapes");
    assert_eq!(s("t"), "Type definition for Pixel");
    assert_eq!(s("u"), "Code unit: misc");
}

#[test]
fn process_codebase_builds_and_links() {
    let batches = vec![
        vec![node("h", NodeType::Function, "helper", "a", (1, 3))],
        vec![node("m", NodeType::Function, "main", "b", (1, 5))],
    ];
    let exts = vec![
        file("a", vec![calls("h", &[])], &[]),
        file("b", vec![calls("m", &["helper"])], &[]),
    ];
    let g = codegraph::process_codebase(&batches, &exts);
    assert_eq!(g.node_count(), 2);
    assert_eq!(g.relationship_count(), 1);
    assert_eq!(g.find_callers("h")[0].id, "m");
    // No summaries yet at this stage.
    assert!(g.get_node("m").unwrap().summary.is_none());

    let g2 = codegraph::analyze_codebase(&batches, &exts);
    assert_eq!(
        g2.get_node("m").unwrap().summary.as_deref(),
        Some("Function that handles main")
    );
}

#[test]
fn version_reads_back() {
    assert_eq!(codegraph::version(), "0.1.0");
}

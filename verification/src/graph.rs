//! The entity store: all nodes and edges of the code graph, with secondary
//! indices by kind, file and name, and adjacency in both directions.

use vstd::prelude::*;

use crate::node::{assoc_first, lemma_assoc_first, CodeNode, NodeType, NodeV};
use crate::relationship::{RelV, Relationship, RelationshipType};

verus! {

/// The mathematical reading of a store.  Every component keeps insertion
/// order: the key of an index or adjacency entry appears at the position
/// where it was first created.
pub ghost struct GraphV {
    pub nodes: Seq<NodeV>,
    pub outgoing: Seq<(Seq<char>, Seq<RelV>)>,
    pub incoming: Seq<(Seq<char>, Seq<RelV>)>,
    pub by_kind: Seq<(NodeType, Seq<Seq<char>>)>,
    pub by_file: Seq<(Seq<char>, Seq<Seq<char>>)>,
    pub by_name: Seq<(Seq<char>, Seq<Seq<char>>)>,
}

/// First position of the node with identifier `id`, if any.
pub open spec fn node_first(nodes: Seq<NodeV>, id: Seq<char>) -> Option<int>
    decreases nodes.len(),
{
    if nodes.len() == 0 {
        None
    } else if nodes[0].id == id {
        Some(0)
    } else {
        match node_first(nodes.drop_first(), id) {
            Some(i) => Some(i + 1),
            None => None,
        }
    }
}

/// The stored node with identifier `id`, if any.
pub open spec fn node_get(nodes: Seq<NodeV>, id: Seq<char>) -> Option<NodeV> {
    match node_first(nodes, id) {
        Some(i) => Some(nodes[i]),
        None => None,
    }
}

/// `node_first` finds the first node with the identifier and nothing else.
pub proof fn lemma_node_first(nodes: Seq<NodeV>, id: Seq<char>)
    ensures
        match node_first(nodes, id) {
            Some(i) => 0 <= i < nodes.len() && nodes[i].id == id && (forall|j: int|
                0 <= j < i ==> nodes[j].id != id),
            None => forall|j: int| 0 <= j < nodes.len() ==> nodes[j].id != id,
        },
    decreases nodes.len(),
{
    if nodes.len() != 0 && nodes[0].id != id {
        lemma_node_first(nodes.drop_first(), id);
        assert forall|j: int| 1 <= j < nodes.len() implies nodes[j] == nodes.drop_first()[j - 1] by {}
    }
}

/// Adds `id` to the bucket under `k`: appended to an existing bucket unless
/// already present, or placed in a fresh bucket at the end.
pub open spec fn bucket_add<K>(m: Seq<(K, Seq<Seq<char>>)>, k: K, id: Seq<char>) -> Seq<
    (K, Seq<Seq<char>>),
> {
    match assoc_first(m, k) {
        Some(i) => if m[i].1.contains(id) {
            m
        } else {
            m.update(i, (k, m[i].1.push(id)))
        },
        None => m.push((k, seq![id])),
    }
}

/// Makes sure an adjacency entry exists under `k`, creating an empty one at
/// the end if none does.
pub open spec fn adj_ensure(m: Seq<(Seq<char>, Seq<RelV>)>, k: Seq<char>) -> Seq<
    (Seq<char>, Seq<RelV>),
> {
    match assoc_first(m, k) {
        Some(_) => m,
        None => m.push((k, Seq::<RelV>::empty())),
    }
}

/// Appends an edge to the adjacency entry under `k`, creating the entry if
/// none exists.
pub open spec fn adj_append(m: Seq<(Seq<char>, Seq<RelV>)>, k: Seq<char>, e: RelV) -> Seq<
    (Seq<char>, Seq<RelV>),
> {
    match assoc_first(m, k) {
        Some(i) => m.update(i, (m[i].0, m[i].1.push(e))),
        None => m.push((k, seq![e])),
    }
}

/// What `add_node` does to the store: the node is placed in the primary
/// sequence (overwriting an earlier node with the same identifier), its
/// identifier joins all three indices, and both adjacency maps get an entry.
pub open spec fn add_node_v(g: GraphV, n: NodeV) -> GraphV {
    GraphV {
        nodes: match node_first(g.nodes, n.id) {
            Some(i) => g.nodes.update(i, n),
            None => g.nodes.push(n),
        },
        outgoing: adj_ensure(g.outgoing, n.id),
        incoming: adj_ensure(g.incoming, n.id),
        by_kind: bucket_add(g.by_kind, n.node_type, n.id),
        by_file: bucket_add(g.by_file, n.file_path, n.id),
        by_name: bucket_add(g.by_name, n.name, n.id),
    }
}

/// What `add_relationship` does to the store: the edge is appended to the
/// source's outgoing entry and the target's incoming entry, as one logical
/// operation; nothing else moves.
pub open spec fn add_rel_v(g: GraphV, r: RelV) -> GraphV {
    GraphV {
        outgoing: adj_append(g.outgoing, r.from_id, r),
        incoming: adj_append(g.incoming, r.to_id, r),
        ..g
    }
}

/// Inserting a sequence of nodes, in order.
pub open spec fn add_nodes_v(g: GraphV, s: Seq<NodeV>) -> GraphV
    decreases s.len(),
{
    if s.len() == 0 {
        g
    } else {
        add_node_v(add_nodes_v(g, s.drop_last()), s.last())
    }
}

/// The empty store.
pub open spec fn empty_graph_v() -> GraphV {
    GraphV {
        nodes: Seq::<NodeV>::empty(),
        outgoing: Seq::<(Seq<char>, Seq<RelV>)>::empty(),
        incoming: Seq::<(Seq<char>, Seq<RelV>)>::empty(),
        by_kind: Seq::<(NodeType, Seq<Seq<char>>)>::empty(),
        by_file: Seq::<(Seq<char>, Seq<Seq<char>>)>::empty(),
        by_name: Seq::<(Seq<char>, Seq<Seq<char>>)>::empty(),
    }
}

/// Holds all nodes and edges of one build, with by-kind, by-file and by-name
/// indices and adjacency in both directions.  Append-only for nodes and
/// edges; only descriptive node fields are rewritten by later passes.
pub struct CodeGraph {
    nodes: Vec<CodeNode>,
    outgoing_edges: Vec<(String, Vec<Relationship>)>,
    incoming_edges: Vec<(String, Vec<Relationship>)>,
    nodes_by_type: Vec<(NodeType, Vec<String>)>,
    nodes_by_file: Vec<(String, Vec<String>)>,
    nodes_by_name: Vec<(String, Vec<String>)>,
}

/// The reading of a string-keyed id-bucket index.
pub open spec fn vb(m: Seq<(String, Vec<String>)>) -> Seq<(Seq<char>, Seq<Seq<char>>)> {
    m.map_values(|p: (String, Vec<String>)| (p.0@, p.1@.map_values(|s: String| s@)))
}

/// The reading of the kind-keyed id-bucket index.
pub open spec fn vk(m: Seq<(NodeType, Vec<String>)>) -> Seq<(NodeType, Seq<Seq<char>>)> {
    m.map_values(|p: (NodeType, Vec<String>)| (p.0, p.1@.map_values(|s: String| s@)))
}

/// The reading of an adjacency map.
pub open spec fn va(m: Seq<(String, Vec<Relationship>)>) -> Seq<(Seq<char>, Seq<RelV>)> {
    m.map_values(|p: (String, Vec<Relationship>)| (p.0@, p.1@.map_values(|r: Relationship| r@)))
}

/// The reading of an id list.
pub open spec fn vids(s: Seq<String>) -> Seq<Seq<char>> {
    s.map_values(|x: String| x@)
}

impl View for CodeGraph {
    type V = GraphV;

    closed spec fn view(&self) -> GraphV {
        GraphV {
            nodes: self.nodes@.map_values(|n: CodeNode| n@),
            outgoing: va(self.outgoing_edges@),
            incoming: va(self.incoming_edges@),
            by_kind: vk(self.nodes_by_type@),
            by_file: vb(self.nodes_by_file@),
            by_name: vb(self.nodes_by_name@),
        }
    }
}

impl CodeGraph {
    /// An empty store.
    pub fn new() -> (r: CodeGraph)
        ensures
            r@ == empty_graph_v(),
    {
        let r = CodeGraph {
            nodes: Vec::new(),
            outgoing_edges: Vec::new(),
            incoming_edges: Vec::new(),
            nodes_by_type: Vec::new(),
            nodes_by_file: Vec::new(),
            nodes_by_name: Vec::new(),
        };
        proof {
            assert(r@.nodes =~= empty_graph_v().nodes);
            assert(r@.outgoing =~= empty_graph_v().outgoing);
            assert(r@.incoming =~= empty_graph_v().incoming);
            assert(r@.by_kind =~= empty_graph_v().by_kind);
            assert(r@.by_file =~= empty_graph_v().by_file);
            assert(r@.by_name =~= empty_graph_v().by_name);
        }
        r
    }

    /// Position of the node with identifier `id`, if present.
    fn node_index(&self, id: &str) -> (r: Option<usize>)
        ensures
            match r {
                Some(i) => i < self.nodes.len() && node_first(self@.nodes, id@) == Some(i as int),
                None => node_first(self@.nodes, id@) is None,
            },
    {
        let n = self.nodes.len();
        let mut i: usize = 0;
        while i < n
            invariant
                0 <= i <= n,
                n == self.nodes.len(),
                forall|j: int| 0 <= j < i ==> (#[trigger] self@.nodes[j]).id != id@,
            decreases n - i,
        {
            if crate::strutil::str_eq(self.nodes[i].id.as_str(), id) {
                proof {
                    assert(self@.nodes[i as int].id == id@);
                    lemma_node_first(self@.nodes, id@);
                    if let Some(f) = node_first(self@.nodes, id@) {
                        if f < i {
                            assert(self@.nodes[f].id != id@);
                        }
                    }
                }
                return Some(i);
            }
            i += 1;
        }
        proof {
            lemma_node_first(self@.nodes, id@);
        }
        None
    }

    /// The stored node under `id`, if any.
    pub fn get_node(&self, id: &str) -> (r: Option<&CodeNode>)
        ensures
            match r {
                Some(n) => node_get(self@.nodes, id@) == Some(n@),
                None => node_get(self@.nodes, id@) is None,
            },
    {
        match self.node_index(id) {
            Some(i) => Some(&self.nodes[i]),
            None => None,
        }
    }

    /// Inserts a node and registers its identifier in all indices and both
    /// adjacency maps.  A second node under an identifier already stored
    /// overwrites the first in the primary sequence, while earlier index
    /// entries remain: duplicate identifiers are a caller error, kept safe
    /// but not rejected.
    pub fn add_node(&mut self, node: CodeNode)
        ensures
            final(self)@ == add_node_v(old(self)@, node@),
    {
        bucket_add_kind(&mut self.nodes_by_type, node.node_type, &node.id);
        bucket_add_str(&mut self.nodes_by_file, &node.file_path, &node.id);
        bucket_add_str(&mut self.nodes_by_name, &node.name, &node.id);
        adj_ensure_entry(&mut self.outgoing_edges, &node.id);
        adj_ensure_entry(&mut self.incoming_edges, &node.id);
        let idx = self.node_index(node.id.as_str());
        match idx {
            Some(i) => {
                self.nodes[i] = node;
                proof {
                    assert(self@.nodes =~= add_node_v(old(self)@, node@).nodes);
                }
            },
            None => {
                self.nodes.push(node);
                proof {
                    assert(self@.nodes =~= add_node_v(old(self)@, node@).nodes);
                }
            },
        }
    }

    /// Appends an edge to the source's outgoing entry and the target's
    /// incoming entry.  Neither endpoint needs to be a stored node, and
    /// nothing deduplicates: callers that need unique edges deduplicate
    /// before inserting.
    pub fn add_relationship(&mut self, relationship: Relationship)
        ensures
            final(self)@ == add_rel_v(old(self)@, relationship@),
    {
        let copy = relationship.clone();
        let to_key = relationship.to_id.clone();
        adj_append_edge(&mut self.outgoing_edges, relationship);
        adj_append_edge_to(&mut self.incoming_edges, &to_key, copy);
    }

    /// Position of the adjacency entry under `id` in `m`, if any.
    fn adj_index(m: &Vec<(String, Vec<Relationship>)>, id: &str) -> (r: Option<usize>)
        ensures
            match r {
                Some(i) => i < m.len() && assoc_first(va(m@), id@) == Some(i as int),
                None => assoc_first(va(m@), id@) is None,
            },
    {
        let n = m.len();
        let mut i: usize = 0;
        while i < n
            invariant
                0 <= i <= n,
                n == m.len(),
                forall|j: int| 0 <= j < i ==> (#[trigger] va(m@)[j]).0 != id@,
            decreases n - i,
        {
            if crate::strutil::str_eq(m[i].0.as_str(), id) {
                proof {
                    assert(va(m@)[i as int].0 == id@);
                    lemma_assoc_first(va(m@), id@);
                    if let Some(f) = assoc_first(va(m@), id@) {
                        if f < i {
                            assert(va(m@)[f].0 != id@);
                        }
                    }
                }
                return Some(i);
            }
            i += 1;
        }
        proof {
            lemma_assoc_first(va(m@), id@);
        }
        None
    }

    /// The nodes with `Calls` edges into `node_id`, one per such edge whose
    /// source resolves, in storage order.
    pub fn find_callers(&self, node_id: &str) -> (r: Vec<&CodeNode>)
        ensures
            r@.map_values(|n: &CodeNode| n@) == resolve_calls(
                self@.nodes,
                adj_of(self@.incoming, node_id@),
                true,
            ),
    {
        let bucket = Self::adj_index(&self.incoming_edges, node_id);
        self.resolve_call_edges(&self.incoming_edges, bucket, true, Ghost(node_id@))
    }

    /// The nodes that `node_id` has `Calls` edges to, one per such edge whose
    /// target resolves, in storage order.
    pub fn find_called_functions(&self, node_id: &str) -> (r: Vec<&CodeNode>)
        ensures
            r@.map_values(|n: &CodeNode| n@) == resolve_calls(
                self@.nodes,
                adj_of(self@.outgoing, node_id@),
                false,
            ),
    {
        let bucket = Self::adj_index(&self.outgoing_edges, node_id);
        self.resolve_call_edges(&self.outgoing_edges, bucket, false, Ghost(node_id@))
    }

    /// Resolves the `Calls` edges of one adjacency entry to nodes, taking
    /// the far endpoint named by `pick_from`.
    fn resolve_call_edges<'a>(
        &'a self,
        m: &Vec<(String, Vec<Relationship>)>,
        bucket: Option<usize>,
        pick_from: bool,
        Ghost(key): Ghost<Seq<char>>,
    ) -> (r: Vec<&'a CodeNode>)
        requires
            match bucket {
                Some(i) => i < m.len() && assoc_first(va(m@), key) == Some(i as int),
                None => assoc_first(va(m@), key) is None,
            },
        ensures
            r@.map_values(|n: &CodeNode| n@) == resolve_calls(
                self@.nodes,
                adj_of(va(m@), key),
                pick_from,
            ),
    {
        let mut out: Vec<&'a CodeNode> = Vec::new();
        match bucket {
            None => {
                proof {
                    assert(out@.map_values(|n: &CodeNode| n@) =~= resolve_calls(
                        self@.nodes,
                        adj_of(va(m@), key),
                        pick_from,
                    ));
                }
                out
            },
            Some(b) => {
                let edges = &m[b].1;
                let ghost ev = va(m@)[b as int].1;
                proof {
                    assert(adj_of(va(m@), key) == ev);
                    assert(ev == edges@.map_values(|r: Relationship| r@));
                }
                let n = edges.len();
                let mut i: usize = 0;
                while i < n
                    invariant
                        0 <= i <= n,
                        n == edges.len(),
                        ev == edges@.map_values(|r: Relationship| r@),
                        out@.map_values(|x: &CodeNode| x@) == resolve_calls(
                            self@.nodes,
                            ev.take(i as int),
                            pick_from,
                        ),
                    decreases n - i,
                {
                    proof {
                        assert(ev.take(i as int + 1).drop_last() =~= ev.take(i as int));
                        assert(ev.take(i as int + 1).last() == ev[i as int]);
                    }
                    let e = &edges[i];
                    if matches!(e.relationship_type, RelationshipType::Calls) {
                        let far = if pick_from {
                            &e.from_id
                        } else {
                            &e.to_id
                        };
                        match self.get_node(far.as_str()) {
                            Some(node) => {
                                out.push(node);
                                proof {
                                    assert(out@.map_values(|x: &CodeNode| x@) =~= resolve_calls(
                                        self@.nodes,
                                        ev.take(i as int + 1),
                                        pick_from,
                                    ));
                                }
                            },
                            None => {
                                proof {
                                    assert(out@.map_values(|x: &CodeNode| x@) =~= resolve_calls(
                                        self@.nodes,
                                        ev.take(i as int + 1),
                                        pick_from,
                                    ));
                                }
                            },
                        }
                    } else {
                        proof {
                            assert(out@.map_values(|x: &CodeNode| x@) =~= resolve_calls(
                                self@.nodes,
                                ev.take(i as int + 1),
                                pick_from,
                            ));
                        }
                    }
                    i += 1;
                }
                proof {
                    assert(ev.take(n as int) =~= ev);
                }
                out
            },
        }
    }

    /// Position of the bucket under `name` in a string-keyed index.
    fn str_bucket_index(m: &Vec<(String, Vec<String>)>, name: &str) -> (r: Option<usize>)
        ensures
            match r {
                Some(i) => i < m.len() && assoc_first(vb(m@), name@) == Some(i as int),
                None => assoc_first(vb(m@), name@) is None,
            },
    {
        let n = m.len();
        let mut i: usize = 0;
        while i < n
            invariant
                0 <= i <= n,
                n == m.len(),
                forall|j: int| 0 <= j < i ==> (#[trigger] vb(m@)[j]).0 != name@,
            decreases n - i,
        {
            if crate::strutil::str_eq(m[i].0.as_str(), name) {
                proof {
                    assert(vb(m@)[i as int].0 == name@);
                    lemma_assoc_first(vb(m@), name@);
                    if let Some(f) = assoc_first(vb(m@), name@) {
                        if f < i {
                            assert(vb(m@)[f].0 != name@);
                        }
                    }
                }
                return Some(i);
            }
            i += 1;
        }
        proof {
            lemma_assoc_first(vb(m@), name@);
        }
        None
    }

    /// Resolves a bucket of identifiers to stored nodes, dropping the ones
    /// that miss, in bucket order.
    fn resolve_id_bucket<'a>(&'a self, ids: &Vec<String>) -> (r: Vec<&'a CodeNode>)
        ensures
            r@.map_values(|n: &CodeNode| n@) == resolve_ids(self@.nodes, vids(ids@)),
    {
        let mut out: Vec<&'a CodeNode> = Vec::new();
        let n = ids.len();
        let mut i: usize = 0;
        while i < n
            invariant
                0 <= i <= n,
                n == ids.len(),
                out@.map_values(|x: &CodeNode| x@) == resolve_ids(
                    self@.nodes,
                    vids(ids@).take(i as int),
                ),
            decreases n - i,
        {
            proof {
                assert(vids(ids@).take(i as int + 1).drop_last() =~= vids(ids@).take(i as int));
                assert(vids(ids@).take(i as int + 1).last() == vids(ids@)[i as int]);
            }
            match self.get_node(ids[i].as_str()) {
                Some(node) => {
                    out.push(node);
                    proof {
                        assert(out@.map_values(|x: &CodeNode| x@) =~= resolve_ids(
                            self@.nodes,
                            vids(ids@).take(i as int + 1),
                        ));
                    }
                },
                None => {
                    proof {
                        assert(out@.map_values(|x: &CodeNode| x@) =~= resolve_ids(
                            self@.nodes,
                            vids(ids@).take(i as int + 1),
                        ));
                    }
                },
            }
            i += 1;
        }
        proof {
            assert(vids(ids@).take(n as int) =~= vids(ids@));
        }
        out
    }

    /// The stored nodes of the given kind, in index order.
    pub fn find_nodes_by_type(&self, node_type: &NodeType) -> (r: Vec<&CodeNode>)
        ensures
            r@.map_values(|n: &CodeNode| n@) == resolve_ids(
                self@.nodes,
                bucket_of(self@.by_kind, *node_type),
            ),
    {
        let n = self.nodes_by_type.len();
        let mut i: usize = 0;
        while i < n
            invariant
                0 <= i <= n,
                n == self.nodes_by_type.len(),
                forall|j: int| 0 <= j < i ==> (#[trigger] vk(self.nodes_by_type@)[j]).0 != *node_type,
            decreases n - i,
        {
            if self.nodes_by_type[i].0 == *node_type {
                proof {
                    assert(vk(self.nodes_by_type@)[i as int].0 == *node_type);
                    lemma_assoc_first(vk(self.nodes_by_type@), *node_type);
                    if let Some(f) = assoc_first(vk(self.nodes_by_type@), *node_type) {
                        if f < i {
                            assert(vk(self.nodes_by_type@)[f].0 != *node_type);
                        }
                    }
                    assert(bucket_of(self@.by_kind, *node_type) == vids(
                        self.nodes_by_type@[i as int].1@,
                    ));
                }
                return self.resolve_id_bucket(&self.nodes_by_type[i].1);
            }
            i += 1;
        }
        proof {
            lemma_assoc_first(vk(self.nodes_by_type@), *node_type);
            assert(resolve_ids(self@.nodes, bucket_of(self@.by_kind, *node_type))
                =~= Seq::<NodeV>::empty());
        }
        let r: Vec<&CodeNode> = Vec::new();
        proof {
            assert(r@.map_values(|n: &CodeNode| n@) =~= Seq::<NodeV>::empty());
        }
        r
    }

    /// The stored nodes under `name` in the by-name index, in index order.
    pub fn find_nodes_by_name(&self, name: &str) -> (r: Vec<&CodeNode>)
        ensures
            r@.map_values(|n: &CodeNode| n@) == resolve_ids(
                self@.nodes,
                bucket_of(self@.by_name, name@),
            ),
    {
        match Self::str_bucket_index(&self.nodes_by_name, name) {
            Some(i) => {
                proof {
                    assert(bucket_of(self@.by_name, name@) == vids(
                        self.nodes_by_name@[i as int].1@,
                    ));
                }
                self.resolve_id_bucket(&self.nodes_by_name[i].1)
            },
            None => {
                proof {
                    assert(resolve_ids(self@.nodes, bucket_of(self@.by_name, name@))
                        =~= Seq::<NodeV>::empty());
                }
                let r: Vec<&CodeNode> = Vec::new();
                proof {
                    assert(r@.map_values(|n: &CodeNode| n@) =~= Seq::<NodeV>::empty());
                }
                r
            },
        }
    }

    /// The stored nodes under `file_path` in the by-file index, in index
    /// order.
    pub fn find_nodes_in_file(&self, file_path: &str) -> (r: Vec<&CodeNode>)
        ensures
            r@.map_values(|n: &CodeNode| n@) == resolve_ids(
                self@.nodes,
                bucket_of(self@.by_file, file_path@),
            ),
    {
        match Self::str_bucket_index(&self.nodes_by_file, file_path) {
            Some(i) => {
                proof {
                    assert(bucket_of(self@.by_file, file_path@) == vids(
                        self.nodes_by_file@[i as int].1@,
                    ));
                }
                self.resolve_id_bucket(&self.nodes_by_file[i].1)
            },
            None => {
                proof {
                    assert(resolve_ids(self@.nodes, bucket_of(self@.by_file, file_path@))
                        =~= Seq::<NodeV>::empty());
                }
                let r: Vec<&CodeNode> = Vec::new();
                proof {
                    assert(r@.map_values(|n: &CodeNode| n@) =~= Seq::<NodeV>::empty());
                }
                r
            },
        }
    }

    /// All stored nodes, in insertion order.
    pub fn all_nodes(&self) -> (r: &Vec<CodeNode>)
        ensures
            r@.map_values(|n: CodeNode| n@) == self@.nodes,
    {
        &self.nodes
    }

    /// Number of stored nodes.
    pub fn node_count(&self) -> (r: usize)
        ensures
            r == self@.nodes.len(),
    {
        self.nodes.len()
    }

    /// Number of stored directed edges: the outgoing entries summed, so each
    /// inserted relationship counts once.
    pub fn relationship_count(&self) -> (r: usize)
        requires
            total_edges(self@.outgoing) <= usize::MAX,
        ensures
            r == total_edges(self@.outgoing),
    {
        let n = self.outgoing_edges.len();
        let mut total: usize = 0;
        let mut i: usize = 0;
        while i < n
            invariant
                0 <= i <= n,
                n == self.outgoing_edges.len(),
                total == total_edges(va(self.outgoing_edges@).take(i as int)),
                total_edges(va(self.outgoing_edges@)) <= usize::MAX,
            decreases n - i,
        {
            proof {
                let whole = va(self.outgoing_edges@);
                assert(whole.take(i as int + 1).drop_last() =~= whole.take(i as int));
                assert(whole.take(i as int + 1).last() == whole[i as int]);
                lemma_total_edges_bounds(whole, i as int + 1);
            }
            total = total + self.outgoing_edges[i].1.len();
            i += 1;
        }
        proof {
            assert(va(self.outgoing_edges@).take(n as int) =~= va(self.outgoing_edges@));
        }
        total
    }

    /// Rewrites the name of the node at position `i`; the indices are left
    /// as they are.
    pub fn set_node_name(&mut self, i: usize, name: String)
        requires
            i < old(self)@.nodes.len(),
        ensures
            final(self)@ == (GraphV {
                nodes: old(self)@.nodes.update(
                    i as int,
                    NodeV { name: name@, ..old(self)@.nodes[i as int] },
                ),
                ..old(self)@
            }),
    {
        self.nodes[i].name = name;
        proof {
            assert(self@.nodes =~= old(self)@.nodes.update(
                i as int,
                NodeV { name: name@, ..old(self)@.nodes[i as int] },
            ));
        }
    }

    /// Rewrites the summary of the node at position `i`.
    pub fn set_node_summary(&mut self, i: usize, summary: String)
        requires
            i < old(self)@.nodes.len(),
        ensures
            final(self)@ == (GraphV {
                nodes: old(self)@.nodes.update(
                    i as int,
                    NodeV { summary: Some(summary@), ..old(self)@.nodes[i as int] },
                ),
                ..old(self)@
            }),
    {
        self.nodes[i].summary = Some(summary);
        proof {
            assert(self@.nodes =~= old(self)@.nodes.update(
                i as int,
                NodeV { summary: Some(summary@), ..old(self)@.nodes[i as int] },
            ));
        }
    }

    /// The outgoing adjacency entries, in creation order.
    pub fn outgoing_entries(&self) -> (r: &Vec<(String, Vec<Relationship>)>)
        ensures
            va(r@) == self@.outgoing,
    {
        &self.outgoing_edges
    }

    /// The incoming adjacency entries, in creation order.
    pub fn incoming_entries(&self) -> (r: &Vec<(String, Vec<Relationship>)>)
        ensures
            va(r@) == self@.incoming,
    {
        &self.incoming_edges
    }

    /// The by-kind index entries, in creation order.
    pub fn by_type_entries(&self) -> (r: &Vec<(NodeType, Vec<String>)>)
        ensures
            vk(r@) == self@.by_kind,
    {
        &self.nodes_by_type
    }

    /// The by-file index entries, in creation order.
    pub fn by_file_entries(&self) -> (r: &Vec<(String, Vec<String>)>)
        ensures
            vb(r@) == self@.by_file,
    {
        &self.nodes_by_file
    }

    /// The by-name index entries, in creation order.
    pub fn by_name_entries(&self) -> (r: &Vec<(String, Vec<String>)>)
        ensures
            vb(r@) == self@.by_name,
    {
        &self.nodes_by_name
    }
}

/// The identifiers of a sequence of node readings, as a set.
pub open spec fn ids_of(s: Seq<NodeV>) -> Set<Seq<char>> {
    s.map_values(|n: NodeV| n.id).to_set()
}

/// The readings of a sequence of node references.
pub open spec fn deref_views(s: Seq<&CodeNode>) -> Seq<NodeV> {
    s.map_values(|n: &CodeNode| n@)
}

/// No two readings share an identifier.
pub open spec fn nodes_distinct(s: Seq<NodeV>) -> bool {
    forall|i: int, j: int| 0 <= i < j < s.len() ==> s[i].id != s[j].id
}

/// Every reading is the stored node under its identifier.
pub open spec fn nodes_stored(stored: Seq<NodeV>, s: Seq<NodeV>) -> bool {
    forall|i: int| 0 <= i < s.len() ==> node_get(stored, (#[trigger] s[i]).id) == Some(s[i])
}

/// The identifiers of the stored nodes.
pub open spec fn node_ids(nodes: Seq<NodeV>) -> Set<Seq<char>> {
    nodes.map_values(|n: NodeV| n.id).to_set()
}

/// The identifiers one undirected hop away from `x`: targets of its
/// outgoing edges and sources of its incoming edges.
pub open spec fn neighbors_of(g: GraphV, x: Seq<char>) -> Set<Seq<char>> {
    adj_of(g.outgoing, x).map_values(|e: RelV| e.to_id).to_set() + adj_of(g.incoming, x)
        .map_values(|e: RelV| e.from_id).to_set()
}

/// One round of frontier expansion: the set together with every stored
/// identifier one hop from some member.
pub open spec fn frontier_step(g: GraphV, s: Set<Seq<char>>) -> Set<Seq<char>> {
    s + Set::new(
        |y: Seq<char>|
            node_ids(g.nodes).contains(y) && exists|x: Seq<char>|
                s.contains(x) && neighbors_of(g, x).contains(y),
    )
}

/// The stored identifiers within `depth` undirected hops of `id`: empty if
/// `id` is not stored, `id` alone at depth zero, one frontier round per
/// further hop.
pub open spec fn related_ids(g: GraphV, id: Seq<char>, depth: nat) -> Set<Seq<char>>
    decreases depth,
{
    if !node_ids(g.nodes).contains(id) {
        Set::<Seq<char>>::empty()
    } else if depth == 0 {
        Set::<Seq<char>>::empty().insert(id)
    } else {
        frontier_step(g, related_ids(g, id, (depth - 1) as nat))
    }
}

/// A frontier round keeps every member.
pub proof fn lemma_frontier_step_superset(g: GraphV, s: Set<Seq<char>>)
    ensures
        s.subset_of(frontier_step(g, s)),
{
}

/// Within no hops, a stored start is alone and a missing start yields
/// nothing.
pub proof fn lemma_related_depth_zero(g: GraphV, id: Seq<char>)
    ensures
        node_ids(g.nodes).contains(id) ==> related_ids(g, id, 0) == Set::<Seq<char>>::empty()
            .insert(id),
        !node_ids(g.nodes).contains(id) ==> related_ids(g, id, 0) == Set::<Seq<char>>::empty(),
{
}

/// Reachability grows with the depth bound: everything within `k` hops is
/// within `k + 1`.
pub proof fn lemma_related_monotone(g: GraphV, id: Seq<char>, k: nat)
    ensures
        related_ids(g, id, k).subset_of(related_ids(g, id, k + 1)),
{
    if node_ids(g.nodes).contains(id) {
        if k == 0 {
            assert(related_ids(g, id, 1) == frontier_step(g, related_ids(g, id, 0)));
            lemma_frontier_step_superset(g, related_ids(g, id, 0));
        } else {
            assert(related_ids(g, id, k + 1) == frontier_step(g, related_ids(g, id, k)));
            lemma_frontier_step_superset(g, related_ids(g, id, k));
        }
    }
}

/// Appending a node adds exactly its identifier to the identifier set.
pub proof fn lemma_ids_push(s: Seq<NodeV>, n: NodeV)
    ensures
        ids_of(s.push(n)) == ids_of(s).insert(n.id),
{
    let mo = s.push(n).map_values(|m: NodeV| m.id);
    let mp = s.map_values(|m: NodeV| m.id);
    assert(mo =~= mp.push(n.id));
    assert forall|x: Seq<char>| ids_of(s.push(n)).contains(x) implies ids_of(s).insert(
        n.id,
    ).contains(x) by {
        let k = choose|k: int| 0 <= k < mo.len() && mo[k] == x;
        if k < mp.len() {
            assert(mp[k] == x);
        }
    }
    assert forall|x: Seq<char>| ids_of(s).insert(n.id).contains(x) implies ids_of(
        s.push(n),
    ).contains(x) by {
        if x == n.id {
            assert(mo[mo.len() - 1] == x);
        } else {
            let k = choose|k: int| 0 <= k < mp.len() && mp[k] == x;
            assert(mo[k] == x);
        }
    }
    assert(ids_of(s.push(n)) =~= ids_of(s).insert(n.id));
}

/// Whether every stored neighbor of `x` is in `ids`.
pub open spec fn covered(g: GraphV, x: Seq<char>, ids: Set<Seq<char>>) -> bool {
    forall|y: Seq<char>|
        (node_ids(g.nodes).contains(y) && #[trigger] neighbors_of(g, x).contains(y))
            ==> ids.contains(y)
}

/// The far endpoint an undirected traversal reads off an edge.
pub open spec fn cand_of(e: RelV, to_side: bool) -> Seq<char> {
    if to_side {
        e.to_id
    } else {
        e.from_id
    }
}

impl CodeGraph {
    /// Whether some gathered node carries the identifier `id`.
    fn gathered_contains(out: &Vec<&CodeNode>, id: &str) -> (r: bool)
        ensures
            r == ids_of(deref_views(out@)).contains(id@),
    {
        let n = out.len();
        let mut i: usize = 0;
        while i < n
            invariant
                0 <= i <= n,
                n == out.len(),
                forall|j: int| 0 <= j < i ==> deref_views(out@)[j].id != id@,
            decreases n - i,
        {
            if crate::strutil::str_eq(out[i].id.as_str(), id) {
                proof {
                    assert(deref_views(out@).map_values(|n: NodeV| n.id)[i as int] == id@);
                }
                return true;
            }
            i += 1;
        }
        proof {
            assert(!ids_of(deref_views(out@)).contains(id@)) by {
                if ids_of(deref_views(out@)).contains(id@) {
                    let m = deref_views(out@).map_values(|n: NodeV| n.id);
                    let w = choose|w: int| 0 <= w < m.len() && m[w] == id@;
                    assert(deref_views(out@)[w].id != id@);
                }
            }
        }
        false
    }

    /// Pushes the unseen stored nodes at the far endpoints of one adjacency
    /// entry's edges.
    fn push_bucket_candidates<'a>(
        &'a self,
        out: &mut Vec<&'a CodeNode>,
        edges: &Vec<Relationship>,
        to_side: bool,
        Ghost(s0): Ghost<Set<Seq<char>>>,
    )
        requires
            ids_of(deref_views(old(out)@)).subset_of(frontier_step(self@, s0)),
            nodes_distinct(deref_views(old(out)@)),
            nodes_stored(self@.nodes, deref_views(old(out)@)),
            forall|k: int|
                0 <= k < edges@.len() ==> frontier_step(self@, s0).contains(
                    cand_of((#[trigger] edges@[k])@, to_side),
                ) || !node_ids(self@.nodes).contains(cand_of(edges@[k]@, to_side)),
        ensures
            final(out)@.len() >= old(out)@.len(),
            final(out)@.take(old(out)@.len() as int) == old(out)@,
            ids_of(deref_views(final(out)@)).subset_of(frontier_step(self@, s0)),
            nodes_distinct(deref_views(final(out)@)),
            nodes_stored(self@.nodes, deref_views(final(out)@)),
            ids_of(deref_views(old(out)@)).subset_of(ids_of(deref_views(final(out)@))),
            forall|k: int|
                0 <= k < edges@.len() ==> (node_ids(self@.nodes).contains(
                    cand_of((#[trigger] edges@[k])@, to_side),
                ) ==> ids_of(deref_views(final(out)@)).contains(cand_of(edges@[k]@, to_side))),
    {
        let n = edges.len();
        let mut i: usize = 0;
        while i < n
            invariant
                0 <= i <= n,
                n == edges.len(),
                out@.len() >= old(out)@.len(),
                out@.take(old(out)@.len() as int) == old(out)@,
                ids_of(deref_views(out@)).subset_of(frontier_step(self@, s0)),
                nodes_distinct(deref_views(out@)),
                nodes_stored(self@.nodes, deref_views(out@)),
                ids_of(deref_views(old(out)@)).subset_of(ids_of(deref_views(out@))),
                forall|k: int|
                    0 <= k < edges@.len() ==> frontier_step(self@, s0).contains(
                        cand_of((#[trigger] edges@[k])@, to_side),
                    ) || !node_ids(self@.nodes).contains(cand_of(edges@[k]@, to_side)),
                forall|k: int|
                    0 <= k < i ==> (node_ids(self@.nodes).contains(
                        cand_of((#[trigger] edges@[k])@, to_side),
                    ) ==> ids_of(deref_views(out@)).contains(cand_of(edges@[k]@, to_side))),
            decreases n - i,
        {
            let e = &edges[i];
            let far = if to_side {
                &e.to_id
            } else {
                &e.from_id
            };
            proof {
                assert(far@ == cand_of(edges@[i as int]@, to_side));
            }
            match self.get_node(far.as_str()) {
                Some(node) => {
                    proof {
                        lemma_node_first(self@.nodes, far@);
                        assert(node_ids(self@.nodes).contains(node@.id)) by {
                            let w = choose|w: int|
                                0 <= w < self@.nodes.len() && self@.nodes[w].id == far@;
                            assert(self@.nodes.map_values(|n: NodeV| n.id)[w] == far@);
                        }
                    }
                    let seen = Self::gathered_contains(out, far.as_str());
                    if !seen {
                        let ghost pre = out@;
                        out.push(node);
                        proof {
                            assert(deref_views(out@) =~= deref_views(pre).push(node@));
                            assert(out@.take(old(out)@.len() as int) =~= pre.take(
                                old(out)@.len() as int,
                            ));
                            lemma_ids_push(deref_views(pre), node@);
                            assert(ids_of(deref_views(out@)) == ids_of(deref_views(pre)).insert(
                                node@.id,
                            ));
                            assert forall|a: int, b: int|
                                0 <= a < b < deref_views(out@).len() implies deref_views(out@)[a].id
                                != deref_views(out@)[b].id by {
                                if b == deref_views(out@).len() - 1 {
                                    assert(deref_views(pre).map_values(|n: NodeV| n.id)[a]
                                        == deref_views(pre)[a].id);
                                }
                            }
                        }
                    }
                },
                None => {
                    proof {
                        lemma_node_first(self@.nodes, far@);
                        assert(!node_ids(self@.nodes).contains(far@)) by {
                            if node_ids(self@.nodes).contains(far@) {
                                let m = self@.nodes.map_values(|n: NodeV| n.id);
                                let w = choose|w: int| 0 <= w < m.len() && m[w] == far@;
                                assert(self@.nodes[w].id == far@);
                            }
                        }
                    }
                },
            }
            i += 1;
        }
    }

    /// Pushes every unseen stored neighbor of `x_id`.
    fn push_neighbors<'a>(
        &'a self,
        out: &mut Vec<&'a CodeNode>,
        x_id: &str,
        Ghost(s0): Ghost<Set<Seq<char>>>,
    )
        requires
            s0.contains(x_id@),
            ids_of(deref_views(old(out)@)).subset_of(frontier_step(self@, s0)),
            nodes_distinct(deref_views(old(out)@)),
            nodes_stored(self@.nodes, deref_views(old(out)@)),
        ensures
            final(out)@.len() >= old(out)@.len(),
            final(out)@.take(old(out)@.len() as int) == old(out)@,
            ids_of(deref_views(final(out)@)).subset_of(frontier_step(self@, s0)),
            nodes_distinct(deref_views(final(out)@)),
            nodes_stored(self@.nodes, deref_views(final(out)@)),
            ids_of(deref_views(old(out)@)).subset_of(ids_of(deref_views(final(out)@))),
            covered(self@, x_id@, ids_of(deref_views(final(out)@))),
    {
        let ghost g = self@;
        let out_idx = Self::adj_index(&self.outgoing_edges, x_id);
        if let Some(b) = out_idx {
            proof {
                assert(adj_of(g.outgoing, x_id@) == va(self.outgoing_edges@)[b as int].1);
                let ev = va(self.outgoing_edges@)[b as int].1;
                assert forall|k: int| 0 <= k < self.outgoing_edges@[b as int].1@.len() implies {
                    let c = cand_of((#[trigger] self.outgoing_edges@[b as int].1@[k])@, true);
                    frontier_step(g, s0).contains(c) || !node_ids(g.nodes).contains(c)
                } by {
                    let c = cand_of(self.outgoing_edges@[b as int].1@[k]@, true);
                    assert(ev[k] == self.outgoing_edges@[b as int].1@[k]@);
                    assert(ev.map_values(|e: RelV| e.to_id)[k] == c);
                    assert(neighbors_of(g, x_id@).contains(c));
                }
            }
            self.push_bucket_candidates(out, &self.outgoing_edges[b].1, true, Ghost(s0));
        }
        let ghost mid = out@;
        let in_idx = Self::adj_index(&self.incoming_edges, x_id);
        if let Some(b) = in_idx {
            proof {
                assert(adj_of(g.incoming, x_id@) == va(self.incoming_edges@)[b as int].1);
                let ev = va(self.incoming_edges@)[b as int].1;
                assert forall|k: int| 0 <= k < self.incoming_edges@[b as int].1@.len() implies {
                    let c = cand_of((#[trigger] self.incoming_edges@[b as int].1@[k])@, false);
                    frontier_step(g, s0).contains(c) || !node_ids(g.nodes).contains(c)
                } by {
                    let c = cand_of(self.incoming_edges@[b as int].1@[k]@, false);
                    assert(ev[k] == self.incoming_edges@[b as int].1@[k]@);
                    assert(ev.map_values(|e: RelV| e.from_id)[k] == c);
                    assert(neighbors_of(g, x_id@).contains(c));
                }
            }
            self.push_bucket_candidates(out, &self.incoming_edges[b].1, false, Ghost(s0));
        }
        proof {
            assert forall|y: Seq<char>|
                node_ids(g.nodes).contains(y) && neighbors_of(g, x_id@).contains(y) implies ids_of(
                deref_views(out@),
            ).contains(y) by {
                let outs = adj_of(g.outgoing, x_id@).map_values(|e: RelV| e.to_id);
                let ins = adj_of(g.incoming, x_id@).map_values(|e: RelV| e.from_id);
                if outs.to_set().contains(y) {
                    let k = choose|k: int| 0 <= k < outs.len() && outs[k] == y;
                    if let Some(b) = out_idx {
                        assert(cand_of(self.outgoing_edges@[b as int].1@[k]@, true) == y);
                        assert(ids_of(deref_views(mid)).contains(y));
                        assert(ids_of(deref_views(mid)).subset_of(ids_of(deref_views(out@))));
                    } else {
                        assert(adj_of(g.outgoing, x_id@) =~= Seq::<RelV>::empty());
                    }
                } else {
                    assert(ins.to_set().contains(y));
                    let k = choose|k: int| 0 <= k < ins.len() && ins[k] == y;
                    if let Some(b) = in_idx {
                        assert(cand_of(self.incoming_edges@[b as int].1@[k]@, false) == y);
                    } else {
                        assert(adj_of(g.incoming, x_id@) =~= Seq::<RelV>::empty());
                    }
                }
            }
        }
    }

    /// The stored nodes within `depth` undirected hops of `node_id`, by
    /// iterative frontier expansion; each reachable node appears once.  A
    /// missing start yields nothing; a zero depth yields the start alone.
    pub fn find_related_nodes(&self, node_id: &str, depth: usize) -> (r: Vec<&CodeNode>)
        ensures
            ids_of(deref_views(r@)) == related_ids(self@, node_id@, depth as nat),
            nodes_distinct(deref_views(r@)),
            nodes_stored(self@.nodes, deref_views(r@)),
    {
        let ghost g = self@;
        let mut out: Vec<&CodeNode> = Vec::new();
        let start = self.get_node(node_id);
        match start {
            None => {
                proof {
                    lemma_node_first(g.nodes, node_id@);
                    assert(!node_ids(g.nodes).contains(node_id@)) by {
                        if node_ids(g.nodes).contains(node_id@) {
                            let m = g.nodes.map_values(|n: NodeV| n.id);
                            let w = choose|w: int| 0 <= w < m.len() && m[w] == node_id@;
                            assert(g.nodes[w].id == node_id@);
                        }
                    }
                    assert(ids_of(deref_views(out@)) =~= related_ids(g, node_id@, depth as nat));
                }
                out
            },
            Some(first) => {
                out.push(first);
                proof {
                    lemma_node_first(g.nodes, node_id@);
                    assert(first@.id == node_id@);
                    assert(node_ids(g.nodes).contains(node_id@)) by {
                        let w = node_first(g.nodes, node_id@)->Some_0;
                        assert(g.nodes.map_values(|n: NodeV| n.id)[w] == node_id@);
                    }
                    assert(deref_views(out@) =~= Seq::<NodeV>::empty().push(first@));
                    assert(ids_of(Seq::<NodeV>::empty()) =~= Set::<Seq<char>>::empty());
                    lemma_ids_push(Seq::<NodeV>::empty(), first@);
                    assert(ids_of(deref_views(out@)) == Set::<Seq<char>>::empty().insert(
                        node_id@,
                    ));
                }
                let mut d: usize = 0;
                while d < depth
                    invariant
                        0 <= d <= depth,
                        ids_of(deref_views(out@)) == related_ids(g, node_id@, d as nat),
                        nodes_distinct(deref_views(out@)),
                        nodes_stored(g.nodes, deref_views(out@)),
                        g == self@,
                    decreases depth - d,
                {
                    let ghost s0 = ids_of(deref_views(out@));
                    let cur = out.len();
                    let ghost snap = out@;
                    let mut i: usize = 0;
                    while i < cur
                        invariant
                            0 <= i <= cur,
                            cur == snap.len(),
                            out@.len() >= cur,
                            out@.take(cur as int) == snap,
                            s0 == ids_of(deref_views(snap)),
                            ids_of(deref_views(out@)).subset_of(frontier_step(g, s0)),
                            s0.subset_of(ids_of(deref_views(out@))),
                            nodes_distinct(deref_views(out@)),
                            nodes_stored(g.nodes, deref_views(out@)),
                            g == self@,
                            forall|j: int|
                                0 <= j < i ==> covered(
                                    g,
                                    (#[trigger] deref_views(snap)[j]).id,
                                    ids_of(deref_views(out@)),
                                ),
                        decreases cur - i,
                    {
                        let x: &CodeNode = out[i];
                        proof {
                            assert(out@[i as int] == snap[i as int]);
                            assert(deref_views(snap).map_values(|n: NodeV| n.id)[i as int]
                                == deref_views(snap)[i as int].id);
                            assert(s0.contains(x@.id));
                        }
                        let ghost before = out@;
                        self.push_neighbors(&mut out, x.id.as_str(), Ghost(s0));
                        proof {
                            assert(out@.take(cur as int) =~= before.take(cur as int));
                            assert forall|j: int| 0 <= j < i + 1 implies covered(
                                g,
                                (#[trigger] deref_views(snap)[j]).id,
                                ids_of(deref_views(out@)),
                            ) by {
                                if j < i {
                                    assert(covered(
                                        g,
                                        deref_views(snap)[j].id,
                                        ids_of(deref_views(before)),
                                    ));
                                    assert forall|y: Seq<char>|
                                        node_ids(g.nodes).contains(y) && #[trigger] neighbors_of(
                                            g,
                                            deref_views(snap)[j].id,
                                        ).contains(y) implies ids_of(
                                        deref_views(out@),
                                    ).contains(y) by {
                                        assert(ids_of(deref_views(before)).contains(y));
                                    }
                                } else {
                                    assert(deref_views(snap)[j].id == x@.id);
                                    assert(covered(g, x@.id, ids_of(deref_views(out@))));
                                }
                            }
                        }
                        i += 1;
                    }
                    proof {
                        assert(ids_of(deref_views(out@)) =~= frontier_step(g, s0)) by {
                            assert forall|y: Seq<char>|
                                frontier_step(g, s0).contains(y) implies ids_of(
                                deref_views(out@),
                            ).contains(y) by {
                                if s0.contains(y) {
                                } else {
                                    let x = choose|x: Seq<char>|
                                        s0.contains(x) && neighbors_of(g, x).contains(y);
                                    let dvs = deref_views(snap).map_values(|n: NodeV| n.id);
                                    let j = choose|j: int| 0 <= j < dvs.len() && dvs[j] == x;
                                    assert(deref_views(snap)[j].id == x);
                                    assert(covered(g, x, ids_of(deref_views(out@))));
                                }
                            }
                        }
                        assert(related_ids(g, node_id@, d as nat + 1) == frontier_step(
                            g,
                            related_ids(g, node_id@, d as nat),
                        ));
                    }
                    d += 1;
                }
                out
            },
        }
    }
}

/// The bucket stored under `k`, or empty if the key has no entry.
pub open spec fn bucket_of<K>(m: Seq<(K, Seq<Seq<char>>)>, k: K) -> Seq<Seq<char>> {
    match assoc_first(m, k) {
        Some(i) => m[i].1,
        None => Seq::<Seq<char>>::empty(),
    }
}

/// The adjacency entry stored under `k`, or empty if the key has none.
pub open spec fn adj_of(m: Seq<(Seq<char>, Seq<RelV>)>, k: Seq<char>) -> Seq<RelV> {
    match assoc_first(m, k) {
        Some(i) => m[i].1,
        None => Seq::<RelV>::empty(),
    }
}

/// Resolves identifiers to stored nodes, in order, dropping the ones that
/// miss.
pub open spec fn resolve_ids(nodes: Seq<NodeV>, ids: Seq<Seq<char>>) -> Seq<NodeV>
    decreases ids.len(),
{
    if ids.len() == 0 {
        Seq::<NodeV>::empty()
    } else {
        let rest = resolve_ids(nodes, ids.drop_last());
        match node_first(nodes, ids.last()) {
            Some(i) => rest.push(nodes[i]),
            None => rest,
        }
    }
}

/// Resolves the `Calls` edges of an adjacency entry to the nodes at their
/// far endpoint — the source when `pick_from` holds, the target otherwise —
/// dropping edges whose far endpoint misses.
pub open spec fn resolve_calls(nodes: Seq<NodeV>, edges: Seq<RelV>, pick_from: bool) -> Seq<NodeV>
    decreases edges.len(),
{
    if edges.len() == 0 {
        Seq::<NodeV>::empty()
    } else {
        let rest = resolve_calls(nodes, edges.drop_last(), pick_from);
        let e = edges.last();
        if e.relationship_type == RelationshipType::Calls {
            let far = if pick_from {
                e.from_id
            } else {
                e.to_id
            };
            match node_first(nodes, far) {
                Some(i) => rest.push(nodes[i]),
                None => rest,
            }
        } else {
            rest
        }
    }
}

/// Total number of edges over a sequence of adjacency entries.
pub open spec fn total_edges(m: Seq<(Seq<char>, Seq<RelV>)>) -> int
    decreases m.len(),
{
    if m.len() == 0 {
        0
    } else {
        total_edges(m.drop_last()) + m.last().1.len()
    }
}

/// Every prefix total is between zero and the whole total.
pub proof fn lemma_total_edges_bounds(m: Seq<(Seq<char>, Seq<RelV>)>, i: int)
    requires
        0 <= i <= m.len(),
    ensures
        0 <= total_edges(m.take(i)),
        total_edges(m.take(i)) <= total_edges(m),
    decreases m.len() - i,
{
    lemma_total_edges_nonneg(m.take(i));
    if i < m.len() {
        assert(m.take(i + 1).drop_last() =~= m.take(i));
        lemma_total_edges_bounds(m, i + 1);
    } else {
        assert(m.take(i) =~= m);
    }
}

/// Edge totals are never negative.
pub proof fn lemma_total_edges_nonneg(m: Seq<(Seq<char>, Seq<RelV>)>)
    ensures
        0 <= total_edges(m),
    decreases m.len(),
{
    if m.len() != 0 {
        lemma_total_edges_nonneg(m.drop_last());
    }
}

/// Whether the bucket at position `i` holds `id`.
pub open spec fn bucket_has<K>(m: Seq<(K, Seq<Seq<char>>)>, i: int, id: Seq<char>) -> bool {
    0 <= i < m.len() && m[i].1.contains(id)
}

/// Whether `id` sits in exactly one bucket of the index.
pub open spec fn in_exactly_one_bucket<K>(m: Seq<(K, Seq<Seq<char>>)>, id: Seq<char>) -> bool {
    exists|i: int|
        #[trigger] bucket_has(m, i, id) && (forall|j: int|
            #[trigger] bucket_has(m, j, id) ==> j == i)
}

/// Whether the adjacency entry at position `i` is keyed by `id`.
pub open spec fn entry_is(m: Seq<(Seq<char>, Seq<RelV>)>, i: int, id: Seq<char>) -> bool {
    0 <= i < m.len() && m[i].0 == id
}

/// Whether `id` keys exactly one adjacency entry.
pub open spec fn exactly_one_entry(m: Seq<(Seq<char>, Seq<RelV>)>, id: Seq<char>) -> bool {
    exists|i: int|
        #[trigger] entry_is(m, i, id) && (forall|j: int| #[trigger] entry_is(m, j, id) ==> j == i)
}

/// Index consistency: every stored node's identifier sits in exactly one
/// bucket of each of the by-kind, by-file and by-name indices, and keys
/// exactly one entry in each adjacency map.
pub open spec fn index_consistent(g: GraphV) -> bool {
    forall|i: int|
        0 <= i < g.nodes.len() ==> {
            let id = (#[trigger] g.nodes[i]).id;
            in_exactly_one_bucket(g.by_kind, id) && in_exactly_one_bucket(g.by_file, id)
                && in_exactly_one_bucket(g.by_name, id) && exactly_one_entry(g.outgoing, id)
                && exactly_one_entry(g.incoming, id)
        }
}

/// Every identifier found in a bucket belongs to a stored node.
pub open spec fn buckets_within<K>(m: Seq<(K, Seq<Seq<char>>)>, nodes: Seq<NodeV>) -> bool {
    forall|i: int, x: Seq<char>|
        (0 <= i < m.len() && (#[trigger] m[i].1.contains(x))) ==> node_first(nodes, x) is Some
}

/// No two adjacency entries share a key.
pub open spec fn adj_keys_unique(m: Seq<(Seq<char>, Seq<RelV>)>) -> bool {
    forall|i: int, j: int| 0 <= i < j < m.len() ==> (#[trigger] m[i].0) != (#[trigger] m[j].0)
}

/// The store invariant behind index consistency: consistency itself, index
/// buckets that only name stored nodes, and adjacency maps without repeated
/// keys.
pub open spec fn store_inv(g: GraphV) -> bool {
    index_consistent(g) && buckets_within(g.by_kind, g.nodes) && buckets_within(
        g.by_file,
        g.nodes,
    ) && buckets_within(g.by_name, g.nodes) && adj_keys_unique(g.outgoing) && adj_keys_unique(
        g.incoming,
    )
}

/// There is a stored node under `x` exactly when some position holds it.
proof fn lemma_node_first_exists(nodes: Seq<NodeV>, x: Seq<char>)
    ensures
        (node_first(nodes, x) is Some) == (exists|j: int|
            0 <= j < nodes.len() && (#[trigger] nodes[j]).id == x),
{
    lemma_node_first(nodes, x);
    if node_first(nodes, x) is Some {
        let i = node_first(nodes, x)->Some_0;
        assert(nodes[i].id == x);
    }
}

/// How `bucket_add` changes membership: other identifiers keep their
/// buckets; the added identifier lands in exactly one bucket if it was in
/// none.
proof fn lemma_bucket_add_membership<K>(m: Seq<(K, Seq<Seq<char>>)>, k: K, id: Seq<char>)
    ensures
        forall|i: int, x: Seq<char>|
            x != id ==> (#[trigger] bucket_has(bucket_add(m, k, id), i, x)) == bucket_has(m, i, x),
        forall|i: int, x: Seq<char>| bucket_has(m, i, x) ==> #[trigger] bucket_has(
            bucket_add(m, k, id),
            i,
            x,
        ),
        (forall|i: int| !(#[trigger] bucket_has(m, i, id))) ==> in_exactly_one_bucket(
            bucket_add(m, k, id),
            id,
        ),
{
    lemma_assoc_first(m, k);
    let r = bucket_add(m, k, id);
    match assoc_first(m, k) {
        Some(t) => {
            if m[t].1.contains(id) {
                assert(r == m);
                if forall|i: int| !(#[trigger] bucket_has(m, i, id)) {
                    assert(!bucket_has(m, t, id));
                    assert(false);
                }
            } else {
                assert(r == m.update(t, (k, m[t].1.push(id))));
                assert forall|i: int, x: Seq<char>| x != id implies (#[trigger] bucket_has(
                    r,
                    i,
                    x,
                )) == bucket_has(m, i, x) by {
                    if 0 <= i < m.len() {
                        if i == t {
                            assert(m[t].1.push(id).contains(x) == m[t].1.contains(x)) by {
                                if m[t].1.push(id).contains(x) {
                                    let w = choose|w: int|
                                        0 <= w < m[t].1.push(id).len() && m[t].1.push(id)[w] == x;
                                    assert(w < m[t].1.len());
                                    assert(m[t].1[w] == x);
                                }
                                if m[t].1.contains(x) {
                                    let w = choose|w: int|
                                        0 <= w < m[t].1.len() && m[t].1[w] == x;
                                    assert(m[t].1.push(id)[w] == x);
                                }
                            }
                        }
                    }
                }
                assert forall|i: int, x: Seq<char>| bucket_has(m, i, x) implies #[trigger] bucket_has(
                    r,
                    i,
                    x,
                ) by {
                    if i == t {
                        let w = choose|w: int| 0 <= w < m[t].1.len() && m[t].1[w] == x;
                        assert(m[t].1.push(id)[w] == x);
                    }
                }
                if forall|i: int| !(#[trigger] bucket_has(m, i, id)) {
                    assert(m[t].1.push(id)[m[t].1.len() as int] == id);
                    assert(bucket_has(r, t, id));
                    assert forall|j: int| #[trigger] bucket_has(r, j, id) implies j == t by {
                        if j != t {
                            assert(r[j] == m[j]);
                            assert(!bucket_has(m, j, id));
                        }
                    }
                }
            }
        },
        None => {
            assert(r == m.push((k, seq![id])));
            assert forall|i: int, x: Seq<char>| x != id implies (#[trigger] bucket_has(r, i, x))
                == bucket_has(m, i, x) by {
                if i == m.len() {
                    assert(!bucket_has(m, i, x));
                    if seq![id].contains(x) {
                        let w = choose|w: int| 0 <= w < seq![id].len() && seq![id][w] == x;
                        assert(seq![id][0] == id);
                    }
                }
            }
            assert forall|i: int, x: Seq<char>| bucket_has(m, i, x) implies #[trigger] bucket_has(
                r,
                i,
                x,
            ) by {}
            if forall|i: int| !(#[trigger] bucket_has(m, i, id)) {
                assert(seq![id][0] == id);
                assert(bucket_has(r, m.len() as int, id));
                assert forall|j: int| #[trigger] bucket_has(r, j, id) implies j == m.len() as int
                    by {
                    if j < m.len() {
                        assert(r[j] == m[j]);
                        assert(!bucket_has(m, j, id));
                    }
                }
            }
        },
    }
}

/// The empty store is index consistent.
pub proof fn lemma_store_inv_empty()
    ensures
        store_inv(empty_graph_v()),
{
}

/// Inserting a node under a fresh identifier keeps the store index
/// consistent: the new identifier lands in exactly one bucket of each index
/// and keys exactly one adjacency entry, and no other node moves.
pub proof fn lemma_store_inv_add_node(g: GraphV, n: NodeV)
    requires
        store_inv(g),
        node_first(g.nodes, n.id) is None,
    ensures
        store_inv(add_node_v(g, n)),
{
    let r = add_node_v(g, n);
    lemma_node_first(g.nodes, n.id);
    assert(r.nodes == g.nodes.push(n));
    // No stored node carries the fresh identifier, so no bucket holds it.
    assert forall|i: int| !(#[trigger] bucket_has(g.by_kind, i, n.id)) by {
        if bucket_has(g.by_kind, i, n.id) {
            lemma_node_first_exists(g.nodes, n.id);
        }
    }
    assert forall|i: int| !(#[trigger] bucket_has(g.by_file, i, n.id)) by {
        if bucket_has(g.by_file, i, n.id) {
            lemma_node_first_exists(g.nodes, n.id);
        }
    }
    assert forall|i: int| !(#[trigger] bucket_has(g.by_name, i, n.id)) by {
        if bucket_has(g.by_name, i, n.id) {
            lemma_node_first_exists(g.nodes, n.id);
        }
    }
    lemma_bucket_add_membership(g.by_kind, n.node_type, n.id);
    lemma_bucket_add_membership(g.by_file, n.file_path, n.id);
    lemma_bucket_add_membership(g.by_name, n.name, n.id);
    // Adjacency: an entry under the identifier exists afterwards, and keys
    // stay unique.
    lemma_assoc_first(g.outgoing, n.id);
    lemma_assoc_first(g.incoming, n.id);
    assert(adj_keys_unique(r.outgoing) && exactly_one_entry(r.outgoing, n.id)) by {
        lemma_adj_ensure_entry(g.outgoing, n.id);
    }
    assert(adj_keys_unique(r.incoming) && exactly_one_entry(r.incoming, n.id)) by {
        lemma_adj_ensure_entry(g.incoming, n.id);
    }
    // Old nodes keep their identifiers distinct from the fresh one.
    assert forall|i: int| 0 <= i < g.nodes.len() implies (#[trigger] g.nodes[i]).id != n.id by {
        lemma_node_first_exists(g.nodes, n.id);
    }
    assert forall|i: int| 0 <= i < r.nodes.len() implies {
        let id = (#[trigger] r.nodes[i]).id;
        in_exactly_one_bucket(r.by_kind, id) && in_exactly_one_bucket(r.by_file, id)
            && in_exactly_one_bucket(r.by_name, id) && exactly_one_entry(r.outgoing, id)
            && exactly_one_entry(r.incoming, id)
    } by {
        let id = r.nodes[i].id;
        if i < g.nodes.len() {
            assert(r.nodes[i] == g.nodes[i]);
            assert(in_exactly_one_bucket(g.by_kind, id));
            lemma_one_bucket_preserved(g.by_kind, r.by_kind, id, n.id);
            lemma_one_bucket_preserved(g.by_file, r.by_file, id, n.id);
            lemma_one_bucket_preserved(g.by_name, r.by_name, id, n.id);
            lemma_adj_entry_preserved(g.outgoing, n.id, id);
            lemma_adj_entry_preserved(g.incoming, n.id, id);
        } else {
            assert(id == n.id);
        }
    }
    // Buckets still name stored nodes only.
    lemma_buckets_within_add(g.by_kind, n.node_type, g.nodes, n);
    lemma_buckets_within_add(g.by_file, n.file_path, g.nodes, n);
    lemma_buckets_within_add(g.by_name, n.name, g.nodes, n);
}

/// Growing an index by a node's identifier keeps every bucketed identifier
/// naming a node of the grown store.
proof fn lemma_buckets_within_add<K>(m: Seq<(K, Seq<Seq<char>>)>, k: K, nodes: Seq<NodeV>, n: NodeV)
    requires
        buckets_within(m, nodes),
    ensures
        buckets_within(bucket_add(m, k, n.id), nodes.push(n)),
{
    lemma_bucket_add_membership(m, k, n.id);
    let r = bucket_add(m, k, n.id);
    assert forall|i: int, x: Seq<char>|
        (0 <= i < r.len() && (#[trigger] r[i].1.contains(x))) implies node_first(
        nodes.push(n),
        x,
    ) is Some by {
        if x != n.id {
            assert(bucket_has(r, i, x));
            assert(bucket_has(m, i, x));
            lemma_node_first_exists(nodes, x);
            lemma_node_first_exists(nodes.push(n), x);
            let w = choose|w: int| 0 <= w < nodes.len() && nodes[w].id == x;
            assert(nodes.push(n)[w].id == x);
        } else {
            lemma_node_first_exists(nodes.push(n), x);
            assert(nodes.push(n)[nodes.len() as int].id == x);
        }
    }
}

/// After `adj_ensure`, keys are still unique and the key has exactly one
/// entry.
proof fn lemma_adj_ensure_entry(m: Seq<(Seq<char>, Seq<RelV>)>, k: Seq<char>)
    requires
        adj_keys_unique(m),
    ensures
        adj_keys_unique(adj_ensure(m, k)),
        exactly_one_entry(adj_ensure(m, k), k),
        forall|x: Seq<char>|
            #[trigger] exactly_one_entry(m, x) ==> exactly_one_entry(adj_ensure(m, k), x),
{
    lemma_assoc_first(m, k);
    let r = adj_ensure(m, k);
    match assoc_first(m, k) {
        Some(t) => {
            assert(r == m);
            assert(entry_is(m, t, k));
            assert forall|j: int| #[trigger] entry_is(m, j, k) implies j == t by {
                if j != t && entry_is(m, j, k) {
                    if j < t {
                        assert(m[j].0 != m[t].0);
                    } else {
                        assert(m[t].0 != m[j].0);
                    }
                }
            }
        },
        None => {
            assert(r == m.push((k, Seq::<RelV>::empty())));
            assert(entry_is(r, m.len() as int, k));
            assert forall|j: int| #[trigger] entry_is(r, j, k) implies j == m.len() as int by {
                if j < m.len() {
                    assert(m[j].0 != k);
                }
            }
            assert forall|x: Seq<char>| #[trigger] exactly_one_entry(m, x) implies exactly_one_entry(
                r,
                x,
            ) by {
                let t = choose|t: int|
                    #[trigger] entry_is(m, t, x) && (forall|j: int|
                        #[trigger] entry_is(m, j, x) ==> j == t);
                assert(entry_is(r, t, x));
                assert forall|j: int| #[trigger] entry_is(r, j, x) implies j == t by {
                    if j < m.len() {
                        assert(entry_is(m, j, x));
                    } else {
                        assert(m[t].0 == x && x == k);
                        assert(m[t].0 != k);
                    }
                }
            }
        },
    }
}

/// An identifier in exactly one bucket of `m` stays in exactly one bucket
/// after another identifier is added.
proof fn lemma_one_bucket_preserved<K>(
    m: Seq<(K, Seq<Seq<char>>)>,
    r: Seq<(K, Seq<Seq<char>>)>,
    id: Seq<char>,
    added: Seq<char>,
)
    requires
        in_exactly_one_bucket(m, id),
        id != added,
        forall|i: int, x: Seq<char>|
            x != added ==> (#[trigger] bucket_has(r, i, x)) == bucket_has(m, i, x),
    ensures
        in_exactly_one_bucket(r, id),
{
    let t = choose|t: int|
        #[trigger] bucket_has(m, t, id) && (forall|j: int| #[trigger] bucket_has(m, j, id) ==> j
            == t);
    assert(bucket_has(r, t, id));
    assert forall|j: int| #[trigger] bucket_has(r, j, id) implies j == t by {
        assert(bucket_has(m, j, id));
    }
}

/// A node identifier different from the key being appended keeps exactly
/// one adjacency entry.
proof fn lemma_adj_entry_preserved(m: Seq<(Seq<char>, Seq<RelV>)>, k: Seq<char>, id: Seq<char>)
    requires
        exactly_one_entry(m, id),
        id != k,
    ensures
        exactly_one_entry(adj_ensure(m, k), id),
{
    lemma_assoc_first(m, k);
    let r = adj_ensure(m, k);
    let t = choose|t: int|
        #[trigger] entry_is(m, t, id) && (forall|j: int| #[trigger] entry_is(m, j, id) ==> j == t);
    match assoc_first(m, k) {
        Some(_) => {
            assert(r == m);
        },
        None => {
            assert(entry_is(r, t, id));
            assert forall|j: int| #[trigger] entry_is(r, j, id) implies j == t by {
                if j < m.len() {
                    assert(entry_is(m, j, id));
                } else {
                    assert(r[j].0 == k);
                }
            }
        },
    }
}

/// Appending an edge keeps the store index consistent: adjacency keys stay
/// unique, every node identifier keeps exactly one entry in each direction,
/// and the indices and nodes do not move.
pub proof fn lemma_store_inv_add_rel(g: GraphV, e: RelV)
    requires
        store_inv(g),
    ensures
        store_inv(add_rel_v(g, e)),
{
    let r = add_rel_v(g, e);
    lemma_adj_append_keys(g.outgoing, e.from_id, e);
    lemma_adj_append_keys(g.incoming, e.to_id, e);
    assert forall|i: int| 0 <= i < r.nodes.len() implies {
        let id = (#[trigger] r.nodes[i]).id;
        in_exactly_one_bucket(r.by_kind, id) && in_exactly_one_bucket(r.by_file, id)
            && in_exactly_one_bucket(r.by_name, id) && exactly_one_entry(r.outgoing, id)
            && exactly_one_entry(r.incoming, id)
    } by {
        let id = r.nodes[i].id;
        assert(g.nodes[i].id == id);
        lemma_adj_append_entry_preserved(g.outgoing, e.from_id, e, id);
        lemma_adj_append_entry_preserved(g.incoming, e.to_id, e, id);
    }
}

/// `adj_append` keeps adjacency keys unique.
proof fn lemma_adj_append_keys(m: Seq<(Seq<char>, Seq<RelV>)>, k: Seq<char>, e: RelV)
    requires
        adj_keys_unique(m),
    ensures
        adj_keys_unique(adj_append(m, k, e)),
{
    lemma_assoc_first(m, k);
    let r = adj_append(m, k, e);
    match assoc_first(m, k) {
        Some(t) => {
            assert forall|i: int, j: int| 0 <= i < j < r.len() implies (#[trigger] r[i].0)
                != (#[trigger] r[j].0) by {
                assert(r[i].0 == m[i].0);
                assert(r[j].0 == m[j].0);
            }
        },
        None => {
            assert forall|i: int, j: int| 0 <= i < j < r.len() implies (#[trigger] r[i].0)
                != (#[trigger] r[j].0) by {
                if j == m.len() {
                    assert(m[i].0 != k);
                } else {
                    assert(r[i].0 == m[i].0);
                    assert(r[j].0 == m[j].0);
                }
            }
        },
    }
}

/// An identifier with exactly one adjacency entry keeps exactly one after
/// an edge is appended.
proof fn lemma_adj_append_entry_preserved(
    m: Seq<(Seq<char>, Seq<RelV>)>,
    k: Seq<char>,
    e: RelV,
    id: Seq<char>,
)
    requires
        exactly_one_entry(m, id),
    ensures
        exactly_one_entry(adj_append(m, k, e), id),
{
    lemma_assoc_first(m, k);
    let r = adj_append(m, k, e);
    let t = choose|t: int|
        #[trigger] entry_is(m, t, id) && (forall|j: int| #[trigger] entry_is(m, j, id) ==> j == t);
    match assoc_first(m, k) {
        Some(u) => {
            assert(entry_is(r, t, id));
            assert forall|j: int| #[trigger] entry_is(r, j, id) implies j == t by {
                assert(r[j].0 == m[j].0);
                assert(entry_is(m, j, id));
            }
        },
        None => {
            assert(entry_is(r, t, id));
            assert forall|j: int| #[trigger] entry_is(r, j, id) implies j == t by {
                if j < m.len() {
                    assert(entry_is(m, j, id));
                } else {
                    assert(r[j].0 == k);
                    assert(m[t].0 != k);
                }
            }
        },
    }
}

/// Rewriting the descriptive fields of a stored node — its identifier kept
/// — leaves the store index consistent.
pub proof fn lemma_store_inv_update_node(g: GraphV, i: int, n2: NodeV)
    requires
        store_inv(g),
        0 <= i < g.nodes.len(),
        n2.id == g.nodes[i].id,
    ensures
        store_inv(GraphV { nodes: g.nodes.update(i, n2), ..g }),
{
    let r = GraphV { nodes: g.nodes.update(i, n2), ..g };
    assert forall|j: int| 0 <= j < r.nodes.len() implies {
        let id = (#[trigger] r.nodes[j]).id;
        in_exactly_one_bucket(r.by_kind, id) && in_exactly_one_bucket(r.by_file, id)
            && in_exactly_one_bucket(r.by_name, id) && exactly_one_entry(r.outgoing, id)
            && exactly_one_entry(r.incoming, id)
    } by {
        assert(r.nodes[j].id == g.nodes[j].id);
    }
    assert forall|j: int, x: Seq<char>|
        (0 <= j < r.by_kind.len() && (#[trigger] r.by_kind[j].1.contains(x))) implies node_first(
        r.nodes,
        x,
    ) is Some by {
        lemma_node_first_exists(g.nodes, x);
        lemma_node_first_exists(r.nodes, x);
        let w = choose|w: int| 0 <= w < g.nodes.len() && g.nodes[w].id == x;
        assert(r.nodes[w].id == x);
    }
    assert forall|j: int, x: Seq<char>|
        (0 <= j < r.by_file.len() && (#[trigger] r.by_file[j].1.contains(x))) implies node_first(
        r.nodes,
        x,
    ) is Some by {
        lemma_node_first_exists(g.nodes, x);
        lemma_node_first_exists(r.nodes, x);
        let w = choose|w: int| 0 <= w < g.nodes.len() && g.nodes[w].id == x;
        assert(r.nodes[w].id == x);
    }
    assert forall|j: int, x: Seq<char>|
        (0 <= j < r.by_name.len() && (#[trigger] r.by_name[j].1.contains(x))) implies node_first(
        r.nodes,
        x,
    ) is Some by {
        lemma_node_first_exists(g.nodes, x);
        lemma_node_first_exists(r.nodes, x);
        let w = choose|w: int| 0 <= w < g.nodes.len() && g.nodes[w].id == x;
        assert(r.nodes[w].id == x);
    }
}

/// Adds `id` under key `k` in a string-keyed index.
fn bucket_add_str(m: &mut Vec<(String, Vec<String>)>, k: &String, id: &String)
    ensures
        vb(final(m)@) == bucket_add(vb(old(m)@), k@, id@),
{
    let n = m.len();
    let mut i: usize = 0;
    while i < n
        invariant
            0 <= i <= n,
            n == m.len(),
            m@ == old(m)@,
            forall|j: int| 0 <= j < i ==> (#[trigger] vb(m@)[j]).0 != k@,
        decreases n - i,
    {
        if m[i].0 == *k {
            proof {
                assert(vb(m@)[i as int].0 == k@);
                lemma_assoc_first(vb(m@), k@);
                if let Some(f) = assoc_first(vb(m@), k@) {
                    if f < i {
                        assert(vb(m@)[f].0 != k@);
                    }
                }
                assert(assoc_first(vb(m@), k@) == Some(i as int));
                assert(vb(m@)[i as int].1 == vids(m@[i as int].1@));
            }
            let present = vec_contains_str(&m[i].1, id);
            if !present {
                m[i].1.push(id.clone());
                proof {
                    assert(m@ == old(m)@.update(
                        i as int,
                        (old(m)@[i as int].0, m@[i as int].1),
                    ));
                    assert(m@[i as int].1@ =~= old(m)@[i as int].1@.push(m@[i as int].1@.last()));
                    assert(vids(m@[i as int].1@) =~= vids(old(m)@[i as int].1@).push(id@));
                    assert(vb(m@) =~~= bucket_add(vb(old(m)@), k@, id@));
                }
            } else {
                proof {
                    assert(vb(m@) =~~= bucket_add(vb(old(m)@), k@, id@));
                }
            }
            return ;
        }
        i += 1;
    }
    proof {
        lemma_assoc_first(vb(m@), k@);
    }
    m.push((k.clone(), vec![id.clone()]));
    proof {
        assert(vids(m@.last().1@) =~= seq![id@]);
        assert(vb(m@) =~~= bucket_add(vb(old(m)@), k@, id@));
    }
}

/// Adds `id` under kind `k` in the kind-keyed index.
fn bucket_add_kind(m: &mut Vec<(NodeType, Vec<String>)>, k: NodeType, id: &String)
    ensures
        vk(final(m)@) == bucket_add(vk(old(m)@), k, id@),
{
    let n = m.len();
    let mut i: usize = 0;
    while i < n
        invariant
            0 <= i <= n,
            n == m.len(),
            m@ == old(m)@,
            forall|j: int| 0 <= j < i ==> (#[trigger] vk(m@)[j]).0 != k,
        decreases n - i,
    {
        if m[i].0 == k {
            proof {
                assert(vk(m@)[i as int].0 == k);
                lemma_assoc_first(vk(m@), k);
                if let Some(f) = assoc_first(vk(m@), k) {
                    if f < i {
                        assert(vk(m@)[f].0 != k);
                    }
                }
                assert(assoc_first(vk(m@), k) == Some(i as int));
                assert(vk(m@)[i as int].1 == vids(m@[i as int].1@));
            }
            let present = vec_contains_str(&m[i].1, id);
            if !present {
                m[i].1.push(id.clone());
                proof {
                    assert(m@ == old(m)@.update(
                        i as int,
                        (old(m)@[i as int].0, m@[i as int].1),
                    ));
                    assert(vids(m@[i as int].1@) =~= vids(old(m)@[i as int].1@).push(id@));
                    assert(vk(m@) =~~= bucket_add(vk(old(m)@), k, id@));
                }
            } else {
                proof {
                    assert(vk(m@) =~~= bucket_add(vk(old(m)@), k, id@));
                }
            }
            return ;
        }
        i += 1;
    }
    proof {
        lemma_assoc_first(vk(m@), k);
    }
    m.push((k, vec![id.clone()]));
    proof {
        assert(vids(m@.last().1@) =~= seq![id@]);
        assert(vk(m@) =~~= bucket_add(vk(old(m)@), k, id@));
    }
}

/// Makes sure an adjacency entry exists under `k`.
fn adj_ensure_entry(m: &mut Vec<(String, Vec<Relationship>)>, k: &String)
    ensures
        va(final(m)@) == adj_ensure(va(old(m)@), k@),
{
    let n = m.len();
    let mut i: usize = 0;
    while i < n
        invariant
            0 <= i <= n,
            n == m.len(),
            m@ == old(m)@,
            forall|j: int| 0 <= j < i ==> (#[trigger] va(m@)[j]).0 != k@,
        decreases n - i,
    {
        if m[i].0 == *k {
            proof {
                assert(va(m@)[i as int].0 == k@);
                lemma_assoc_first(va(m@), k@);
                if let Some(f) = assoc_first(va(m@), k@) {
                    if f < i {
                        assert(va(m@)[f].0 != k@);
                    }
                }
            }
            return ;
        }
        i += 1;
    }
    proof {
        lemma_assoc_first(va(m@), k@);
    }
    m.push((k.clone(), Vec::new()));
    proof {
        assert(m@.last().1@.map_values(|r: Relationship| r@) =~= Seq::<RelV>::empty());
        assert(va(m@) =~~= adj_ensure(va(old(m)@), k@));
    }
}

/// Appends `e` to the adjacency entry under its own source key.
fn adj_append_edge(m: &mut Vec<(String, Vec<Relationship>)>, e: Relationship)
    ensures
        va(final(m)@) == adj_append(va(old(m)@), e@.from_id, e@),
{
    let key = e.from_id.clone();
    adj_append_edge_to(m, &key, e);
}

/// Appends `e` to the adjacency entry under `k`.
fn adj_append_edge_to(m: &mut Vec<(String, Vec<Relationship>)>, k: &String, e: Relationship)
    requires
        k@ == e@.from_id || k@ == e@.to_id,
    ensures
        va(final(m)@) == adj_append(va(old(m)@), k@, e@),
{
    let n = m.len();
    let mut i: usize = 0;
    while i < n
        invariant
            0 <= i <= n,
            n == m.len(),
            m@ == old(m)@,
            forall|j: int| 0 <= j < i ==> (#[trigger] va(m@)[j]).0 != k@,
        decreases n - i,
    {
        if m[i].0 == *k {
            proof {
                assert(va(m@)[i as int].0 == k@);
                lemma_assoc_first(va(m@), k@);
                if let Some(f) = assoc_first(va(m@), k@) {
                    if f < i {
                        assert(va(m@)[f].0 != k@);
                    }
                }
                assert(assoc_first(va(m@), k@) == Some(i as int));
            }
            let ghost e_v = e@;
            m[i].1.push(e);
            proof {
                assert(m@ == old(m)@.update(i as int, (old(m)@[i as int].0, m@[i as int].1)));
                assert(m@[i as int].1@.map_values(|r: Relationship| r@) =~= old(m)@[i as int].1@
                    .map_values(|r: Relationship| r@).push(e_v));
                assert(va(m@) =~~= adj_append(va(old(m)@), k@, e_v));
            }
            return ;
        }
        i += 1;
    }
    proof {
        lemma_assoc_first(va(m@), k@);
    }
    let ghost e_v = e@;
    m.push((k.clone(), vec![e]));
    proof {
        assert(m@.last().1@.map_values(|r: Relationship| r@) =~= seq![e_v]);
        assert(va(m@) =~~= adj_append(va(old(m)@), k@, e_v));
    }
}

/// Whether `x` reads as one of the strings of `v`.
fn vec_contains_str(v: &Vec<String>, x: &String) -> (r: bool)
    ensures
        r == vids(v@).contains(x@),
{
    let n = v.len();
    let mut i: usize = 0;
    while i < n
        invariant
            0 <= i <= n,
            n == v.len(),
            forall|j: int| 0 <= j < i ==> vids(v@)[j] != x@,
        decreases n - i,
    {
        if v[i] == *x {
            proof {
                assert(vids(v@)[i as int] == x@);
            }
            return true;
        }
        i += 1;
    }
    proof {
        assert(!vids(v@).contains(x@)) by {
            if vids(v@).contains(x@) {
                let w = choose|w: int| 0 <= w < vids(v@).len() && vids(v@)[w] == x@;
                assert(vids(v@)[w] != x@);
            }
        }
    }
    false
}

} // verus!

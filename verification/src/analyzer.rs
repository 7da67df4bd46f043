//! The relationship-inference engine and the enhancement passes.
//!
//! Inference is a single sequential pass over an already-populated store.
//! The per-language extraction collaborator has already turned each readable
//! file into plain name lists — which names each function calls, which
//! modules the file imports — and inference derives candidate edges from
//! those lists and the store, deduplicates them by (from, to, kind), and
//! inserts them.  Matching is deliberately name-based and whole-program: a
//! called name fans out to every same-named function anywhere in the store.

use vstd::prelude::*;

use crate::graph::{add_rel_v, CodeGraph, GraphV, node_get, nodes_distinct};
use crate::node::{assoc_get, CodeNode, NodeType, NodeV};
use crate::relationship::{triple_of, EdgeT, RelV, Relationship, RelationshipType};
use crate::strutil::is_prefix_of;
use vstd::string::StringExecFns;

verus! {

broadcast use vstd::set::group_set_axioms;

/// The names called inside one node of a file, as the extraction
/// collaborator reports them.
pub struct CallList {
    pub caller_id: String,
    pub called_names: Vec<String>,
}

/// The mathematical reading of a call list.
pub ghost struct CallListV {
    pub caller_id: Seq<char>,
    pub called_names: Seq<Seq<char>>,
}

impl View for CallList {
    type V = CallListV;

    open spec fn view(&self) -> CallListV {
        CallListV {
            caller_id: self.caller_id@,
            called_names: self.called_names@.map_values(|s: String| s@),
        }
    }
}

/// The name lists extracted from one file: per-node called names and the
/// file's imported module names.  A file that could not be read or whose
/// language is unknown simply has no entry.
pub struct FileNames {
    pub file_path: String,
    pub calls: Vec<CallList>,
    pub imported_modules: Vec<String>,
}

/// The mathematical reading of a file's name lists.
pub ghost struct FileNamesV {
    pub file_path: Seq<char>,
    pub calls: Seq<CallListV>,
    pub imported_modules: Seq<Seq<char>>,
}

impl View for FileNames {
    type V = FileNamesV;

    open spec fn view(&self) -> FileNamesV {
        FileNamesV {
            file_path: self.file_path@,
            calls: self.calls@.map_values(|c: CallList| c@),
            imported_modules: self.imported_modules@.map_values(|s: String| s@),
        }
    }
}

/// The readings of a sequence of per-file name lists.
pub open spec fn files_v(s: Seq<FileNames>) -> Seq<FileNamesV> {
    s.map_values(|f: FileNames| f@)
}

/// Whether a node kind takes part in call resolution.
pub open spec fn is_fn_kind(k: NodeType) -> bool {
    k == NodeType::Function || k == NodeType::Method
}

/// Whether a node kind takes part in containment.
pub open spec fn is_class_kind(k: NodeType) -> bool {
    k == NodeType::Class || k == NodeType::Interface
}

/// Whether the node at position `i` belongs to the per-file grouping of
/// `f`: defined in that file with a name of at least three characters.
pub open spec fn in_file_grouped(nodes: Seq<NodeV>, f: Seq<char>, i: int) -> bool {
    0 <= i < nodes.len() && nodes[i].file_path == f && nodes[i].name.len() >= 3
}

/// Whether the identifier names a stored function or method of file `f`
/// with a name of at least three characters: only such nodes have their
/// call lists honoured.
pub open spec fn valid_caller(nodes: Seq<NodeV>, f: Seq<char>, cid: Seq<char>) -> bool {
    match node_get(nodes, cid) {
        Some(n) => n.file_path == f && is_fn_kind(n.node_type) && n.name.len() >= 3,
        None => false,
    }
}

/// Whether the node at position `t` is a call target for the name `nm`: a
/// function or method so named, the name at least three characters.
pub open spec fn is_call_target(nodes: Seq<NodeV>, nm: Seq<char>, t: int) -> bool {
    0 <= t < nodes.len() && is_fn_kind(nodes[t].node_type) && nodes[t].name == nm && nm.len() >= 3
}

/// The `Calls` edges one called name contributes for one caller: one edge
/// to every same-named function or method anywhere in the store, except the
/// caller itself.
pub open spec fn call_targets_edges(nodes: Seq<NodeV>, cid: Seq<char>, nm: Seq<char>) -> Set<
    EdgeT,
> {
    Set::new(
        |e: EdgeT|
            e.relationship_type == RelationshipType::Calls && e.from_id == cid && exists|t: int|
                is_call_target(nodes, nm, t) && (#[trigger] nodes[t].id) == e.to_id && e.to_id
                    != cid,
    )
}

/// The `Calls` edges one caller's list contributes.
pub open spec fn caller_edges(nodes: Seq<NodeV>, f: Seq<char>, cl: CallListV) -> Set<EdgeT> {
    Set::new(
        |e: EdgeT|
            valid_caller(nodes, f, cl.caller_id) && exists|k: int|
                0 <= k < cl.called_names.len() && call_targets_edges(
                    nodes,
                    cl.caller_id,
                    #[trigger] cl.called_names[k],
                ).contains(e),
    )
}

/// The `Calls` edges one file's name lists contribute.
pub open spec fn call_edges_of_file(nodes: Seq<NodeV>, fv: FileNamesV) -> Set<EdgeT> {
    Set::new(
        |e: EdgeT|
            exists|c: int|
                0 <= c < fv.calls.len() && caller_edges(
                    nodes,
                    fv.file_path,
                    #[trigger] fv.calls[c],
                ).contains(e),
    )
}

/// All `Calls` edges the call-resolution phase derives.
pub open spec fn call_edge_set(nodes: Seq<NodeV>, exts: Seq<FileNamesV>) -> Set<EdgeT> {
    Set::new(
        |e: EdgeT|
            exists|fx: int|
                0 <= fx < exts.len() && call_edges_of_file(nodes, #[trigger] exts[fx]).contains(e),
    )
}

/// The call-resolution phase never emits a self-edge.
pub proof fn lemma_no_self_calls(nodes: Seq<NodeV>, exts: Seq<FileNamesV>, e: EdgeT)
    requires
        call_edge_set(nodes, exts).contains(e),
    ensures
        e.from_id != e.to_id,
{
}

/// Whether `post` extends `pre` by edges that all belong to `s` and carry
/// empty metadata.
pub open spec fn new_part_sound(pre: Seq<Relationship>, post: Seq<Relationship>, s: Set<EdgeT>) -> bool {
    &&& post.len() >= pre.len()
    &&& post.take(pre.len() as int) == pre
    &&& forall|j: int|
        pre.len() <= j < post.len() ==> {
            let rv = (#[trigger] post[j])@;
            s.contains(triple_of(rv)) && rv.metadata == Seq::<(Seq<char>, Seq<char>)>::empty()
        }
}

/// Whether every edge of `s` occurs among the additions of `post` over
/// `pre`.
pub open spec fn new_part_complete(
    pre: Seq<Relationship>,
    post: Seq<Relationship>,
    s: Set<EdgeT>,
) -> bool {
    forall|e: EdgeT|
        #[trigger] s.contains(e) ==> exists|j: int|
            pre.len() <= j < post.len() && triple_of((#[trigger] post[j])@) == e
}

/// Two extensions in a row make one extension for the union of their sets.
pub proof fn lemma_new_part_compose(
    a: Seq<Relationship>,
    b: Seq<Relationship>,
    c: Seq<Relationship>,
    s1: Set<EdgeT>,
    s2: Set<EdgeT>,
)
    requires
        new_part_sound(a, b, s1),
        new_part_complete(a, b, s1),
        new_part_sound(b, c, s2),
        new_part_complete(b, c, s2),
    ensures
        new_part_sound(a, c, s1 + s2),
        new_part_complete(a, c, s1 + s2),
{
    assert(c.take(a.len() as int) =~= a) by {
        assert forall|i: int| 0 <= i < a.len() implies c.take(a.len() as int)[i] == a[i] by {
            assert(c.take(b.len() as int)[i] == b[i]);
            assert(b.take(a.len() as int)[i] == a[i]);
        }
    }
    assert forall|j: int| a.len() <= j < c.len() implies {
        let rv = (#[trigger] c[j])@;
        (s1 + s2).contains(triple_of(rv)) && rv.metadata == Seq::<(Seq<char>, Seq<char>)>::empty()
    } by {
        if j < b.len() {
            assert(c.take(b.len() as int)[j] == b[j]);
            assert(c[j] == b[j]);
        }
    }
    assert forall|e: EdgeT| #[trigger] (s1 + s2).contains(e) implies exists|j: int|
        a.len() <= j < c.len() && triple_of((#[trigger] c[j])@) == e by {
        if s1.contains(e) {
            let j = choose|j: int| a.len() <= j < b.len() && triple_of((#[trigger] b[j])@) == e;
            assert(c.take(b.len() as int)[j] == b[j]);
            assert(c[j] == b[j]);
            assert(triple_of(c[j]@) == e);
        } else {
            assert(s2.contains(e));
            let j = choose|j: int| b.len() <= j < c.len() && triple_of((#[trigger] c[j])@) == e;
            assert(triple_of(c[j]@) == e);
        }
    }
}

/// An extension by nothing.
pub proof fn lemma_new_part_empty(pre: Seq<Relationship>)
    ensures
        new_part_sound(pre, pre, Set::<EdgeT>::empty()),
        new_part_complete(pre, pre, Set::<EdgeT>::empty()),
{
    assert(pre.take(pre.len() as int) =~= pre);
}

/// Appends one `Calls` edge per target of one called name for one caller.
fn push_call_targets(
    graph: &CodeGraph,
    caller_id: &String,
    nm: &String,
    out: &mut Vec<Relationship>,
)
    ensures
        new_part_sound(old(out)@, final(out)@, call_targets_edges(graph@.nodes, caller_id@, nm@)),
        new_part_complete(
            old(out)@,
            final(out)@,
            call_targets_edges(graph@.nodes, caller_id@, nm@),
        ),
{
    if nm.as_str().unicode_len() < 3 {
        proof {
            assert(out@.take(out@.len() as int) =~= out@);
            assert forall|e: EdgeT|
                #[trigger] call_targets_edges(graph@.nodes, caller_id@, nm@).contains(
                    e,
                ) implies false by {}
        }
        return ;
    }
    let nodes = graph.all_nodes();
    let n = nodes.len();
    let mut t: usize = 0;
    while t < n
        invariant
            0 <= t <= n,
            n == nodes.len(),
            nodes@.map_values(|x: CodeNode| x@) == graph@.nodes,
            nm@.len() >= 3,
            out@.len() >= old(out)@.len(),
            out@.take(old(out)@.len() as int) == old(out)@,
            forall|j: int|
                old(out)@.len() <= j < out@.len() ==> {
                    let rv = (#[trigger] out@[j])@;
                    call_targets_edges(graph@.nodes, caller_id@, nm@).contains(triple_of(rv))
                        && rv.metadata == Seq::<(Seq<char>, Seq<char>)>::empty()
                },
            forall|w: int|
                0 <= w < t ==> (is_call_target(graph@.nodes, nm@, w) && (
                #[trigger] graph@.nodes[w]).id != caller_id@) ==> exists|j: int|
                    old(out)@.len() <= j < out@.len() && triple_of((#[trigger] out@[j])@)
                        == (EdgeT {
                        from_id: caller_id@,
                        to_id: graph@.nodes[w].id,
                        relationship_type: RelationshipType::Calls,
                    }),
        decreases n - t,
    {
        let node = &nodes[t];
        let is_fn = matches!(node.node_type, NodeType::Function | NodeType::Method);
        proof {
            assert(graph@.nodes[t as int] == node@);
        }
        if is_fn && crate::strutil::str_eq(node.name.as_str(), nm.as_str()) && !crate::strutil::str_eq(
            node.id.as_str(),
            caller_id.as_str(),
        ) {
            let ghost pre = out@;
            let edge = Relationship::new(
                RelationshipType::Calls,
                caller_id.clone(),
                node.id.clone(),
            );
            proof {
                assert(is_call_target(graph@.nodes, nm@, t as int));
                assert(triple_of(edge@).to_id == graph@.nodes[t as int].id);
                assert(triple_of(edge@).from_id == caller_id@);
                assert(triple_of(edge@).relationship_type == RelationshipType::Calls);
                assert(triple_of(edge@).to_id != caller_id@);
                assert(exists|tt: int|
                    is_call_target(graph@.nodes, nm@, tt) && (#[trigger] graph@.nodes[tt].id)
                        == triple_of(edge@).to_id && triple_of(edge@).to_id != caller_id@) by {
                    assert(is_call_target(graph@.nodes, nm@, t as int) && graph@.nodes[
                        t as int
                    ].id == triple_of(edge@).to_id && triple_of(edge@).to_id != caller_id@);
                }
                assert(call_targets_edges(graph@.nodes, caller_id@, nm@).contains(
                    triple_of(edge@),
                ));
            }
            out.push(edge);
            proof {
                assert(out@.take(old(out)@.len() as int) =~= pre.take(old(out)@.len() as int));
                assert(out@[out@.len() - 1] == edge);
                assert forall|w: int|
                    0 <= w < t + 1 && is_call_target(graph@.nodes, nm@, w) && (
                #[trigger] graph@.nodes[w]).id != caller_id@ implies exists|j: int|
                    old(out)@.len() <= j < out@.len() && triple_of((#[trigger] out@[j])@)
                        == (EdgeT {
                        from_id: caller_id@,
                        to_id: graph@.nodes[w].id,
                        relationship_type: RelationshipType::Calls,
                    }) by {
                    if w < t {
                        let j0 = choose|j0: int|
                            old(out)@.len() <= j0 < pre.len() && triple_of(
                                (#[trigger] pre[j0])@,
                            ) == (EdgeT {
                                from_id: caller_id@,
                                to_id: graph@.nodes[w].id,
                                relationship_type: RelationshipType::Calls,
                            });
                        assert(out@[j0] == pre[j0]);
                    } else {
                        assert(triple_of(out@[out@.len() - 1]@) == (EdgeT {
                            from_id: caller_id@,
                            to_id: graph@.nodes[w].id,
                            relationship_type: RelationshipType::Calls,
                        }));
                    }
                }
            }
        } else {
            proof {
                assert forall|w: int|
                    0 <= w < t + 1 && is_call_target(graph@.nodes, nm@, w) && (
                #[trigger] graph@.nodes[w]).id != caller_id@ implies exists|j: int|
                    old(out)@.len() <= j < out@.len() && triple_of((#[trigger] out@[j])@)
                        == (EdgeT {
                        from_id: caller_id@,
                        to_id: graph@.nodes[w].id,
                        relationship_type: RelationshipType::Calls,
                    }) by {
                    if w == t {
                        assert(!(is_call_target(graph@.nodes, nm@, t as int) && graph@.nodes[
                            t as int
                        ].id != caller_id@));
                    }
                }
            }
        }
        t += 1;
    }
    proof {
        assert forall|e: EdgeT|
            #[trigger] call_targets_edges(graph@.nodes, caller_id@, nm@).contains(
                e,
            ) implies exists|j: int|
            old(out)@.len() <= j < out@.len() && triple_of((#[trigger] out@[j])@) == e by {
            let w = choose|w: int|
                is_call_target(graph@.nodes, nm@, w) && (#[trigger] graph@.nodes[w].id) == e.to_id
                    && e.to_id != caller_id@;
            assert(e == (EdgeT {
                from_id: caller_id@,
                to_id: graph@.nodes[w].id,
                relationship_type: RelationshipType::Calls,
            }));
        }
    }
}

/// Appends the `Calls` edges of one caller's list, if the caller is a
/// stored function or method of the file with a long enough name.
fn push_caller_edges(graph: &CodeGraph, file_path: &String, cl: &CallList, out: &mut Vec<Relationship>)
    ensures
        new_part_sound(old(out)@, final(out)@, caller_edges(graph@.nodes, file_path@, cl@)),
        new_part_complete(old(out)@, final(out)@, caller_edges(graph@.nodes, file_path@, cl@)),
{
    let valid = match graph.get_node(cl.caller_id.as_str()) {
        Some(n) => {
            crate::strutil::str_eq(n.file_path.as_str(), file_path.as_str()) && matches!(
                n.node_type,
                NodeType::Function | NodeType::Method,
            ) && n.name.as_str().unicode_len() >= 3
        },
        None => false,
    };
    proof {
        assert(valid == valid_caller(graph@.nodes, file_path@, cl@.caller_id));
    }
    if !valid {
        proof {
            assert(out@.take(out@.len() as int) =~= out@);
            assert forall|e: EdgeT|
                #[trigger] caller_edges(graph@.nodes, file_path@, cl@).contains(
                    e,
                ) implies false by {}
        }
        return ;
    }
    let n = cl.called_names.len();
    let mut k: usize = 0;
    proof {
        lemma_new_part_empty(out@);
        assert(prefix_caller_edges(graph@.nodes, cl@, 0) =~= Set::<EdgeT>::empty());
    }
    while k < n
        invariant
            0 <= k <= n,
            n == cl.called_names.len(),
            valid_caller(graph@.nodes, file_path@, cl@.caller_id),
            new_part_sound(old(out)@, out@, prefix_caller_edges(graph@.nodes, cl@, k as int)),
            new_part_complete(old(out)@, out@, prefix_caller_edges(graph@.nodes, cl@, k as int)),
        decreases n - k,
    {
        let ghost pre = out@;
        push_call_targets(graph, &cl.caller_id, &cl.called_names[k], out);
        proof {
            assert(cl@.called_names[k as int] == cl.called_names@[k as int]@);
            lemma_new_part_compose(
                old(out)@,
                pre,
                out@,
                prefix_caller_edges(graph@.nodes, cl@, k as int),
                call_targets_edges(graph@.nodes, cl@.caller_id, cl@.called_names[k as int]),
            );
            assert(prefix_caller_edges(graph@.nodes, cl@, k as int + 1) =~= prefix_caller_edges(
                graph@.nodes,
                cl@,
                k as int,
            ) + call_targets_edges(graph@.nodes, cl@.caller_id, cl@.called_names[k as int]));
        }
        k += 1;
    }
    proof {
        assert(caller_edges(graph@.nodes, file_path@, cl@) =~= prefix_caller_edges(
            graph@.nodes,
            cl@,
            n as int,
        ));
    }
}

/// The `Calls` edges of the first `k` called names of one caller.
pub open spec fn prefix_caller_edges(nodes: Seq<NodeV>, cl: CallListV, k: int) -> Set<EdgeT> {
    Set::new(
        |e: EdgeT|
            exists|i: int|
                0 <= i < k && i < cl.called_names.len() && call_targets_edges(
                    nodes,
                    cl.caller_id,
                    #[trigger] cl.called_names[i],
                ).contains(e),
    )
}

/// Derives the `Calls` candidate edges of one file: for every reported
/// caller of the file and every called name of at least three characters,
/// one edge to each same-named function or method anywhere in the store,
/// self-calls excepted.
pub fn find_function_call_relationships(
    graph: &CodeGraph,
    file: &FileNames,
    relationships: &mut Vec<Relationship>,
)
    ensures
        new_part_sound(
            old(relationships)@,
            final(relationships)@,
            call_edges_of_file(graph@.nodes, file@),
        ),
        new_part_complete(
            old(relationships)@,
            final(relationships)@,
            call_edges_of_file(graph@.nodes, file@),
        ),
{
    let n = file.calls.len();
    let mut c: usize = 0;
    proof {
        lemma_new_part_empty(relationships@);
        assert(prefix_file_call_edges(graph@.nodes, file@, 0) =~= Set::<EdgeT>::empty());
    }
    while c < n
        invariant
            0 <= c <= n,
            n == file.calls.len(),
            new_part_sound(
                old(relationships)@,
                relationships@,
                prefix_file_call_edges(graph@.nodes, file@, c as int),
            ),
            new_part_complete(
                old(relationships)@,
                relationships@,
                prefix_file_call_edges(graph@.nodes, file@, c as int),
            ),
        decreases n - c,
    {
        let ghost pre = relationships@;
        push_caller_edges(graph, &file.file_path, &file.calls[c], relationships);
        proof {
            assert(file@.calls[c as int] == file.calls@[c as int]@);
            lemma_new_part_compose(
                old(relationships)@,
                pre,
                relationships@,
                prefix_file_call_edges(graph@.nodes, file@, c as int),
                caller_edges(graph@.nodes, file@.file_path, file@.calls[c as int]),
            );
            assert(prefix_file_call_edges(graph@.nodes, file@, c as int + 1)
                =~= prefix_file_call_edges(graph@.nodes, file@, c as int) + caller_edges(
                graph@.nodes,
                file@.file_path,
                file@.calls[c as int],
            ));
        }
        c += 1;
    }
    proof {
        assert(call_edges_of_file(graph@.nodes, file@) =~= prefix_file_call_edges(
            graph@.nodes,
            file@,
            n as int,
        ));
    }
}

/// The `Calls` edges of the first `c` callers of one file.
pub open spec fn prefix_file_call_edges(nodes: Seq<NodeV>, fv: FileNamesV, c: int) -> Set<EdgeT> {
    Set::new(
        |e: EdgeT|
            exists|i: int|
                0 <= i < c && i < fv.calls.len() && caller_edges(
                    nodes,
                    fv.file_path,
                    #[trigger] fv.calls[i],
                ).contains(e),
    )
}

/// Whether the node at position `t` matches the imported name `m` for a
/// file `f`: a module, class or interface defined in another file, matched
/// by name or by the stem of its file.
pub open spec fn import_match(nodes: Seq<NodeV>, f: Seq<char>, m: Seq<char>, t: int) -> bool {
    0 <= t < nodes.len() && (nodes[t].node_type == NodeType::Module || is_class_kind(
        nodes[t].node_type,
    )) && nodes[t].file_path != f && (nodes[t].name == m || crate::detect::file_stem_of(
        nodes[t].file_path,
    ) == m)
}

/// Whether `t` is the first matching position: import resolution stops at
/// the first match.
pub open spec fn is_first_import_match(
    nodes: Seq<NodeV>,
    f: Seq<char>,
    m: Seq<char>,
    t: int,
) -> bool {
    import_match(nodes, f, m, t) && (forall|j: int| 0 <= j < t ==> !import_match(nodes, f, m, j))
}

/// The `Imports` edges one imported name contributes: from every node of
/// the importing file's grouping to the first matching target, if any.
pub open spec fn import_target_edges(nodes: Seq<NodeV>, f: Seq<char>, m: Seq<char>) -> Set<
    EdgeT,
> {
    Set::new(
        |e: EdgeT|
            e.relationship_type == RelationshipType::Imports && (exists|t: int|
                is_first_import_match(nodes, f, m, t) && (#[trigger] nodes[t].id) == e.to_id) && (
            exists|s: int|
                in_file_grouped(nodes, f, s) && (#[trigger] nodes[s].id) == e.from_id),
    )
}

/// The `Imports` edges of the first `k` imported names of one file.
pub open spec fn prefix_import_edges(nodes: Seq<NodeV>, fv: FileNamesV, k: int) -> Set<EdgeT> {
    Set::new(
        |e: EdgeT|
            exists|i: int|
                0 <= i < k && i < fv.imported_modules.len() && import_target_edges(
                    nodes,
                    fv.file_path,
                    #[trigger] fv.imported_modules[i],
                ).contains(e),
    )
}

/// All `Imports` edges one file's name lists contribute.
pub open spec fn import_edges_of_file(nodes: Seq<NodeV>, fv: FileNamesV) -> Set<EdgeT> {
    prefix_import_edges(nodes, fv, fv.imported_modules.len() as int)
}

/// Appends one `Imports` edge from every grouped node of the file to the
/// target at position `t`.
fn push_import_sources(
    graph: &CodeGraph,
    file_path: &String,
    target_id: &String,
    out: &mut Vec<Relationship>,
    Ghost(m): Ghost<Seq<char>>,
    Ghost(t): Ghost<int>,
)
    requires
        is_first_import_match(graph@.nodes, file_path@, m, t),
        graph@.nodes[t].id == target_id@,
    ensures
        new_part_sound(old(out)@, final(out)@, import_target_edges(graph@.nodes, file_path@, m)),
        new_part_complete(
            old(out)@,
            final(out)@,
            import_target_edges(graph@.nodes, file_path@, m),
        ),
{
    let nodes = graph.all_nodes();
    let n = nodes.len();
    let mut s: usize = 0;
    while s < n
        invariant
            0 <= s <= n,
            n == nodes.len(),
            nodes@.map_values(|x: CodeNode| x@) == graph@.nodes,
            is_first_import_match(graph@.nodes, file_path@, m, t),
            graph@.nodes[t].id == target_id@,
            out@.len() >= old(out)@.len(),
            out@.take(old(out)@.len() as int) == old(out)@,
            forall|j: int|
                old(out)@.len() <= j < out@.len() ==> {
                    let rv = (#[trigger] out@[j])@;
                    import_target_edges(graph@.nodes, file_path@, m).contains(triple_of(rv))
                        && rv.metadata == Seq::<(Seq<char>, Seq<char>)>::empty()
                },
            forall|w: int|
                0 <= w < s ==> in_file_grouped(graph@.nodes, file_path@, w) ==> exists|j: int|
                    old(out)@.len() <= j < out@.len() && triple_of((#[trigger] out@[j])@)
                        == (EdgeT {
                        from_id: (#[trigger] graph@.nodes[w]).id,
                        to_id: graph@.nodes[t].id,
                        relationship_type: RelationshipType::Imports,
                    }),
        decreases n - s,
    {
        let node = &nodes[s];
        proof {
            assert(graph@.nodes[s as int] == node@);
        }
        if crate::strutil::str_eq(node.file_path.as_str(), file_path.as_str())
            && node.name.as_str().unicode_len() >= 3 {
            let ghost pre = out@;
            let edge = Relationship::new(
                RelationshipType::Imports,
                node.id.clone(),
                target_id.clone(),
            );
            proof {
                assert(in_file_grouped(graph@.nodes, file_path@, s as int));
                assert(exists|tt: int|
                    is_first_import_match(graph@.nodes, file_path@, m, tt) && (
                    #[trigger] graph@.nodes[tt].id) == triple_of(edge@).to_id) by {
                    assert(is_first_import_match(graph@.nodes, file_path@, m, t) && graph@.nodes[
                        t
                    ].id == triple_of(edge@).to_id);
                }
                assert(exists|ss: int|
                    in_file_grouped(graph@.nodes, file_path@, ss) && (
                    #[trigger] graph@.nodes[ss].id) == triple_of(edge@).from_id) by {
                    assert(in_file_grouped(graph@.nodes, file_path@, s as int) && graph@.nodes[
                        s as int
                    ].id == triple_of(edge@).from_id);
                }
                assert(import_target_edges(graph@.nodes, file_path@, m).contains(
                    triple_of(edge@),
                ));
            }
            out.push(edge);
            proof {
                assert(out@.take(old(out)@.len() as int) =~= pre.take(old(out)@.len() as int));
                assert forall|w: int|
                    0 <= w < s + 1 && in_file_grouped(graph@.nodes, file_path@, w) implies exists|
                    j: int,
                |
                    old(out)@.len() <= j < out@.len() && triple_of((#[trigger] out@[j])@)
                        == (EdgeT {
                        from_id: (#[trigger] graph@.nodes[w]).id,
                        to_id: graph@.nodes[t].id,
                        relationship_type: RelationshipType::Imports,
                    }) by {
                    if w < s {
                        let j0 = choose|j0: int|
                            old(out)@.len() <= j0 < pre.len() && triple_of(
                                (#[trigger] pre[j0])@,
                            ) == (EdgeT {
                                from_id: graph@.nodes[w].id,
                                to_id: graph@.nodes[t].id,
                                relationship_type: RelationshipType::Imports,
                            });
                        assert(out@[j0] == pre[j0]);
                    } else {
                        assert(out@[out@.len() - 1] == edge);
                        assert(triple_of(out@[out@.len() - 1]@) == (EdgeT {
                            from_id: graph@.nodes[w].id,
                            to_id: graph@.nodes[t].id,
                            relationship_type: RelationshipType::Imports,
                        }));
                    }
                }
            }
        } else {
            proof {
                assert forall|w: int|
                    0 <= w < s + 1 && in_file_grouped(graph@.nodes, file_path@, w) implies exists|
                    j: int,
                |
                    old(out)@.len() <= j < out@.len() && triple_of((#[trigger] out@[j])@)
                        == (EdgeT {
                        from_id: (#[trigger] graph@.nodes[w]).id,
                        to_id: graph@.nodes[t].id,
                        relationship_type: RelationshipType::Imports,
                    }) by {
                    if w == s {
                        assert(!in_file_grouped(graph@.nodes, file_path@, s as int));
                    }
                }
            }
        }
        s += 1;
    }
    proof {
        assert forall|e: EdgeT|
            #[trigger] import_target_edges(graph@.nodes, file_path@, m).contains(
                e,
            ) implies exists|j: int|
            old(out)@.len() <= j < out@.len() && triple_of((#[trigger] out@[j])@) == e by {
            let tt = choose|tt: int|
                is_first_import_match(graph@.nodes, file_path@, m, tt) && (
                #[trigger] graph@.nodes[tt].id) == e.to_id;
            let ss = choose|ss: int|
                in_file_grouped(graph@.nodes, file_path@, ss) && (#[trigger] graph@.nodes[ss].id)
                    == e.from_id;
            assert(tt == t) by {
                if tt < t {
                    assert(!import_match(graph@.nodes, file_path@, m, tt));
                }
                if t < tt {
                    assert(!import_match(graph@.nodes, file_path@, m, t));
                }
            }
            assert(e == (EdgeT {
                from_id: graph@.nodes[ss].id,
                to_id: graph@.nodes[t].id,
                relationship_type: RelationshipType::Imports,
            }));
        }
    }
}

/// Appends the `Imports` edges of one imported name: the store is scanned
/// in insertion order, the first matching module, class or interface of
/// another file wins, and every grouped node of the importing file gets an
/// edge to it.
fn push_import_edges(
    graph: &CodeGraph,
    file_path: &String,
    module_name: &String,
    out: &mut Vec<Relationship>,
)
    ensures
        new_part_sound(
            old(out)@,
            final(out)@,
            import_target_edges(graph@.nodes, file_path@, module_name@),
        ),
        new_part_complete(
            old(out)@,
            final(out)@,
            import_target_edges(graph@.nodes, file_path@, module_name@),
        ),
{
    let nodes = graph.all_nodes();
    let n = nodes.len();
    let mut t: usize = 0;
    while t < n
        invariant
            0 <= t <= n,
            n == nodes.len(),
            nodes@.map_values(|x: CodeNode| x@) == graph@.nodes,
            out@ == old(out)@,
            forall|j: int| 0 <= j < t ==> !import_match(graph@.nodes, file_path@, module_name@, j),
        decreases n - t,
    {
        let node = &nodes[t];
        proof {
            assert(graph@.nodes[t as int] == node@);
        }
        let kind_ok = matches!(
            node.node_type,
            NodeType::Module | NodeType::Class | NodeType::Interface,
        );
        if kind_ok && !crate::strutil::str_eq(node.file_path.as_str(), file_path.as_str()) {
            let name_hit = crate::strutil::str_eq(node.name.as_str(), module_name.as_str());
            let stem_hit = if name_hit {
                true
            } else {
                let stem = crate::detect::file_stem(node.file_path.as_str());
                crate::strutil::str_eq(stem.as_str(), module_name.as_str())
            };
            if stem_hit {
                proof {
                    assert(import_match(graph@.nodes, file_path@, module_name@, t as int));
                    assert(is_first_import_match(graph@.nodes, file_path@, module_name@, t as int));
                }
                push_import_sources(
                    graph,
                    file_path,
                    &node.id,
                    out,
                    Ghost(module_name@),
                    Ghost(t as int),
                );
                return ;
            }
        }
        proof {
            assert(!import_match(graph@.nodes, file_path@, module_name@, t as int));
        }
        t += 1;
    }
    proof {
        assert(out@.take(out@.len() as int) =~= out@);
        assert forall|e: EdgeT|
            #[trigger] import_target_edges(graph@.nodes, file_path@, module_name@).contains(
                e,
            ) implies false by {
            let tt = choose|tt: int|
                is_first_import_match(graph@.nodes, file_path@, module_name@, tt) && (
                #[trigger] graph@.nodes[tt].id) == e.to_id;
            assert(!import_match(graph@.nodes, file_path@, module_name@, tt));
        }
    }
}

/// Derives the `Imports` candidate edges of one file: for each imported
/// module name, the first stored module, class or interface of another file
/// matching it by name or file stem gets an edge from every grouped node of
/// the importing file.
pub fn find_import_relationships(
    graph: &CodeGraph,
    file: &FileNames,
    relationships: &mut Vec<Relationship>,
)
    ensures
        new_part_sound(
            old(relationships)@,
            final(relationships)@,
            import_edges_of_file(graph@.nodes, file@),
        ),
        new_part_complete(
            old(relationships)@,
            final(relationships)@,
            import_edges_of_file(graph@.nodes, file@),
        ),
{
    let n = file.imported_modules.len();
    let mut k: usize = 0;
    proof {
        lemma_new_part_empty(relationships@);
        assert(prefix_import_edges(graph@.nodes, file@, 0) =~= Set::<EdgeT>::empty());
    }
    while k < n
        invariant
            0 <= k <= n,
            n == file.imported_modules.len(),
            new_part_sound(
                old(relationships)@,
                relationships@,
                prefix_import_edges(graph@.nodes, file@, k as int),
            ),
            new_part_complete(
                old(relationships)@,
                relationships@,
                prefix_import_edges(graph@.nodes, file@, k as int),
            ),
        decreases n - k,
    {
        let ghost pre = relationships@;
        push_import_edges(graph, &file.file_path, &file.imported_modules[k], relationships);
        proof {
            assert(file@.imported_modules[k as int] == file.imported_modules@[k as int]@);
            lemma_new_part_compose(
                old(relationships)@,
                pre,
                relationships@,
                prefix_import_edges(graph@.nodes, file@, k as int),
                import_target_edges(graph@.nodes, file@.file_path, file@.imported_modules[k as int]),
            );
            assert(prefix_import_edges(graph@.nodes, file@, k as int + 1) =~= prefix_import_edges(
                graph@.nodes,
                file@,
                k as int,
            ) + import_target_edges(
                graph@.nodes,
                file@.file_path,
                file@.imported_modules[k as int],
            ));
        }
        k += 1;
    }
}

/// The `Contains` edges with the class or interface at position `a` as the
/// outer node: one to every same-file grouped class or interface strictly
/// inside its line range.
pub open spec fn hier_outer_edges(nodes: Seq<NodeV>, f: Seq<char>, a: int) -> Set<EdgeT> {
    Set::new(
        |e: EdgeT|
            e.relationship_type == RelationshipType::Contains && in_file_grouped(nodes, f, a)
                && is_class_kind(nodes[a].node_type) && e.from_id == nodes[a].id && exists|b: int|
                in_file_grouped(nodes, f, b) && is_class_kind(nodes[b].node_type)
                    && nodes[b].line_start > nodes[a].line_start && nodes[b].line_end
                    < nodes[a].line_end && (#[trigger] nodes[b].id) == e.to_id,
    )
}

/// The `Contains` edges with an outer class among the first `k` stored
/// nodes.
pub open spec fn prefix_hier_edges(nodes: Seq<NodeV>, f: Seq<char>, k: int) -> Set<EdgeT> {
    Set::new(
        |e: EdgeT|
            exists|a: int| 0 <= a < k && (#[trigger] hier_outer_edges(nodes, f, a)).contains(e),
    )
}

/// All hierarchical `Contains` edges of one file.
pub open spec fn hier_edges_of_file(nodes: Seq<NodeV>, fv: FileNamesV) -> Set<EdgeT> {
    prefix_hier_edges(nodes, fv.file_path, nodes.len() as int)
}

/// Appends one `Contains` edge per grouped class or interface strictly
/// nested inside the one at position `a`.
fn push_nested_classes(
    graph: &CodeGraph,
    file_path: &String,
    a: usize,
    out: &mut Vec<Relationship>,
)
    requires
        a < graph@.nodes.len(),
        in_file_grouped(graph@.nodes, file_path@, a as int),
        is_class_kind(graph@.nodes[a as int].node_type),
    ensures
        new_part_sound(
            old(out)@,
            final(out)@,
            hier_outer_edges(graph@.nodes, file_path@, a as int),
        ),
        new_part_complete(
            old(out)@,
            final(out)@,
            hier_outer_edges(graph@.nodes, file_path@, a as int),
        ),
{
    let nodes = graph.all_nodes();
    let n = nodes.len();
    let outer = &nodes[a];
    proof {
        assert(graph@.nodes[a as int] == outer@);
    }
    let mut b: usize = 0;
    while b < n
        invariant
            0 <= b <= n,
            n == nodes.len(),
            nodes@.map_values(|x: CodeNode| x@) == graph@.nodes,
            a < graph@.nodes.len(),
            graph@.nodes[a as int] == outer@,
            in_file_grouped(graph@.nodes, file_path@, a as int),
            is_class_kind(graph@.nodes[a as int].node_type),
            out@.len() >= old(out)@.len(),
            out@.take(old(out)@.len() as int) == old(out)@,
            forall|j: int|
                old(out)@.len() <= j < out@.len() ==> {
                    let rv = (#[trigger] out@[j])@;
                    hier_outer_edges(graph@.nodes, file_path@, a as int).contains(triple_of(rv))
                        && rv.metadata == Seq::<(Seq<char>, Seq<char>)>::empty()
                },
            forall|w: int|
                0 <= w < b ==> (in_file_grouped(graph@.nodes, file_path@, w) && is_class_kind(
                    (#[trigger] graph@.nodes[w]).node_type,
                ) && graph@.nodes[w].line_start > graph@.nodes[a as int].line_start
                    && graph@.nodes[w].line_end < graph@.nodes[a as int].line_end) ==> exists|
                    j: int,
                |
                    old(out)@.len() <= j < out@.len() && triple_of((#[trigger] out@[j])@)
                        == (EdgeT {
                        from_id: graph@.nodes[a as int].id,
                        to_id: graph@.nodes[w].id,
                        relationship_type: RelationshipType::Contains,
                    }),
        decreases n - b,
    {
        let node = &nodes[b];
        proof {
            assert(graph@.nodes[b as int] == node@);
        }
        let class_ok = matches!(node.node_type, NodeType::Class | NodeType::Interface);
        if class_ok && crate::strutil::str_eq(node.file_path.as_str(), file_path.as_str())
            && node.name.as_str().unicode_len() >= 3 && node.line_range.0 > outer.line_range.0
            && node.line_range.1 < outer.line_range.1 {
            let ghost pre = out@;
            let edge = Relationship::new(
                RelationshipType::Contains,
                outer.id.clone(),
                node.id.clone(),
            );
            proof {
                assert(in_file_grouped(graph@.nodes, file_path@, b as int));
                assert(exists|bb: int|
                    in_file_grouped(graph@.nodes, file_path@, bb) && is_class_kind(
                        graph@.nodes[bb].node_type,
                    ) && graph@.nodes[bb].line_start > graph@.nodes[a as int].line_start
                        && graph@.nodes[bb].line_end < graph@.nodes[a as int].line_end && (
                    #[trigger] graph@.nodes[bb].id) == triple_of(edge@).to_id) by {
                    assert(graph@.nodes[b as int].id == triple_of(edge@).to_id);
                    assert(in_file_grouped(graph@.nodes, file_path@, b as int) && is_class_kind(
                        graph@.nodes[b as int].node_type,
                    ) && graph@.nodes[b as int].line_start > graph@.nodes[a as int].line_start
                        && graph@.nodes[b as int].line_end < graph@.nodes[a as int].line_end);
                }
                assert(hier_outer_edges(graph@.nodes, file_path@, a as int).contains(
                    triple_of(edge@),
                ));
            }
            out.push(edge);
            proof {
                assert(out@.take(old(out)@.len() as int) =~= pre.take(old(out)@.len() as int));
                assert forall|w: int|
                    0 <= w < b + 1 && in_file_grouped(graph@.nodes, file_path@, w)
                        && is_class_kind((#[trigger] graph@.nodes[w]).node_type) && graph@.nodes[
                        w
                    ].line_start > graph@.nodes[a as int].line_start && graph@.nodes[w].line_end
                        < graph@.nodes[a as int].line_end implies exists|j: int|
                    old(out)@.len() <= j < out@.len() && triple_of((#[trigger] out@[j])@)
                        == (EdgeT {
                        from_id: graph@.nodes[a as int].id,
                        to_id: graph@.nodes[w].id,
                        relationship_type: RelationshipType::Contains,
                    }) by {
                    if w < b {
                        let j0 = choose|j0: int|
                            old(out)@.len() <= j0 < pre.len() && triple_of(
                                (#[trigger] pre[j0])@,
                            ) == (EdgeT {
                                from_id: graph@.nodes[a as int].id,
                                to_id: graph@.nodes[w].id,
                                relationship_type: RelationshipType::Contains,
                            });
                        assert(out@[j0] == pre[j0]);
                    } else {
                        assert(out@[out@.len() - 1] == edge);
                        assert(triple_of(out@[out@.len() - 1]@) == (EdgeT {
                            from_id: graph@.nodes[a as int].id,
                            to_id: graph@.nodes[w].id,
                            relationship_type: RelationshipType::Contains,
                        }));
                    }
                }
            }
        } else {
            proof {
                assert forall|w: int|
                    0 <= w < b + 1 && in_file_grouped(graph@.nodes, file_path@, w)
                        && is_class_kind((#[trigger] graph@.nodes[w]).node_type) && graph@.nodes[
                        w
                    ].line_start > graph@.nodes[a as int].line_start && graph@.nodes[w].line_end
                        < graph@.nodes[a as int].line_end implies exists|j: int|
                    old(out)@.len() <= j < out@.len() && triple_of((#[trigger] out@[j])@)
                        == (EdgeT {
                        from_id: graph@.nodes[a as int].id,
                        to_id: graph@.nodes[w].id,
                        relationship_type: RelationshipType::Contains,
                    }) by {
                    if w == b {
                        assert(!(in_file_grouped(graph@.nodes, file_path@, b as int)
                            && is_class_kind(graph@.nodes[b as int].node_type) && graph@.nodes[
                            b as int
                        ].line_start > graph@.nodes[a as int].line_start && graph@.nodes[
                            b as int
                        ].line_end < graph@.nodes[a as int].line_end));
                    }
                }
            }
        }
        b += 1;
    }
    proof {
        assert forall|e: EdgeT|
            #[trigger] hier_outer_edges(graph@.nodes, file_path@, a as int).contains(
                e,
            ) implies exists|j: int|
            old(out)@.len() <= j < out@.len() && triple_of((#[trigger] out@[j])@) == e by {
            let w = choose|w: int|
                in_file_grouped(graph@.nodes, file_path@, w) && is_class_kind(
                    graph@.nodes[w].node_type,
                ) && graph@.nodes[w].line_start > graph@.nodes[a as int].line_start
                    && graph@.nodes[w].line_end < graph@.nodes[a as int].line_end && (
                #[trigger] graph@.nodes[w].id) == e.to_id;
            assert(e == (EdgeT {
                from_id: graph@.nodes[a as int].id,
                to_id: graph@.nodes[w].id,
                relationship_type: RelationshipType::Contains,
            }));
        }
    }
}

/// Derives the hierarchical `Contains` candidate edges of one file: for
/// every pair of same-file grouped classes or interfaces where the second
/// lies strictly inside the first's line range, an edge from the outer to
/// the inner.
pub fn find_hierarchical_relationships(
    graph: &CodeGraph,
    file: &FileNames,
    relationships: &mut Vec<Relationship>,
)
    ensures
        new_part_sound(
            old(relationships)@,
            final(relationships)@,
            hier_edges_of_file(graph@.nodes, file@),
        ),
        new_part_complete(
            old(relationships)@,
            final(relationships)@,
            hier_edges_of_file(graph@.nodes, file@),
        ),
{
    let nodes = graph.all_nodes();
    let n = nodes.len();
    let mut a: usize = 0;
    proof {
        lemma_new_part_empty(relationships@);
        assert(prefix_hier_edges(graph@.nodes, file@.file_path, 0) =~= Set::<EdgeT>::empty());
    }
    while a < n
        invariant
            0 <= a <= n,
            n == nodes.len(),
            nodes@.map_values(|x: CodeNode| x@) == graph@.nodes,
            new_part_sound(
                old(relationships)@,
                relationships@,
                prefix_hier_edges(graph@.nodes, file@.file_path, a as int),
            ),
            new_part_complete(
                old(relationships)@,
                relationships@,
                prefix_hier_edges(graph@.nodes, file@.file_path, a as int),
            ),
        decreases n - a,
    {
        let node = &nodes[a];
        proof {
            assert(graph@.nodes[a as int] == node@);
        }
        let class_ok = matches!(node.node_type, NodeType::Class | NodeType::Interface);
        let ghost pre = relationships@;
        if class_ok && crate::strutil::str_eq(node.file_path.as_str(), file.file_path.as_str())
            && node.name.as_str().unicode_len() >= 3 {
            push_nested_classes(graph, &file.file_path, a, relationships);
            proof {
                lemma_new_part_compose(
                    old(relationships)@,
                    pre,
                    relationships@,
                    prefix_hier_edges(graph@.nodes, file@.file_path, a as int),
                    hier_outer_edges(graph@.nodes, file@.file_path, a as int),
                );
            }
        } else {
            proof {
                assert(hier_outer_edges(graph@.nodes, file@.file_path, a as int) =~= Set::<
                    EdgeT,
                >::empty());
                lemma_new_part_empty(pre);
                lemma_new_part_compose(
                    old(relationships)@,
                    pre,
                    relationships@,
                    prefix_hier_edges(graph@.nodes, file@.file_path, a as int),
                    hier_outer_edges(graph@.nodes, file@.file_path, a as int),
                );
            }
        }
        proof {
            assert(prefix_hier_edges(graph@.nodes, file@.file_path, a as int + 1)
                =~= prefix_hier_edges(graph@.nodes, file@.file_path, a as int) + hier_outer_edges(
                graph@.nodes,
                file@.file_path,
                a as int,
            ));
        }
        a += 1;
    }
}

/// The parent class recorded on a method node, if any.
pub open spec fn method_parent(n: NodeV) -> Option<Seq<char>> {
    if n.node_type == NodeType::Method {
        assoc_get(n.metadata, "parent_class"@)
    } else {
        None
    }
}

/// The `Contains` edges the method at position `mi` contributes: one from
/// every stored class or interface named as its recorded parent.
pub open spec fn method_class_for(nodes: Seq<NodeV>, mi: int) -> Set<EdgeT> {
    Set::new(
        |e: EdgeT|
            e.relationship_type == RelationshipType::Contains && 0 <= mi < nodes.len() && match
                method_parent(nodes[mi]) {
                Some(pc) => exists|c: int|
                    0 <= c < nodes.len() && (#[trigger] nodes[c].id) == e.from_id && nodes[c].name
                        == pc && is_class_kind(nodes[c].node_type) && e.to_id == nodes[mi].id,
                None => false,
            },
    )
}

/// The method-to-class `Contains` edges of the first `k` stored nodes.
pub open spec fn prefix_method_class_edges(nodes: Seq<NodeV>, k: int) -> Set<EdgeT> {
    Set::new(
        |e: EdgeT|
            exists|mi: int| 0 <= mi < k && (#[trigger] method_class_for(nodes, mi)).contains(e),
    )
}

/// All method-to-class `Contains` edges.
pub open spec fn method_class_edge_set(nodes: Seq<NodeV>) -> Set<EdgeT> {
    prefix_method_class_edges(nodes, nodes.len() as int)
}

/// Appends one `Contains` edge from every stored class or interface named
/// `pc` to the method at position `mi`.
fn push_parent_classes(
    graph: &CodeGraph,
    pc: &String,
    mi: usize,
    out: &mut Vec<Relationship>,
)
    requires
        mi < graph@.nodes.len(),
        method_parent(graph@.nodes[mi as int]) == Some(pc@),
    ensures
        new_part_sound(old(out)@, final(out)@, method_class_for(graph@.nodes, mi as int)),
        new_part_complete(old(out)@, final(out)@, method_class_for(graph@.nodes, mi as int)),
{
    let nodes = graph.all_nodes();
    let n = nodes.len();
    let method = &nodes[mi];
    proof {
        assert(graph@.nodes[mi as int] == method@);
    }
    let mut c: usize = 0;
    while c < n
        invariant
            0 <= c <= n,
            n == nodes.len(),
            nodes@.map_values(|x: CodeNode| x@) == graph@.nodes,
            mi < graph@.nodes.len(),
            graph@.nodes[mi as int] == method@,
            method_parent(graph@.nodes[mi as int]) == Some(pc@),
            out@.len() >= old(out)@.len(),
            out@.take(old(out)@.len() as int) == old(out)@,
            forall|j: int|
                old(out)@.len() <= j < out@.len() ==> {
                    let rv = (#[trigger] out@[j])@;
                    method_class_for(graph@.nodes, mi as int).contains(triple_of(rv))
                        && rv.metadata == Seq::<(Seq<char>, Seq<char>)>::empty()
                },
            forall|w: int|
                0 <= w < c ==> ((#[trigger] graph@.nodes[w]).name == pc@ && is_class_kind(
                    graph@.nodes[w].node_type,
                )) ==> exists|j: int|
                    old(out)@.len() <= j < out@.len() && triple_of((#[trigger] out@[j])@)
                        == (EdgeT {
                        from_id: graph@.nodes[w].id,
                        to_id: graph@.nodes[mi as int].id,
                        relationship_type: RelationshipType::Contains,
                    }),
        decreases n - c,
    {
        let node = &nodes[c];
        proof {
            assert(graph@.nodes[c as int] == node@);
        }
        let class_ok = matches!(node.node_type, NodeType::Class | NodeType::Interface);
        if class_ok && crate::strutil::str_eq(node.name.as_str(), pc.as_str()) {
            let ghost pre = out@;
            let edge = Relationship::new(
                RelationshipType::Contains,
                node.id.clone(),
                method.id.clone(),
            );
            proof {
                assert(exists|cc: int|
                    0 <= cc < graph@.nodes.len() && (#[trigger] graph@.nodes[cc].id) == triple_of(
                        edge@,
                    ).from_id && graph@.nodes[cc].name == pc@ && is_class_kind(
                        graph@.nodes[cc].node_type,
                    ) && triple_of(edge@).to_id == graph@.nodes[mi as int].id) by {
                    assert(graph@.nodes[c as int].id == triple_of(edge@).from_id && graph@.nodes[
                        c as int
                    ].name == pc@ && is_class_kind(graph@.nodes[c as int].node_type));
                }
                assert(method_class_for(graph@.nodes, mi as int).contains(triple_of(edge@)));
            }
            out.push(edge);
            proof {
                assert(out@.take(old(out)@.len() as int) =~= pre.take(old(out)@.len() as int));
                assert forall|w: int|
                    0 <= w < c + 1 && (#[trigger] graph@.nodes[w]).name == pc@ && is_class_kind(
                        graph@.nodes[w].node_type,
                    ) implies exists|j: int|
                    old(out)@.len() <= j < out@.len() && triple_of((#[trigger] out@[j])@)
                        == (EdgeT {
                        from_id: graph@.nodes[w].id,
                        to_id: graph@.nodes[mi as int].id,
                        relationship_type: RelationshipType::Contains,
                    }) by {
                    if w < c {
                        let j0 = choose|j0: int|
                            old(out)@.len() <= j0 < pre.len() && triple_of(
                                (#[trigger] pre[j0])@,
                            ) == (EdgeT {
                                from_id: graph@.nodes[w].id,
                                to_id: graph@.nodes[mi as int].id,
                                relationship_type: RelationshipType::Contains,
                            });
                        assert(out@[j0] == pre[j0]);
                    } else {
                        assert(out@[out@.len() - 1] == edge);
                        assert(triple_of(out@[out@.len() - 1]@) == (EdgeT {
                            from_id: graph@.nodes[w].id,
                            to_id: graph@.nodes[mi as int].id,
                            relationship_type: RelationshipType::Contains,
                        }));
                    }
                }
            }
        } else {
            proof {
                assert forall|w: int|
                    0 <= w < c + 1 && (#[trigger] graph@.nodes[w]).name == pc@ && is_class_kind(
                        graph@.nodes[w].node_type,
                    ) implies exists|j: int|
                    old(out)@.len() <= j < out@.len() && triple_of((#[trigger] out@[j])@)
                        == (EdgeT {
                        from_id: graph@.nodes[w].id,
                        to_id: graph@.nodes[mi as int].id,
                        relationship_type: RelationshipType::Contains,
                    }) by {
                    if w == c {
                        assert(!(graph@.nodes[c as int].name == pc@ && is_class_kind(
                            graph@.nodes[c as int].node_type,
                        )));
                    }
                }
            }
        }
        c += 1;
    }
    proof {
        assert forall|e: EdgeT|
            #[trigger] method_class_for(graph@.nodes, mi as int).contains(e) implies exists|j: int|
            old(out)@.len() <= j < out@.len() && triple_of((#[trigger] out@[j])@) == e by {
            let w = choose|w: int|
                0 <= w < graph@.nodes.len() && (#[trigger] graph@.nodes[w].id) == e.from_id
                    && graph@.nodes[w].name == pc@ && is_class_kind(graph@.nodes[w].node_type)
                    && e.to_id == graph@.nodes[mi as int].id;
            assert(e == (EdgeT {
                from_id: graph@.nodes[w].id,
                to_id: graph@.nodes[mi as int].id,
                relationship_type: RelationshipType::Contains,
            }));
        }
    }
}

/// Derives the method-to-class `Contains` candidate edges: for every method
/// carrying `parent_class` metadata, one edge from each stored class or
/// interface of that name to the method.  Name collisions across files can
/// attach a method to an unrelated same-named class: an accepted limitation
/// of the name-only model.
pub fn find_method_class_relationships(graph: &CodeGraph, relationships: &mut Vec<Relationship>)
    ensures
        new_part_sound(
            old(relationships)@,
            final(relationships)@,
            method_class_edge_set(graph@.nodes),
        ),
        new_part_complete(
            old(relationships)@,
            final(relationships)@,
            method_class_edge_set(graph@.nodes),
        ),
{
    let key: String = "parent_class".to_owned();
    let nodes = graph.all_nodes();
    let n = nodes.len();
    let mut mi: usize = 0;
    proof {
        lemma_new_part_empty(relationships@);
        assert(prefix_method_class_edges(graph@.nodes, 0) =~= Set::<EdgeT>::empty());
    }
    while mi < n
        invariant
            0 <= mi <= n,
            n == nodes.len(),
            nodes@.map_values(|x: CodeNode| x@) == graph@.nodes,
            key@ == "parent_class"@,
            new_part_sound(
                old(relationships)@,
                relationships@,
                prefix_method_class_edges(graph@.nodes, mi as int),
            ),
            new_part_complete(
                old(relationships)@,
                relationships@,
                prefix_method_class_edges(graph@.nodes, mi as int),
            ),
        decreases n - mi,
    {
        let node = &nodes[mi];
        proof {
            assert(graph@.nodes[mi as int] == node@);
        }
        let ghost pre = relationships@;
        let parent: Option<String> = if matches!(node.node_type, NodeType::Method) {
            match node.metadata.get(&key) {
                Some(p) => Some(p.clone()),
                None => None,
            }
        } else {
            None
        };
        match parent {
            Some(pc) => {
                proof {
                    assert(method_parent(graph@.nodes[mi as int]) == Some(pc@));
                }
                push_parent_classes(graph, &pc, mi, relationships);
                proof {
                    lemma_new_part_compose(
                        old(relationships)@,
                        pre,
                        relationships@,
                        prefix_method_class_edges(graph@.nodes, mi as int),
                        method_class_for(graph@.nodes, mi as int),
                    );
                }
            },
            None => {
                proof {
                    assert(method_class_for(graph@.nodes, mi as int) =~= Set::<EdgeT>::empty());
                    lemma_new_part_empty(pre);
                    lemma_new_part_compose(
                        old(relationships)@,
                        pre,
                        relationships@,
                        prefix_method_class_edges(graph@.nodes, mi as int),
                        method_class_for(graph@.nodes, mi as int),
                    );
                }
            },
        }
        proof {
            assert(prefix_method_class_edges(graph@.nodes, mi as int + 1)
                =~= prefix_method_class_edges(graph@.nodes, mi as int) + method_class_for(
                graph@.nodes,
                mi as int,
            ));
        }
        mi += 1;
    }
}

/// All `Imports` edges the import-resolution phase derives.
pub open spec fn import_edge_set(nodes: Seq<NodeV>, exts: Seq<FileNamesV>) -> Set<EdgeT> {
    Set::new(
        |e: EdgeT|
            exists|fx: int|
                0 <= fx < exts.len() && import_edges_of_file(nodes, #[trigger] exts[fx]).contains(
                    e,
                ),
    )
}

/// All hierarchical `Contains` edges the containment phase derives.
pub open spec fn hier_edge_set(nodes: Seq<NodeV>, exts: Seq<FileNamesV>) -> Set<EdgeT> {
    Set::new(
        |e: EdgeT|
            exists|fx: int|
                0 <= fx < exts.len() && hier_edges_of_file(nodes, #[trigger] exts[fx]).contains(e),
    )
}

/// The candidate edges of one file across the three per-file phases.
pub open spec fn file_edges(nodes: Seq<NodeV>, fv: FileNamesV) -> Set<EdgeT> {
    call_edges_of_file(nodes, fv) + import_edges_of_file(nodes, fv) + hier_edges_of_file(nodes, fv)
}

/// The candidate edges of the first `k` files.
pub open spec fn prefix_files_edges(nodes: Seq<NodeV>, exts: Seq<FileNamesV>, k: int) -> Set<
    EdgeT,
> {
    Set::new(
        |e: EdgeT|
            exists|i: int|
                0 <= i < k && i < exts.len() && (#[trigger] file_edges(nodes, exts[i])).contains(
                    e,
                ),
    )
}

/// Everything the four inference phases derive.
pub open spec fn inferred_edge_set(nodes: Seq<NodeV>, exts: Seq<FileNamesV>) -> Set<EdgeT> {
    call_edge_set(nodes, exts) + import_edge_set(nodes, exts) + hier_edge_set(nodes, exts)
        + method_class_edge_set(nodes)
}

/// Whether `r` is (view-wise) one of the elements of `cands`.
pub open spec fn from_input(cands: Seq<Relationship>, r: Relationship) -> bool {
    exists|i: int| 0 <= i < cands.len() && r@ == (#[trigger] cands[i])@
}

/// No two elements share a (from, to, kind) triple.
pub open spec fn distinct_triples(s: Seq<Relationship>) -> bool {
    forall|i: int, j: int|
        0 <= i < j < s.len() ==> triple_of((#[trigger] s[i])@) != triple_of((#[trigger] s[j])@)
}

/// Inserting a sequence of edges, in order.
pub open spec fn add_rels_v(g: GraphV, s: Seq<RelV>) -> GraphV
    decreases s.len(),
{
    if s.len() == 0 {
        g
    } else {
        add_rel_v(add_rels_v(g, s.drop_last()), s.last())
    }
}

/// Inserting edges moves neither the nodes nor the secondary indices.
pub proof fn lemma_add_rels_fixed(g: GraphV, s: Seq<RelV>)
    ensures
        add_rels_v(g, s).nodes == g.nodes,
        add_rels_v(g, s).by_kind == g.by_kind,
        add_rels_v(g, s).by_file == g.by_file,
        add_rels_v(g, s).by_name == g.by_name,
    decreases s.len(),
{
    if s.len() != 0 {
        lemma_add_rels_fixed(g, s.drop_last());
    }
}

/// Whether some element of `list` carries the same triple as `r`.
fn triple_in(list: &Vec<Relationship>, r: &Relationship) -> (b: bool)
    ensures
        b == exists|j: int|
            0 <= j < list@.len() && triple_of((#[trigger] list@[j])@) == triple_of(r@),
{
    let n = list.len();
    let mut j: usize = 0;
    while j < n
        invariant
            0 <= j <= n,
            n == list.len(),
            forall|w: int| 0 <= w < j ==> triple_of((#[trigger] list@[w])@) != triple_of(r@),
        decreases n - j,
    {
        let e = &list[j];
        if e.relationship_type == r.relationship_type && crate::strutil::str_eq(
            e.from_id.as_str(),
            r.from_id.as_str(),
        ) && crate::strutil::str_eq(e.to_id.as_str(), r.to_id.as_str()) {
            proof {
                assert(triple_of(list@[j as int]@) == triple_of(r@));
            }
            return true;
        }
        j += 1;
    }
    false
}

/// Keeps the first occurrence of each (from, to, kind) triple, in order.
fn dedup_relationships(cands: &Vec<Relationship>) -> (r: Vec<Relationship>)
    ensures
        distinct_triples(r@),
        forall|j: int| 0 <= j < r@.len() ==> from_input(cands@, #[trigger] r@[j]),
        forall|i: int|
            0 <= i < cands@.len() ==> exists|j: int|
                0 <= j < r@.len() && triple_of((#[trigger] cands@[i])@) == triple_of(r@[j]@),
{
    let n = cands.len();
    let mut out: Vec<Relationship> = Vec::new();
    let mut i: usize = 0;
    while i < n
        invariant
            0 <= i <= n,
            n == cands.len(),
            distinct_triples(out@),
            forall|j: int| 0 <= j < out@.len() ==> from_input(cands@, #[trigger] out@[j]),
            forall|w: int|
                0 <= w < i ==> exists|j: int|
                    0 <= j < out@.len() && triple_of((#[trigger] cands@[w])@) == triple_of(
                        out@[j]@,
                    ),
        decreases n - i,
    {
        let seen = triple_in(&out, &cands[i]);
        if !seen {
            let ghost pre = out@;
            out.push(cands[i].clone());
            proof {
                assert(out@[out@.len() - 1]@ == cands@[i as int]@);
                assert(from_input(cands@, out@[out@.len() - 1]));
                assert forall|a: int, b: int| 0 <= a < b < out@.len() implies triple_of(
                    (#[trigger] out@[a])@,
                ) != triple_of((#[trigger] out@[b])@) by {
                    if b == out@.len() - 1 {
                        assert(triple_of(pre[a]@) != triple_of(cands@[i as int]@));
                    }
                }
                assert forall|w: int| 0 <= w < i + 1 implies exists|j: int|
                    0 <= j < out@.len() && triple_of((#[trigger] cands@[w])@) == triple_of(
                        out@[j]@,
                    ) by {
                    if w < i {
                        let j0 = choose|j0: int|
                            0 <= j0 < pre.len() && triple_of((#[trigger] cands@[w])@) == triple_of(
                                pre[j0]@,
                            );
                        assert(out@[j0] == pre[j0]);
                    } else {
                        assert(triple_of(cands@[w]@) == triple_of(out@[out@.len() - 1]@));
                    }
                }
            }
        } else {
            proof {
                assert forall|w: int| 0 <= w < i + 1 implies exists|j: int|
                    0 <= j < out@.len() && triple_of((#[trigger] cands@[w])@) == triple_of(
                        out@[j]@,
                    ) by {}
            }
        }
        i += 1;
    }
    out
}

/// The per-file phase sets over all files, together with the store-wide
/// method-to-class set, make up everything inference derives.
proof fn lemma_inferred_union(nodes: Seq<NodeV>, exts: Seq<FileNamesV>)
    ensures
        prefix_files_edges(nodes, exts, exts.len() as int) + method_class_edge_set(nodes)
            == inferred_edge_set(nodes, exts),
{
    let n = exts.len() as int;
    assert forall|e: EdgeT| #[trigger] inferred_edge_set(nodes, exts).contains(e) implies (
    prefix_files_edges(nodes, exts, n) + method_class_edge_set(nodes)).contains(e) by {
        if call_edge_set(nodes, exts).contains(e) {
            let i = choose|i: int|
                0 <= i < exts.len() && call_edges_of_file(nodes, #[trigger] exts[i]).contains(e);
            assert(file_edges(nodes, exts[i]).contains(e));
        } else if import_edge_set(nodes, exts).contains(e) {
            let i = choose|i: int|
                0 <= i < exts.len() && import_edges_of_file(nodes, #[trigger] exts[i]).contains(
                    e,
                );
            assert(file_edges(nodes, exts[i]).contains(e));
        } else if hier_edge_set(nodes, exts).contains(e) {
            let i = choose|i: int|
                0 <= i < exts.len() && hier_edges_of_file(nodes, #[trigger] exts[i]).contains(e);
            assert(file_edges(nodes, exts[i]).contains(e));
        }
    }
    assert forall|e: EdgeT|
        #[trigger] (prefix_files_edges(nodes, exts, n) + method_class_edge_set(nodes)).contains(
            e,
        ) implies inferred_edge_set(nodes, exts).contains(e) by {
        if prefix_files_edges(nodes, exts, n).contains(e) {
            let i = choose|i: int|
                0 <= i < n && i < exts.len() && (#[trigger] file_edges(nodes, exts[i])).contains(
                    e,
                );
            if call_edges_of_file(nodes, exts[i]).contains(e) {
                assert(call_edge_set(nodes, exts).contains(e));
            } else if import_edges_of_file(nodes, exts[i]).contains(e) {
                assert(import_edge_set(nodes, exts).contains(e));
            } else {
                assert(hier_edges_of_file(nodes, exts[i]).contains(e));
                assert(hier_edge_set(nodes, exts).contains(e));
            }
        }
    }
    assert(prefix_files_edges(nodes, exts, n) + method_class_edge_set(nodes)
        =~= inferred_edge_set(nodes, exts));
}

/// Derives all relationships of the store in one sequential pass: call
/// resolution, import resolution and hierarchical containment per file, then
/// method-to-class containment store-wide; the candidates are deduplicated
/// by (from, to, kind) and inserted.  The nodes and the secondary indices do
/// not move.
#[verifier::rlimit(80)]
pub fn identify_relationships(graph: &mut CodeGraph, extractions: &Vec<FileNames>)
    ensures
        exists|added: Seq<RelV>|
            {
                &&& #[trigger] add_rels_v(old(graph)@, added) == final(graph)@
                &&& forall|i: int, j: int|
                    0 <= i < j < added.len() ==> triple_of(added[i]) != triple_of(added[j])
                &&& forall|i: int|
                    0 <= i < added.len() ==> inferred_edge_set(
                        old(graph)@.nodes,
                        files_v(extractions@),
                    ).contains(triple_of(#[trigger] added[i])) && added[i].metadata == Seq::<
                        (Seq<char>, Seq<char>),
                    >::empty()
                &&& forall|e: EdgeT|
                    #[trigger] inferred_edge_set(
                        old(graph)@.nodes,
                        files_v(extractions@),
                    ).contains(e) ==> exists|i: int| 0 <= i < added.len() && triple_of(added[i])
                        == e
            },
        final(graph)@.nodes == old(graph)@.nodes,
        final(graph)@.by_kind == old(graph)@.by_kind,
        final(graph)@.by_file == old(graph)@.by_file,
        final(graph)@.by_name == old(graph)@.by_name,
{
    let ghost g0 = graph@;
    let ghost exts = files_v(extractions@);
    let mut cands: Vec<Relationship> = Vec::new();
    let n = extractions.len();
    let mut fx: usize = 0;
    proof {
        lemma_new_part_empty(cands@);
        assert(prefix_files_edges(g0.nodes, exts, 0) =~= Set::<EdgeT>::empty());
    }
    while fx < n
        invariant
            0 <= fx <= n,
            n == extractions.len(),
            graph@ == g0,
            exts == files_v(extractions@),
            new_part_sound(Seq::<Relationship>::empty(), cands@, prefix_files_edges(g0.nodes, exts, fx as int)),
            new_part_complete(
                Seq::<Relationship>::empty(),
                cands@,
                prefix_files_edges(g0.nodes, exts, fx as int),
            ),
        decreases n - fx,
    {
        let file = &extractions[fx];
        proof {
            assert(exts[fx as int] == file@);
        }
        let ghost pre1 = cands@;
        find_function_call_relationships(graph, file, &mut cands);
        let ghost pre2 = cands@;
        find_import_relationships(graph, file, &mut cands);
        let ghost pre3 = cands@;
        find_hierarchical_relationships(graph, file, &mut cands);
        proof {
            lemma_new_part_compose(
                pre1,
                pre2,
                pre3,
                call_edges_of_file(g0.nodes, file@),
                import_edges_of_file(g0.nodes, file@),
            );
            lemma_new_part_compose(
                pre1,
                pre3,
                cands@,
                call_edges_of_file(g0.nodes, file@) + import_edges_of_file(g0.nodes, file@),
                hier_edges_of_file(g0.nodes, file@),
            );
            assert((call_edges_of_file(g0.nodes, file@) + import_edges_of_file(g0.nodes, file@))
                + hier_edges_of_file(g0.nodes, file@) =~= file_edges(g0.nodes, file@));
            lemma_new_part_compose(
                Seq::<Relationship>::empty(),
                pre1,
                cands@,
                prefix_files_edges(g0.nodes, exts, fx as int),
                file_edges(g0.nodes, file@),
            );
            assert(prefix_files_edges(g0.nodes, exts, fx as int + 1) =~= prefix_files_edges(
                g0.nodes,
                exts,
                fx as int,
            ) + file_edges(g0.nodes, exts[fx as int]));
        }
        fx += 1;
    }
    let ghost pre4 = cands@;
    find_method_class_relationships(graph, &mut cands);
    proof {
        lemma_new_part_compose(
            Seq::<Relationship>::empty(),
            pre4,
            cands@,
            prefix_files_edges(g0.nodes, exts, n as int),
            method_class_edge_set(g0.nodes),
        );
        lemma_inferred_union(g0.nodes, exts);
    }
    let uniq = dedup_relationships(&cands);
    let ghost added = uniq@.map_values(|r: Relationship| r@);
    let m = uniq.len();
    let mut k: usize = 0;
    while k < m
        invariant
            0 <= k <= m,
            m == uniq.len(),
            added == uniq@.map_values(|r: Relationship| r@),
            graph@ == add_rels_v(g0, added.take(k as int)),
        decreases m - k,
    {
        proof {
            assert(added.take(k as int + 1).drop_last() =~= added.take(k as int));
            assert(added.take(k as int + 1).last() == added[k as int]);
        }
        graph.add_relationship(uniq[k].clone());
        k += 1;
    }
    proof {
        assert(added.take(m as int) =~= added);
        assert(add_rels_v(g0, added) == graph@);
        lemma_add_rels_fixed(g0, added);
        assert forall|i: int| 0 <= i < added.len() implies inferred_edge_set(
            g0.nodes,
            exts,
        ).contains(triple_of(#[trigger] added[i])) && added[i].metadata == Seq::<
            (Seq<char>, Seq<char>),
        >::empty() by {
            assert(added[i] == uniq@[i]@);
            assert(from_input(cands@, uniq@[i]));
            let w = choose|w: int| 0 <= w < cands@.len() && uniq@[i]@ == (#[trigger] cands@[w])@;
            assert(cands@.take(cands@.len() as int)[w] == cands@[w]);
        }
        assert forall|e: EdgeT| #[trigger] inferred_edge_set(g0.nodes, exts).contains(
            e,
        ) implies exists|i: int| 0 <= i < added.len() && triple_of(added[i]) == e by {
            let w = choose|w: int|
                0 <= w < cands@.len() && triple_of((#[trigger] cands@[w])@) == e;
            let j = choose|j: int|
                0 <= j < uniq@.len() && triple_of((#[trigger] cands@[w])@) == triple_of(
                    uniq@[j]@,
                );
            assert(triple_of(added[j]) == e);
        }
        assert forall|i: int, j: int| 0 <= i < j < added.len() implies triple_of(added[i])
            != triple_of(added[j]) by {
            assert(added[i] == uniq@[i]@ && added[j] == uniq@[j]@);
        }
    }
}

/// Same-file classes contain one another exactly by strict nesting: a
/// `Contains` edge between two grouped classes or interfaces of one
/// extracted file is derived if and only if the second's line range lies
/// strictly inside the first's, boundary-touching cases excluded.
pub proof fn lemma_containment_nesting(
    nodes: Seq<NodeV>,
    exts: Seq<FileNamesV>,
    fx: int,
    a: int,
    b: int,
)
    requires
        nodes_distinct(nodes),
        0 <= fx < exts.len(),
        in_file_grouped(nodes, exts[fx].file_path, a),
        is_class_kind(nodes[a].node_type),
        in_file_grouped(nodes, exts[fx].file_path, b),
        is_class_kind(nodes[b].node_type),
    ensures
        hier_edge_set(nodes, exts).contains(
            EdgeT {
                from_id: nodes[a].id,
                to_id: nodes[b].id,
                relationship_type: RelationshipType::Contains,
            },
        ) <==> (nodes[b].line_start > nodes[a].line_start && nodes[b].line_end
            < nodes[a].line_end),
{
    let e = EdgeT {
        from_id: nodes[a].id,
        to_id: nodes[b].id,
        relationship_type: RelationshipType::Contains,
    };
    let f = exts[fx].file_path;
    if nodes[b].line_start > nodes[a].line_start && nodes[b].line_end < nodes[a].line_end {
        assert(hier_outer_edges(nodes, f, a).contains(e)) by {
            assert(in_file_grouped(nodes, f, b) && is_class_kind(nodes[b].node_type)
                && nodes[b].line_start > nodes[a].line_start && nodes[b].line_end
                < nodes[a].line_end && nodes[b].id == e.to_id);
        }
        assert(hier_edges_of_file(nodes, exts[fx]).contains(e));
        assert(hier_edge_set(nodes, exts).contains(e));
    }
    if hier_edge_set(nodes, exts).contains(e) {
        let fy = choose|fy: int|
            0 <= fy < exts.len() && hier_edges_of_file(nodes, #[trigger] exts[fy]).contains(e);
        let f2 = exts[fy].file_path;
        let a2 = choose|a2: int|
            0 <= a2 < nodes.len() && (#[trigger] hier_outer_edges(nodes, f2, a2)).contains(e);
        assert(nodes[a2].id == e.from_id);
        assert(a2 == a) by {
            if a2 < a {
                assert(nodes[a2].id != nodes[a].id);
            }
            if a < a2 {
                assert(nodes[a].id != nodes[a2].id);
            }
        }
        let b2 = choose|b2: int|
            in_file_grouped(nodes, f2, b2) && is_class_kind(nodes[b2].node_type) && nodes[
                b2
            ].line_start > nodes[a2].line_start && nodes[b2].line_end < nodes[a2].line_end && (
            #[trigger] nodes[b2].id) == e.to_id;
        assert(b2 == b) by {
            if b2 < b {
                assert(nodes[b2].id != nodes[b].id);
            }
            if b < b2 {
                assert(nodes[b].id != nodes[b2].id);
            }
        }
    }
}

/// The summary attached to a node of the given kind and name.
pub open spec fn summary_text(k: NodeType, name: Seq<char>) -> Seq<char> {
    match k {
        NodeType::Function => "Function that handles "@ + name,
        NodeType::Method => "Method that implements "@ + name,
        NodeType::Class => "Class that represents "@ + name,
        NodeType::Interface => "Interface for "@ + name,
        NodeType::Module => "Module containing "@ + name,
        NodeType::TypeDefinition => "Type definition for "@ + name,
        NodeType::Unknown => "Code unit: "@ + name,
    }
}

/// Every node with its summary set from its kind and name.
pub open spec fn summarize_all(nodes: Seq<NodeV>) -> Seq<NodeV> {
    Seq::new(
        nodes.len(),
        |i: int|
            NodeV {
                summary: Some(summary_text(nodes[i].node_type, nodes[i].name)),
                ..nodes[i]
            },
    )
}

/// Attaches a deterministic per-kind summary to every stored node; nothing
/// else moves.
pub fn generate_summaries(graph: &mut CodeGraph)
    ensures
        final(graph)@ == (GraphV { nodes: summarize_all(old(graph)@.nodes), ..old(graph)@ }),
{
    let ghost g0 = graph@;
    let n = graph.node_count();
    let mut i: usize = 0;
    while i < n
        invariant
            0 <= i <= n,
            n == g0.nodes.len(),
            graph@.nodes.len() == g0.nodes.len(),
            graph@.outgoing == g0.outgoing,
            graph@.incoming == g0.incoming,
            graph@.by_kind == g0.by_kind,
            graph@.by_file == g0.by_file,
            graph@.by_name == g0.by_name,
            forall|j: int| 0 <= j < i ==> graph@.nodes[j] == summarize_all(g0.nodes)[j],
            forall|j: int| i <= j < n ==> graph@.nodes[j] == g0.nodes[j],
        decreases n - i,
    {
        let kind;
        let name;
        {
            let nodes = graph.all_nodes();
            kind = nodes[i].node_type;
            name = nodes[i].name.clone();
            proof {
                assert(graph@.nodes[i as int] == nodes@[i as int]@);
            }
        }
        let prefix: &str = match kind {
            NodeType::Function => "Function that handles ",
            NodeType::Method => "Method that implements ",
            NodeType::Class => "Class that represents ",
            NodeType::Interface => "Interface for ",
            NodeType::Module => "Module containing ",
            NodeType::TypeDefinition => "Type definition for ",
            NodeType::Unknown => "Code unit: ",
        };
        let mut s: String = prefix.to_owned();
        s.append(name.as_str());
        proof {
            assert(s@ == summary_text(kind, name@));
        }
        graph.set_node_summary(i, s);
        i += 1;
    }
    proof {
        assert(graph@.nodes =~= summarize_all(g0.nodes));
    }
}

/// The name a method ends up with once ownership is resolved: prefixed by
/// its recorded parent class unless already so qualified.
pub open spec fn qualified_name(n: NodeV) -> Seq<char> {
    match method_parent(n) {
        Some(pc) => if is_prefix_of(pc + "::"@, n.name) {
            n.name
        } else {
            pc + "::"@ + n.name
        },
        None => n.name,
    }
}

/// Every node with its name qualified.
pub open spec fn qualify_all(nodes: Seq<NodeV>) -> Seq<NodeV> {
    Seq::new(nodes.len(), |i: int| NodeV { name: qualified_name(nodes[i]), ..nodes[i] })
}

/// Qualifying a name twice is the same as qualifying it once: a name
/// already opened by its parent prefix is left alone.
pub proof fn lemma_qualification_idempotent(n: NodeV)
    ensures
        qualified_name(NodeV { name: qualified_name(n), ..n }) == qualified_name(n),
{
    let n2 = NodeV { name: qualified_name(n), ..n };
    match method_parent(n) {
        Some(pc) => {
            let p = pc + "::"@;
            if !is_prefix_of(p, n.name) {
                assert(n2.name == p + n.name);
                assert((p + n.name).subrange(0, p.len() as int) =~= p);
                assert(is_prefix_of(p, n2.name));
            }
            assert(method_parent(n2) == Some(pc));
        },
        None => {
            assert(method_parent(n2) == method_parent(n));
        },
    }
}

/// Running the qualification pass twice leaves what one run produces.
pub proof fn lemma_enhancement_idempotent(nodes: Seq<NodeV>)
    ensures
        qualify_all(qualify_all(nodes)) == qualify_all(nodes),
{
    assert forall|i: int| 0 <= i < nodes.len() implies qualify_all(qualify_all(nodes))[i]
        == qualify_all(nodes)[i] by {
        lemma_qualification_idempotent(nodes[i]);
        assert(qualify_all(nodes)[i] == (NodeV { name: qualified_name(nodes[i]), ..nodes[i] }));
    }
    assert(qualify_all(qualify_all(nodes)) =~= qualify_all(nodes));
}

/// Rewrites every method's display name to its qualified form, leaving
/// already-qualified names alone; the by-name index keeps the original
/// names, as inference has already run.
pub fn enhance_method_names(graph: &mut CodeGraph)
    ensures
        final(graph)@ == (GraphV { nodes: qualify_all(old(graph)@.nodes), ..old(graph)@ }),
{
    let ghost g0 = graph@;
    let key: String = "parent_class".to_owned();
    let n = graph.node_count();
    let mut i: usize = 0;
    while i < n
        invariant
            0 <= i <= n,
            n == g0.nodes.len(),
            key@ == "parent_class"@,
            graph@.nodes.len() == g0.nodes.len(),
            graph@.outgoing == g0.outgoing,
            graph@.incoming == g0.incoming,
            graph@.by_kind == g0.by_kind,
            graph@.by_file == g0.by_file,
            graph@.by_name == g0.by_name,
            forall|j: int| 0 <= j < i ==> graph@.nodes[j] == qualify_all(g0.nodes)[j],
            forall|j: int| i <= j < n ==> graph@.nodes[j] == g0.nodes[j],
        decreases n - i,
    {
        let next: Option<String>;
        {
            let nodes = graph.all_nodes();
            let node = &nodes[i];
            proof {
                assert(graph@.nodes[i as int] == node@);
            }
            next = if matches!(node.node_type, NodeType::Method) {
                match node.metadata.get(&key) {
                    Some(pc) => {
                        let mut prefix = pc.clone();
                        prefix.append("::");
                        proof {
                            assert(prefix@ == method_parent(g0.nodes[i as int])->Some_0 + "::"@);
                        }
                        if crate::strutil::str_starts_with(node.name.as_str(), prefix.as_str()) {
                            None
                        } else {
                            let mut q = prefix;
                            q.append(node.name.as_str());
                            Some(q)
                        }
                    },
                    None => None,
                }
            } else {
                None
            };
        }
        match next {
            Some(q) => {
                proof {
                    assert(q@ == qualified_name(g0.nodes[i as int]));
                }
                graph.set_node_name(i, q);
            },
            None => {
                proof {
                    assert(g0.nodes[i as int].name == qualified_name(g0.nodes[i as int]));
                    assert(qualify_all(g0.nodes)[i as int] == g0.nodes[i as int]);
                }
            },
        }
        i += 1;
    }
    proof {
        assert(graph@.nodes =~= qualify_all(g0.nodes));
    }
}

} // verus!

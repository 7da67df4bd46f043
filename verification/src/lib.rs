//! A queryable graph of code entities and their relationships.
//!
//! The crate builds an in-memory graph of code constructs (functions,
//! methods, classes, interfaces, modules, type definitions) extracted from a
//! source tree, infers name-based relationships between them (calls, imports,
//! containment), and post-processes the result (qualified method names,
//! per-kind summaries).  Per-language syntax extraction, file discovery and
//! serialization are collaborators around this core: they hand the library
//! plain values and take plain values back.

use vstd::prelude::*;

pub mod node;
pub mod relationship;
pub mod strutil;
pub mod languages;
pub mod detect;
pub mod graph;
pub mod analyzer;

use crate::analyzer::{add_rels_v, files_v, inferred_edge_set, qualify_all, summarize_all,
    FileNames};
use crate::graph::{add_nodes_v, empty_graph_v, CodeGraph, GraphV};
use crate::node::{CodeNode, NodeV};
use crate::relationship::{triple_of, EdgeT, RelV};

verus! {

/// The version of the library, as a displayable string.
pub fn version() -> (r: &'static str)
    ensures
        r@ == "0.1.0"@,
{
    "0.1.0"
}

/// The readings of a sequence of per-file node batches.
pub open spec fn batch_views(bs: Seq<Vec<CodeNode>>) -> Seq<Seq<NodeV>> {
    bs.map_values(|b: Vec<CodeNode>| b@.map_values(|n: CodeNode| n@))
}

/// Inserting a sequence of node batches, in order.
pub open spec fn add_batches_v(g: GraphV, bs: Seq<Seq<NodeV>>) -> GraphV
    decreases bs.len(),
{
    if bs.len() == 0 {
        g
    } else {
        add_nodes_v(add_batches_v(g, bs.drop_last()), bs.last())
    }
}

/// Whether `added` is a faithful inference outcome for a store with the
/// given nodes: candidate edges with distinct (from, to, kind) triples and
/// empty metadata, covering the derived edge set exactly.
pub open spec fn inference_outcome(
    nodes: Seq<NodeV>,
    exts: Seq<crate::analyzer::FileNamesV>,
    added: Seq<RelV>,
) -> bool {
    &&& forall|i: int, j: int|
        0 <= i < j < added.len() ==> triple_of(added[i]) != triple_of(added[j])
    &&& forall|i: int|
        0 <= i < added.len() ==> inferred_edge_set(nodes, exts).contains(
            triple_of(#[trigger] added[i]),
        ) && added[i].metadata == Seq::<(Seq<char>, Seq<char>)>::empty()
    &&& forall|e: EdgeT|
        #[trigger] inferred_edge_set(nodes, exts).contains(e) ==> exists|i: int|
            0 <= i < added.len() && triple_of(added[i]) == e
}

/// Builds the full graph: every batch's nodes are merged into one store,
/// relationships are inferred and inserted, and method names are qualified.
pub fn process_codebase(batches: &Vec<Vec<CodeNode>>, extractions: &Vec<FileNames>) -> (g:
    CodeGraph)
    ensures
        exists|mid: GraphV, added: Seq<RelV>|
            {
                &&& mid == add_batches_v(empty_graph_v(), batch_views(batches@))
                &&& inference_outcome(mid.nodes, files_v(extractions@), added)
                &&& g@ == (GraphV {
                    nodes: qualify_all(#[trigger] add_rels_v(mid, added).nodes),
                    ..add_rels_v(mid, added)
                })
            },
{
    let mut graph = CodeGraph::new();
    let nb = batches.len();
    let mut i: usize = 0;
    proof {
        assert(batch_views(batches@).take(0) =~= Seq::<Seq<NodeV>>::empty());
    }
    while i < nb
        invariant
            0 <= i <= nb,
            nb == batches.len(),
            graph@ == add_batches_v(empty_graph_v(), batch_views(batches@).take(i as int)),
        decreases nb - i,
    {
        let batch = &batches[i];
        let ghost before = graph@;
        let ghost bv = batch_views(batches@)[i as int];
        let m = batch.len();
        let mut j: usize = 0;
        proof {
            assert(bv.take(0) =~= Seq::<NodeV>::empty());
        }
        while j < m
            invariant
                0 <= j <= m,
                m == batch.len(),
                bv == batch_views(batches@)[i as int],
                i < batches@.len(),
                batch == &batches[i as int],
                graph@ == add_nodes_v(before, bv.take(j as int)),
            decreases m - j,
        {
            proof {
                assert(bv.take(j as int + 1).drop_last() =~= bv.take(j as int));
                assert(bv.take(j as int + 1).last() == bv[j as int]);
                assert(bv[j as int] == batch@[j as int]@);
            }
            graph.add_node(batch[j].clone());
            j += 1;
        }
        proof {
            assert(bv.take(m as int) =~= bv);
            assert(batch_views(batches@).take(i as int + 1).drop_last() =~= batch_views(
                batches@,
            ).take(i as int));
            assert(batch_views(batches@).take(i as int + 1).last() == bv);
        }
        i += 1;
    }
    proof {
        assert(batch_views(batches@).take(nb as int) =~= batch_views(batches@));
    }
    let ghost mid = graph@;
    crate::analyzer::identify_relationships(&mut graph, extractions);
    let ghost with_edges = graph@;
    let ghost added = choose|added: Seq<RelV>|
        {
            &&& #[trigger] add_rels_v(mid, added) == with_edges
            &&& forall|a: int, b: int|
                0 <= a < b < added.len() ==> triple_of(added[a]) != triple_of(added[b])
            &&& forall|a: int|
                0 <= a < added.len() ==> inferred_edge_set(mid.nodes, files_v(extractions@)).contains(
                    triple_of(#[trigger] added[a]),
                ) && added[a].metadata == Seq::<(Seq<char>, Seq<char>)>::empty()
            &&& forall|e: EdgeT|
                #[trigger] inferred_edge_set(mid.nodes, files_v(extractions@)).contains(e)
                    ==> exists|a: int| 0 <= a < added.len() && triple_of(added[a]) == e
        };
    crate::analyzer::enhance_method_names(&mut graph);
    proof {
        assert(inference_outcome(mid.nodes, files_v(extractions@), added));
        assert(graph@ == (GraphV { nodes: qualify_all(add_rels_v(mid, added).nodes), ..add_rels_v(
            mid,
            added,
        ) }));
    }
    graph
}

/// Builds the full graph and attaches per-kind summaries, ready for
/// export.
pub fn analyze_codebase(batches: &Vec<Vec<CodeNode>>, extractions: &Vec<FileNames>) -> (g:
    CodeGraph)
    ensures
        exists|mid: GraphV, added: Seq<RelV>|
            {
                &&& mid == add_batches_v(empty_graph_v(), batch_views(batches@))
                &&& inference_outcome(mid.nodes, files_v(extractions@), added)
                &&& g@ == (GraphV {
                    nodes: summarize_all(qualify_all(#[trigger] add_rels_v(mid, added).nodes)),
                    ..add_rels_v(mid, added)
                })
            },
{
    let mut graph = process_codebase(batches, extractions);
    let ghost (mid, added) = choose|mid: GraphV, added: Seq<RelV>|
        {
            &&& mid == add_batches_v(empty_graph_v(), batch_views(batches@))
            &&& inference_outcome(mid.nodes, files_v(extractions@), added)
            &&& graph@ == (GraphV {
                nodes: qualify_all(#[trigger] add_rels_v(mid, added).nodes),
                ..add_rels_v(mid, added)
            })
        };
    crate::analyzer::generate_summaries(&mut graph);
    proof {
        assert(graph@ == (GraphV {
            nodes: summarize_all(qualify_all(add_rels_v(mid, added).nodes)),
            ..add_rels_v(mid, added)
        }));
    }
    graph
}

} // verus!

pub mod error;
pub mod expand;
pub mod expanded;
pub mod graph;
pub mod ports;
pub mod required;
pub mod topo;
pub mod tree;

use vstd::prelude::*;
pub use error::CompileError;
pub use expand::{expand_document, expand_document_within, expansion_depth_ok};
pub use expanded::{ExpandedDocument, ExpandedNode, NodeId};
pub use graph::{build_variable_graph, build_variable_graph_with_window, VarId, VariableGraph, VariableNode};
pub use topo::{sort_graph, TopologicalSchedule};
use crate::ast::Document;
use expand::{document_model, expansion_terminates, nodes_match};
use required::document_missing;
use graph::{build_steps_ok, fold_add};
use topo::{deps_defined, is_closed_walk, is_cycle_report, is_topological_order, kahn_order, remaining_set, VarKey};

verus! {

/// Expands a document and builds its layout graph for the default window.
pub fn compile_to_graph(doc: &Document) -> (r: Result<(ExpandedDocument, VariableGraph), CompileError>)
    requires
        expansion_terminates(*doc),
    ensures
        match document_missing(*doc) {
            None => r matches Ok((e, g)) && nodes_match(e.nodes@, 0, document_model(*doc).0) && e.roots@
                == document_model(*doc).1 && g.wf() && exists|steps: Seq<graph::VariableNode>|
                build_steps_ok(e, "800"@, "600"@, steps) && g@ == fold_add(steps),
            Some(m) => r matches Err(CompileError::MissingPort { node, port, span }) && node@ == m.0
                && port@ == m.1 && span == m.2,
        },
{
    let expanded = match expand_document(doc) {
        Ok(e) => e,
        Err(err) => {
            return Err(err);
        },
    };
    let graph = match build_variable_graph(&expanded) {
        Ok(g) => g,
        Err(err) => {
            return Err(err);
        },
    };
    Ok((expanded, graph))
}

/// Expands a document, builds its layout graph and schedules it. Fails with
/// a cycle report exactly when the graph has no evaluation order.
pub fn compile_and_sort(doc: &Document) -> (r: Result<(ExpandedDocument, VariableGraph, TopologicalSchedule), CompileError>)
    requires
        expansion_terminates(*doc),
    ensures
        r matches Ok((e, g, s)) ==> nodes_match(e.nodes@, 0, document_model(*doc).0) && e.roots@
            == document_model(*doc).1 && g.wf() && (exists|steps: Seq<graph::VariableNode>|
            build_steps_ok(e, "800"@, "600"@, steps) && g@ == fold_add(steps)) && graph::views(s.order@)
            == kahn_order(g@) && is_topological_order(g@, graph::views(s.order@)),
        document_missing(*doc) matches Some(m) ==> (r matches Err(CompileError::MissingPort { node, port, span })
            && node@ == m.0 && port@ == m.1 && span == m.2),
        document_missing(*doc) is None && r is Err ==> (r matches Err(CompileError::CyclicDependency { cycle, span }) && exists|
            e: ExpandedDocument,
            g: VariableGraph,
        |
            nodes_match(e.nodes@, 0, document_model(*doc).0) && e.roots@ == document_model(*doc).1
                && g.wf() && (exists|steps: Seq<graph::VariableNode>|
                build_steps_ok(e, "800"@, "600"@, steps) && g@ == fold_add(steps)) && !(exists|
                o: Seq<VarKey>,
            | is_topological_order(g@, o)) && is_cycle_report(g@, graph::views(cycle@)) && (deps_defined(g@)
                ==> is_closed_walk(g@, graph::views(cycle@), remaining_set(g@, kahn_order(g@)))
                && graph::views(cycle@).drop_last().no_duplicates())),
{
    let (expanded, graph) = match compile_to_graph(doc) {
        Ok(pair) => pair,
        Err(err) => {
            return Err(err);
        },
    };
    proof {
        let steps = choose|steps: Seq<graph::VariableNode>|
            build_steps_ok(expanded, "800"@, "600"@, steps) && graph@ == fold_add(steps);
        graph::lemma_fold_add_mirror(steps);
    }
    match sort_graph(&graph) {
        Ok(schedule) => Ok((expanded, graph, schedule)),
        Err(err) => Err(err),
    }
}

} // verus!

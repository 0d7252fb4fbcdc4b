//! The structural validator: a battery of independent checks over a flow,
//! composed into a single report that collects every detectable violation
//! in one pass, so that tooling can report everything at once.
//!
//! Validation never mutates or repairs the document; it only reports. A
//! flow that fails any check must not be handed to an execution engine.

use vstd::prelude::*;

use crate::xflow::XFlow;
use crate::xflow::XFlowBranch;
use crate::xflow::XFlowEdge;
use crate::xflow::XFlowError;
use crate::xflow::XFlowNode;
use crate::xflow::entry_nodes_of;
use crate::xflow::nodes_with_id;
use crate::xflow::resolves_node_id;
use crate::xflow::terminal_nodes_of;

verus! {

/// One structural violation, naming the broken invariant and the offending
/// entity.
#[derive(Debug, Clone, Copy, PartialEq, Eq)]
pub enum ValidationError {
    /// An edge endpoint that does not resolve to a unique existing node.
    DanglingEdgeEndpoint { edge: XFlowEdge, endpoint: i32 },
    /// A branch whose edge has an endpoint that does not resolve.
    DanglingBranchEdge { edge: XFlowEdge, endpoint: i32 },
    /// A node id carried by more than one node; reported once for each
    /// node that repeats an earlier node's id.
    DuplicateNodeId { id: i32 },
    /// No node is marked as the flow's entry.
    NoEntryNode,
    /// More than one node is marked as the flow's entry.
    MultipleEntryNodes,
    /// No node is marked as a terminal.
    NoTerminalNode,
}

/// The violations one edge contributes: one per endpoint that does not
/// resolve, origin first.
pub open spec fn edge_endpoint_errors(nodes: Seq<XFlowNode>, edge: XFlowEdge) -> Seq<
    ValidationError,
> {
    (if !resolves_node_id(nodes, edge.0 as int) {
        seq![ValidationError::DanglingEdgeEndpoint { edge, endpoint: edge.0 }]
    } else {
        Seq::empty()
    }) + (if !resolves_node_id(nodes, edge.1 as int) {
        seq![ValidationError::DanglingEdgeEndpoint { edge, endpoint: edge.1 }]
    } else {
        Seq::empty()
    })
}

/// The violations of the edges-have-nodes check, in document order.
pub open spec fn edge_errors(nodes: Seq<XFlowNode>, edges: Seq<XFlowEdge>) -> Seq<ValidationError>
    decreases edges.len(),
{
    if edges.len() == 0 {
        Seq::empty()
    } else {
        edge_errors(nodes, edges.drop_last()) + edge_endpoint_errors(nodes, edges.last())
    }
}

/// The violations one branch contributes: one per endpoint of its edge
/// that does not resolve, origin first.
pub open spec fn branch_endpoint_errors(nodes: Seq<XFlowNode>, branch: XFlowBranch) -> Seq<
    ValidationError,
> {
    (if !resolves_node_id(nodes, branch.edge.0 as int) {
        seq![ValidationError::DanglingBranchEdge { edge: branch.edge, endpoint: branch.edge.0 }]
    } else {
        Seq::empty()
    }) + (if !resolves_node_id(nodes, branch.edge.1 as int) {
        seq![ValidationError::DanglingBranchEdge { edge: branch.edge, endpoint: branch.edge.1 }]
    } else {
        Seq::empty()
    })
}

/// The violations of the branches-have-edges check, in document order.
pub open spec fn branch_errors(nodes: Seq<XFlowNode>, branches: Seq<XFlowBranch>) -> Seq<
    ValidationError,
>
    decreases branches.len(),
{
    if branches.len() == 0 {
        Seq::empty()
    } else {
        branch_errors(nodes, branches.drop_last()) + branch_endpoint_errors(
            nodes,
            branches.last(),
        )
    }
}

/// The violations of the unique-node-ids check: one per node that repeats
/// the id of an earlier node, in document order.
pub open spec fn duplicate_id_errors(nodes: Seq<XFlowNode>) -> Seq<ValidationError>
    decreases nodes.len(),
{
    if nodes.len() == 0 {
        Seq::empty()
    } else {
        duplicate_id_errors(nodes.drop_last()) + (if nodes_with_id(
            nodes.drop_last(),
            nodes.last().id as int,
        ).len() > 0 {
            seq![ValidationError::DuplicateNodeId { id: nodes.last().id }]
        } else {
            Seq::empty()
        })
    }
}

/// The violations of the single-entry check.
pub open spec fn entry_errors(nodes: Seq<XFlowNode>) -> Seq<ValidationError> {
    if entry_nodes_of(nodes).len() == 0 {
        seq![ValidationError::NoEntryNode]
    } else if entry_nodes_of(nodes).len() > 1 {
        seq![ValidationError::MultipleEntryNodes]
    } else {
        Seq::empty()
    }
}

/// The violations of the has-terminal check.
pub open spec fn terminal_errors(nodes: Seq<XFlowNode>) -> Seq<ValidationError> {
    if terminal_nodes_of(nodes).len() == 0 {
        seq![ValidationError::NoTerminalNode]
    } else {
        Seq::empty()
    }
}

/// Every violation of a flow, check by check: dangling edge endpoints,
/// dangling branch edges, duplicate node ids, the entry-node check, the
/// terminal-node check. A flow is structurally sound exactly when this
/// sequence is empty.
pub open spec fn validation_errors(flow: XFlow) -> Seq<ValidationError> {
    edge_errors(flow.nodes@, flow.edges@) + branch_errors(flow.nodes@, flow.branches@)
        + duplicate_id_errors(flow.nodes@) + entry_errors(flow.nodes@) + terminal_errors(
        flow.nodes@,
    )
}

proof fn lemma_edge_errors_step(nodes: Seq<XFlowNode>, edges: Seq<XFlowEdge>, i: int)
    requires
        0 <= i < edges.len(),
    ensures
        edge_errors(nodes, edges.take(i + 1)) == edge_errors(nodes, edges.take(i))
            + edge_endpoint_errors(nodes, edges[i]),
{
    let s = edges.take(i + 1);
    assert(s.drop_last() =~= edges.take(i));
    assert(s.last() == edges[i]);
}

proof fn lemma_branch_errors_step(nodes: Seq<XFlowNode>, branches: Seq<XFlowBranch>, i: int)
    requires
        0 <= i < branches.len(),
    ensures
        branch_errors(nodes, branches.take(i + 1)) == branch_errors(nodes, branches.take(i))
            + branch_endpoint_errors(nodes, branches[i]),
{
    let s = branches.take(i + 1);
    assert(s.drop_last() =~= branches.take(i));
    assert(s.last() == branches[i]);
}

proof fn lemma_duplicate_id_errors_step(nodes: Seq<XFlowNode>, i: int)
    requires
        0 <= i < nodes.len(),
    ensures
        duplicate_id_errors(nodes.take(i + 1)) == duplicate_id_errors(nodes.take(i))
            + (if nodes_with_id(nodes.take(i), nodes[i].id as int).len() > 0 {
            seq![ValidationError::DuplicateNodeId { id: nodes[i].id }]
        } else {
            Seq::empty()
        }),
{
    let s = nodes.take(i + 1);
    assert(s.drop_last() =~= nodes.take(i));
    assert(s.last() == nodes[i]);
}

proof fn lemma_nodes_with_id_nonempty(nodes: Seq<XFlowNode>, id: int)
    ensures
        (nodes_with_id(nodes, id).len() > 0) <==> (exists|k: int|
            0 <= k < nodes.len() && nodes[k].id == id),
    decreases nodes.len(),
{
    if nodes.len() > 0 {
        lemma_nodes_with_id_nonempty(nodes.drop_last(), id);
        if nodes.last().id == id {
            assert(nodes[nodes.len() - 1].id == id);
        } else {
            assert(nodes_with_id(nodes, id) == nodes_with_id(nodes.drop_last(), id));
            if exists|k: int| 0 <= k < nodes.len() && nodes[k].id == id {
                let k = choose|k: int| 0 <= k < nodes.len() && nodes[k].id == id;
                assert(nodes.drop_last()[k].id == id);
            }
            if nodes_with_id(nodes, id).len() > 0 {
                let k = choose|k: int|
                    0 <= k < nodes.drop_last().len() && nodes.drop_last()[k].id == id;
                assert(nodes[k].id == id);
            }
        }
    }
}

/// The structural checks. Each returns the violations it found, in
/// document order; `validate` runs the whole battery.
pub struct Validation {}

impl Validation {
    /// Edges-have-nodes: every edge endpoint must resolve to a unique
    /// existing node; each endpoint that does not is reported.
    pub fn all_edges_have_nodes(flow: &XFlow) -> (r: Vec<ValidationError>)
        ensures
            r@ == edge_errors(flow.nodes@, flow.edges@),
    {
        let mut errors: Vec<ValidationError> = Vec::new();
        let mut i: usize = 0;
        while i < flow.edges.len()
            invariant
                i <= flow.edges@.len(),
                errors@ =~= edge_errors(flow.nodes@, flow.edges@.take(i as int)),
            decreases flow.edges@.len() - i,
        {
            let edge = flow.edges[i];
            let ghost prev = errors@;
            if flow.get_node_id(edge.0).is_none() {
                errors.push(ValidationError::DanglingEdgeEndpoint { edge, endpoint: edge.0 });
            }
            if flow.get_node_id(edge.1).is_none() {
                errors.push(ValidationError::DanglingEdgeEndpoint { edge, endpoint: edge.1 });
            }
            proof {
                lemma_edge_errors_step(flow.nodes@, flow.edges@, i as int);
                assert(errors@ =~= prev + edge_endpoint_errors(flow.nodes@, flow.edges@[i as int]));
            }
            i += 1;
        }
        proof {
            assert(flow.edges@.take(flow.edges@.len() as int) =~= flow.edges@);
        }
        errors
    }

    /// Branches-have-edges: every branch's edge must have endpoints that
    /// resolve to existing nodes; each endpoint that does not is reported.
    pub fn all_branches_have_nodes(flow: &XFlow) -> (r: Vec<ValidationError>)
        ensures
            r@ == branch_errors(flow.nodes@, flow.branches@),
    {
        let mut errors: Vec<ValidationError> = Vec::new();
        let mut i: usize = 0;
        while i < flow.branches.len()
            invariant
                i <= flow.branches@.len(),
                errors@ =~= branch_errors(flow.nodes@, flow.branches@.take(i as int)),
            decreases flow.branches@.len() - i,
        {
            let edge = flow.branches[i].edge;
            let ghost prev = errors@;
            if flow.get_node_id(edge.0).is_none() {
                errors.push(ValidationError::DanglingBranchEdge { edge, endpoint: edge.0 });
            }
            if flow.get_node_id(edge.1).is_none() {
                errors.push(ValidationError::DanglingBranchEdge { edge, endpoint: edge.1 });
            }
            proof {
                lemma_branch_errors_step(flow.nodes@, flow.branches@, i as int);
                assert(errors@ =~= prev + branch_endpoint_errors(
                    flow.nodes@,
                    flow.branches@[i as int],
                ));
            }
            i += 1;
        }
        proof {
            assert(flow.branches@.take(flow.branches@.len() as int) =~= flow.branches@);
        }
        errors
    }

    /// Unique-node-ids: no two nodes may share an id; each node that
    /// repeats an earlier node's id is reported.
    pub fn all_node_ids_unique(flow: &XFlow) -> (r: Vec<ValidationError>)
        ensures
            r@ == duplicate_id_errors(flow.nodes@),
    {
        let mut errors: Vec<ValidationError> = Vec::new();
        let mut i: usize = 0;
        while i < flow.nodes.len()
            invariant
                i <= flow.nodes@.len(),
                errors@ =~= duplicate_id_errors(flow.nodes@.take(i as int)),
            decreases flow.nodes@.len() - i,
        {
            let id = flow.nodes[i].id;
            let mut dup = false;
            let mut j: usize = 0;
            while j < i
                invariant
                    j <= i < flow.nodes@.len(),
                    id == flow.nodes@[i as int].id,
                    dup == (exists|k: int| 0 <= k < j && flow.nodes@[k].id == id),
                decreases i - j,
            {
                if flow.nodes[j].id == id {
                    dup = true;
                    proof {
                        assert(flow.nodes@[j as int].id == id);
                    }
                }
                j += 1;
            }
            let ghost prev = errors@;
            if dup {
                errors.push(ValidationError::DuplicateNodeId { id });
            }
            proof {
                let taken = flow.nodes@.take(i as int);
                lemma_nodes_with_id_nonempty(taken, id as int);
                if dup {
                    let k = choose|k: int| 0 <= k < i && flow.nodes@[k].id == id;
                    assert(taken[k].id == id);
                } else if nodes_with_id(taken, id as int).len() > 0 {
                    let k = choose|k: int| 0 <= k < taken.len() && taken[k].id == id;
                    assert(flow.nodes@[k].id == id);
                }
                lemma_duplicate_id_errors_step(flow.nodes@, i as int);
                assert(errors@ =~= duplicate_id_errors(flow.nodes@.take(i as int + 1)));
            }
            i += 1;
        }
        proof {
            assert(flow.nodes@.take(flow.nodes@.len() as int) =~= flow.nodes@);
        }
        errors
    }

    /// Single-entry: the flow must have exactly one entry node.
    pub fn has_single_entry_node(flow: &XFlow) -> (r: Vec<ValidationError>)
        ensures
            r@ == entry_errors(flow.nodes@),
    {
        let mut errors: Vec<ValidationError> = Vec::new();
        match flow.get_entry_node() {
            Ok(_) => {},
            Err(XFlowError::NoEntryNode) => {
                errors.push(ValidationError::NoEntryNode);
            },
            Err(XFlowError::MultipleEntryNodes) => {
                errors.push(ValidationError::MultipleEntryNodes);
            },
            Err(XFlowError::NoTerminalNode) => {
                proof {
                    assert(false);
                }
            },
        }
        proof {
            assert(errors@ =~= entry_errors(flow.nodes@));
        }
        errors
    }

    /// Has-terminal: the flow must have at least one terminal node.
    pub fn has_terminal_nodes(flow: &XFlow) -> (r: Vec<ValidationError>)
        ensures
            r@ == terminal_errors(flow.nodes@),
    {
        let mut errors: Vec<ValidationError> = Vec::new();
        match flow.get_terminal_nodes() {
            Ok(_) => {},
            Err(XFlowError::NoTerminalNode) => {
                errors.push(ValidationError::NoTerminalNode);
            },
            Err(XFlowError::NoEntryNode) | Err(XFlowError::MultipleEntryNodes) => {
                proof {
                    assert(false);
                }
            },
        }
        proof {
            assert(errors@ =~= terminal_errors(flow.nodes@));
        }
        errors
    }

    /// The whole battery, without short-circuiting: every detectable
    /// violation of the flow, check by check, in document order within
    /// each check. The flow is valid exactly when the result is empty.
    pub fn validate(flow: &XFlow) -> (r: Vec<ValidationError>)
        ensures
            r@ == validation_errors(*flow),
    {
        let mut errors = Self::all_edges_have_nodes(flow);
        let mut more = Self::all_branches_have_nodes(flow);
        errors.append(&mut more);
        let mut more = Self::all_node_ids_unique(flow);
        errors.append(&mut more);
        let mut more = Self::has_single_entry_node(flow);
        errors.append(&mut more);
        let mut more = Self::has_terminal_nodes(flow);
        errors.append(&mut more);
        errors
    }
}

} // verus!

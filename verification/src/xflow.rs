//! The XFlow document model and the read-only graph query engine.
//!
//! A flow is a directed graph: typed nodes, edges given as ordered pairs of
//! node ids, guard branches attached to edges, and a three-scope variable
//! namespace (input / local / output). All collections are insertion-ordered
//! sequences; every query preserves document order.

use vstd::prelude::*;

verus! {

/// An edge is the ordered pair `(from-node-id, to-node-id)`. Edges have no
/// identity beyond their endpoints, and parallel edges are permitted.
pub type XFlowEdge = (i32, i32);

/// Node `parameters` are an opaque structured payload that only the
/// execution engine interprets; this core carries it through untouched.
#[verifier::external_type_specification]
#[verifier::external_body]
pub struct ExSerdeJsonValue(serde_json::Value);

/// The declared type of a value: which variant an `XFlowValue` must hold.
#[derive(Debug, Clone, Copy, PartialEq, Eq)]
pub enum XFlowValueType {
    String,
    Integer,
    Boolean,
}

/// A scalar value: exactly one variant at a time, no coercion between
/// variants.
#[derive(Debug, Clone, PartialEq, Eq)]
pub enum XFlowValue {
    String(String),
    Integer(i64),
    Boolean(bool),
}

/// A declared external capability/version dependency of a flow; purely
/// descriptive.
#[derive(Debug, Clone, PartialEq, Eq)]
pub struct XFlowRequirement {
    pub xtype: String,
    pub version: i32,
}

/// Declares an input or output parameter without a bound value.
#[derive(Debug, Clone, PartialEq, Eq)]
pub struct XFlowVariableDefinition {
    pub name: String,
    pub vtype: XFlowValueType,
}

/// A bound variable: a name, a declared type, and a value whose variant is
/// expected to match the declared type (see [`value_has_type`]).
#[derive(Debug, Clone, PartialEq, Eq)]
pub struct XFlowVariable {
    pub name: String,
    pub vtype: XFlowValueType,
    pub value: XFlowValue,
}

/// The three independent variable scopes of a flow.
#[derive(Debug, Clone, PartialEq, Eq)]
pub struct XFlowVariables {
    pub input: Vec<XFlowVariableDefinition>,
    pub local: Vec<XFlowVariable>,
    pub output: Vec<XFlowVariableDefinition>,
}

/// A node of the graph. `id` is its identity within the owning flow
/// (uniqueness is a validator concern, not enforced by construction);
/// `nodetype` and `action` jointly classify its role.
#[derive(Debug)]
pub struct XFlowNode {
    pub id: i32,
    pub nodetype: String,
    pub label: String,
    pub action: String,
    pub parameters: Option<serde_json::Value>,
}

/// A guard condition attached to one edge, used to pick among multiple
/// outgoing edges. Several branches may reference the same edge.
#[derive(Debug, PartialEq, Eq)]
pub struct XFlowBranch {
    pub edge: XFlowEdge,
    pub xvar: XFlowVariable,
}

/// The graph proper.
#[derive(Debug)]
pub struct XFlow {
    pub requirements: Vec<XFlowRequirement>,
    pub variables: XFlowVariables,
    pub nodes: Vec<XFlowNode>,
    pub edges: Vec<XFlowEdge>,
    pub branches: Vec<XFlowBranch>,
}

/// The envelope around a flow: identity and version metadata.
#[derive(Debug)]
pub struct XFlowDocument {
    pub id: String,
    pub name: String,
    pub doctype: String,
    pub doctype_version: i32,
    pub version: i32,
    pub doc: XFlow,
}

/// The errors the entry/terminal lookups report.
#[derive(Debug, Clone, Copy, PartialEq, Eq)]
pub enum XFlowError {
    NoEntryNode,
    MultipleEntryNodes,
    NoTerminalNode,
}

/// Whether a value's variant matches a declared type.
pub open spec fn value_has_type(v: XFlowValue, t: XFlowValueType) -> bool {
    match v {
        XFlowValue::String(_) => t is String,
        XFlowValue::Integer(_) => t is Integer,
        XFlowValue::Boolean(_) => t is Boolean,
    }
}

impl XFlowValue {
    /// Decides whether this value's variant matches the declared type `t`;
    /// there is no coercion between variants.
    pub fn matches_type(&self, t: &XFlowValueType) -> (r: bool)
        ensures
            r == value_has_type(*self, *t),
    {
        match (self, t) {
            (XFlowValue::String(_), XFlowValueType::String) => true,
            (XFlowValue::Integer(_), XFlowValueType::Integer) => true,
            (XFlowValue::Boolean(_), XFlowValueType::Boolean) => true,
            _ => false,
        }
    }
}

/// Relies on `str`'s `PartialEq`: two string slices are equal exactly when
/// their characters are equal.
#[verifier::external_body]
fn str_eq(a: &str, b: &str) -> (r: bool)
    ensures
        r == (a@ == b@),
{
    a == b
}

/// A node matches a kind/action query when both fields are equal,
/// case-sensitively.
pub open spec fn node_matches(n: XFlowNode, nodetype: Seq<char>, action: Seq<char>) -> bool {
    n.nodetype@ == nodetype && n.action@ == action
}

/// The subsequence of `nodes`, in document order, whose `nodetype` and
/// `action` both match.
pub open spec fn nodes_by_kind_action(
    nodes: Seq<XFlowNode>,
    nodetype: Seq<char>,
    action: Seq<char>,
) -> Seq<XFlowNode>
    decreases nodes.len(),
{
    if nodes.len() == 0 {
        Seq::empty()
    } else {
        let rest = nodes_by_kind_action(nodes.drop_last(), nodetype, action);
        if node_matches(nodes.last(), nodetype, action) {
            rest.push(nodes.last())
        } else {
            rest
        }
    }
}

/// The subsequence of `nodes`, in document order, whose `nodetype` matches.
pub open spec fn nodes_by_kind(nodes: Seq<XFlowNode>, nodetype: Seq<char>) -> Seq<XFlowNode>
    decreases nodes.len(),
{
    if nodes.len() == 0 {
        Seq::empty()
    } else {
        let rest = nodes_by_kind(nodes.drop_last(), nodetype);
        if nodes.last().nodetype@ == nodetype {
            rest.push(nodes.last())
        } else {
            rest
        }
    }
}

/// A sequence of node references, seen as the nodes themselves.
pub open spec fn deref_nodes(s: Seq<&XFlowNode>) -> Seq<XFlowNode> {
    s.map_values(|n: &XFlowNode| *n)
}

proof fn lemma_nodes_by_kind_action_step(
    nodes: Seq<XFlowNode>,
    nodetype: Seq<char>,
    action: Seq<char>,
    i: int,
)
    requires
        0 <= i < nodes.len(),
    ensures
        nodes_by_kind_action(nodes.take(i + 1), nodetype, action) == (if node_matches(
            nodes[i],
            nodetype,
            action,
        ) {
            nodes_by_kind_action(nodes.take(i), nodetype, action).push(nodes[i])
        } else {
            nodes_by_kind_action(nodes.take(i), nodetype, action)
        }),
{
    let s = nodes.take(i + 1);
    assert(s.drop_last() =~= nodes.take(i));
    assert(s.last() == nodes[i]);
}

proof fn lemma_nodes_by_kind_step(nodes: Seq<XFlowNode>, nodetype: Seq<char>, i: int)
    requires
        0 <= i < nodes.len(),
    ensures
        nodes_by_kind(nodes.take(i + 1), nodetype) == (if nodes[i].nodetype@ == nodetype {
            nodes_by_kind(nodes.take(i), nodetype).push(nodes[i])
        } else {
            nodes_by_kind(nodes.take(i), nodetype)
        }),
{
    let s = nodes.take(i + 1);
    assert(s.drop_last() =~= nodes.take(i));
    assert(s.last() == nodes[i]);
}

/// The subsequence of `edges`, in document order, that arrive at the node
/// with the given id.
pub open spec fn in_edges_of(edges: Seq<XFlowEdge>, id: int) -> Seq<XFlowEdge>
    decreases edges.len(),
{
    if edges.len() == 0 {
        Seq::empty()
    } else {
        let rest = in_edges_of(edges.drop_last(), id);
        if edges.last().1 == id {
            rest.push(edges.last())
        } else {
            rest
        }
    }
}

/// The subsequence of `edges`, in document order, that leave the node with
/// the given id.
pub open spec fn out_edges_of(edges: Seq<XFlowEdge>, id: int) -> Seq<XFlowEdge>
    decreases edges.len(),
{
    if edges.len() == 0 {
        Seq::empty()
    } else {
        let rest = out_edges_of(edges.drop_last(), id);
        if edges.last().0 == id {
            rest.push(edges.last())
        } else {
            rest
        }
    }
}

/// The subsequence of `branches`, in document order, attached to an edge
/// with the given endpoints (edge equality is by endpoint-pair value).
pub open spec fn branches_of_edge(branches: Seq<XFlowBranch>, edge: XFlowEdge) -> Seq<XFlowBranch>
    decreases branches.len(),
{
    if branches.len() == 0 {
        Seq::empty()
    } else {
        let rest = branches_of_edge(branches.drop_last(), edge);
        if branches.last().edge.0 == edge.0 && branches.last().edge.1 == edge.1 {
            rest.push(branches.last())
        } else {
            rest
        }
    }
}

/// The subsequence of `branches`, in document order, whose edge leaves the
/// node with the given id.
pub open spec fn out_branches_of(branches: Seq<XFlowBranch>, id: int) -> Seq<XFlowBranch>
    decreases branches.len(),
{
    if branches.len() == 0 {
        Seq::empty()
    } else {
        let rest = out_branches_of(branches.drop_last(), id);
        if branches.last().edge.0 == id {
            rest.push(branches.last())
        } else {
            rest
        }
    }
}

/// A sequence of edge references, seen as the edges themselves.
pub open spec fn deref_edges(s: Seq<&XFlowEdge>) -> Seq<XFlowEdge> {
    s.map_values(|e: &XFlowEdge| *e)
}

/// A sequence of branch references, seen as the branches themselves.
pub open spec fn deref_branches(s: Seq<&XFlowBranch>) -> Seq<XFlowBranch> {
    s.map_values(|b: &XFlowBranch| *b)
}

proof fn lemma_in_edges_step(edges: Seq<XFlowEdge>, id: int, i: int)
    requires
        0 <= i < edges.len(),
    ensures
        in_edges_of(edges.take(i + 1), id) == (if edges[i].1 == id {
            in_edges_of(edges.take(i), id).push(edges[i])
        } else {
            in_edges_of(edges.take(i), id)
        }),
{
    let s = edges.take(i + 1);
    assert(s.drop_last() =~= edges.take(i));
    assert(s.last() == edges[i]);
}

proof fn lemma_out_edges_step(edges: Seq<XFlowEdge>, id: int, i: int)
    requires
        0 <= i < edges.len(),
    ensures
        out_edges_of(edges.take(i + 1), id) == (if edges[i].0 == id {
            out_edges_of(edges.take(i), id).push(edges[i])
        } else {
            out_edges_of(edges.take(i), id)
        }),
{
    let s = edges.take(i + 1);
    assert(s.drop_last() =~= edges.take(i));
    assert(s.last() == edges[i]);
}

proof fn lemma_branches_of_edge_step(branches: Seq<XFlowBranch>, edge: XFlowEdge, i: int)
    requires
        0 <= i < branches.len(),
    ensures
        branches_of_edge(branches.take(i + 1), edge) == (if branches[i].edge.0 == edge.0
            && branches[i].edge.1 == edge.1 {
            branches_of_edge(branches.take(i), edge).push(branches[i])
        } else {
            branches_of_edge(branches.take(i), edge)
        }),
{
    let s = branches.take(i + 1);
    assert(s.drop_last() =~= branches.take(i));
    assert(s.last() == branches[i]);
}

proof fn lemma_out_branches_step(branches: Seq<XFlowBranch>, id: int, i: int)
    requires
        0 <= i < branches.len(),
    ensures
        out_branches_of(branches.take(i + 1), id) == (if branches[i].edge.0 == id {
            out_branches_of(branches.take(i), id).push(branches[i])
        } else {
            out_branches_of(branches.take(i), id)
        }),
{
    let s = branches.take(i + 1);
    assert(s.drop_last() =~= branches.take(i));
    assert(s.last() == branches[i]);
}

impl XFlow {
    /// All nodes whose `nodetype` and `action` equal the given strings, in
    /// document order.
    pub fn get_nodes_by(&self, nodetype: &str, action: &str) -> (r: Vec<&XFlowNode>)
        ensures
            deref_nodes(r@) == nodes_by_kind_action(self.nodes@, nodetype@, action@),
    {
        let mut result: Vec<&XFlowNode> = Vec::new();
        let mut i: usize = 0;
        while i < self.nodes.len()
            invariant
                i <= self.nodes@.len(),
                deref_nodes(result@) =~= nodes_by_kind_action(
                    self.nodes@.take(i as int),
                    nodetype@,
                    action@,
                ),
            decreases self.nodes@.len() - i,
        {
            let node = &self.nodes[i];
            let ghost prev = result@;
            if str_eq(node.nodetype.as_str(), nodetype) && str_eq(node.action.as_str(), action) {
                result.push(node);
            }
            proof {
                lemma_nodes_by_kind_action_step(self.nodes@, nodetype@, action@, i as int);
                assert(deref_nodes(result@) =~= (if node_matches(self.nodes@[i as int], nodetype@, action@) {
                    deref_nodes(prev).push(self.nodes@[i as int])
                } else {
                    deref_nodes(prev)
                }));
            }
            i += 1;
        }
        proof {
            assert(self.nodes@.take(self.nodes@.len() as int) =~= self.nodes@);
        }
        result
    }

    /// All nodes whose `nodetype` equals the given string, in document
    /// order.
    pub fn get_nodes_of_type(&self, nodetype: &str) -> (r: Vec<&XFlowNode>)
        ensures
            deref_nodes(r@) == nodes_by_kind(self.nodes@, nodetype@),
    {
        let mut result: Vec<&XFlowNode> = Vec::new();
        let mut i: usize = 0;
        while i < self.nodes.len()
            invariant
                i <= self.nodes@.len(),
                deref_nodes(result@) =~= nodes_by_kind(self.nodes@.take(i as int), nodetype@),
            decreases self.nodes@.len() - i,
        {
            let node = &self.nodes[i];
            let ghost prev = result@;
            if str_eq(node.nodetype.as_str(), nodetype) {
                result.push(node);
            }
            proof {
                lemma_nodes_by_kind_step(self.nodes@, nodetype@, i as int);
                assert(deref_nodes(result@) =~= (if self.nodes@[i as int].nodetype@ == nodetype@ {
                    deref_nodes(prev).push(self.nodes@[i as int])
                } else {
                    deref_nodes(prev)
                }));
            }
            i += 1;
        }
        proof {
            assert(self.nodes@.take(self.nodes@.len() as int) =~= self.nodes@);
        }
        result
    }

    /// All edges that arrive at `node`, in document order. Every returned
    /// edge has the node's id as its destination.
    pub fn get_in_edges(&self, node: &XFlowNode) -> (r: Vec<&XFlowEdge>)
        ensures
            deref_edges(r@) == in_edges_of(self.edges@, node.id as int),
            forall|j: int| 0 <= j < r@.len() ==> (#[trigger] r@[j]).1 == node.id,
    {
        let mut result: Vec<&XFlowEdge> = Vec::new();
        let mut i: usize = 0;
        while i < self.edges.len()
            invariant
                i <= self.edges@.len(),
                deref_edges(result@) =~= in_edges_of(self.edges@.take(i as int), node.id as int),
            decreases self.edges@.len() - i,
        {
            let edge = &self.edges[i];
            let ghost prev = result@;
            if edge.1 == node.id {
                result.push(edge);
            }
            proof {
                lemma_in_edges_step(self.edges@, node.id as int, i as int);
                assert(deref_edges(result@) =~= (if self.edges@[i as int].1 == node.id {
                    deref_edges(prev).push(self.edges@[i as int])
                } else {
                    deref_edges(prev)
                }));
            }
            i += 1;
        }
        proof {
            assert(self.edges@.take(self.edges@.len() as int) =~= self.edges@);
            lemma_in_edges_arrive(self.edges@, node.id as int);
            assert forall|j: int| 0 <= j < result@.len() implies (#[trigger] result@[j]).1
                == node.id by {
                assert(deref_edges(result@)[j] == *result@[j]);
            }
        }
        result
    }

    /// All edges that leave `node`, in document order. Every returned edge
    /// has the node's id as its origin.
    pub fn get_out_edges(&self, node: &XFlowNode) -> (r: Vec<&XFlowEdge>)
        ensures
            deref_edges(r@) == out_edges_of(self.edges@, node.id as int),
            forall|j: int| 0 <= j < r@.len() ==> (#[trigger] r@[j]).0 == node.id,
    {
        let mut result: Vec<&XFlowEdge> = Vec::new();
        let mut i: usize = 0;
        while i < self.edges.len()
            invariant
                i <= self.edges@.len(),
                deref_edges(result@) =~= out_edges_of(self.edges@.take(i as int), node.id as int),
            decreases self.edges@.len() - i,
        {
            let edge = &self.edges[i];
            let ghost prev = result@;
            if edge.0 == node.id {
                result.push(edge);
            }
            proof {
                lemma_out_edges_step(self.edges@, node.id as int, i as int);
                assert(deref_edges(result@) =~= (if self.edges@[i as int].0 == node.id {
                    deref_edges(prev).push(self.edges@[i as int])
                } else {
                    deref_edges(prev)
                }));
            }
            i += 1;
        }
        proof {
            assert(self.edges@.take(self.edges@.len() as int) =~= self.edges@);
            lemma_out_edges_leave(self.edges@, node.id as int);
            assert forall|j: int| 0 <= j < result@.len() implies (#[trigger] result@[j]).0
                == node.id by {
                assert(deref_edges(result@)[j] == *result@[j]);
            }
        }
        result
    }

    /// All branches attached to an edge with the given endpoints, in
    /// document order.
    pub fn get_branches_for(&self, edge: &XFlowEdge) -> (r: Vec<&XFlowBranch>)
        ensures
            deref_branches(r@) == branches_of_edge(self.branches@, *edge),
    {
        let mut result: Vec<&XFlowBranch> = Vec::new();
        let mut i: usize = 0;
        while i < self.branches.len()
            invariant
                i <= self.branches@.len(),
                deref_branches(result@) =~= branches_of_edge(self.branches@.take(i as int), *edge),
            decreases self.branches@.len() - i,
        {
            let branch = &self.branches[i];
            let ghost prev = result@;
            if edge.0 == branch.edge.0 && edge.1 == branch.edge.1 {
                result.push(branch);
            }
            proof {
                lemma_branches_of_edge_step(self.branches@, *edge, i as int);
                assert(deref_branches(result@) =~= (if self.branches@[i as int].edge.0 == edge.0
                    && self.branches@[i as int].edge.1 == edge.1 {
                    deref_branches(prev).push(self.branches@[i as int])
                } else {
                    deref_branches(prev)
                }));
            }
            i += 1;
        }
        proof {
            assert(self.branches@.take(self.branches@.len() as int) =~= self.branches@);
        }
        result
    }

    /// All branches whose edge leaves the node with the given id, in
    /// document order.
    pub fn get_out_branches(&self, id: i32) -> (r: Vec<&XFlowBranch>)
        ensures
            deref_branches(r@) == out_branches_of(self.branches@, id as int),
    {
        let mut result: Vec<&XFlowBranch> = Vec::new();
        let mut i: usize = 0;
        while i < self.branches.len()
            invariant
                i <= self.branches@.len(),
                deref_branches(result@) =~= out_branches_of(self.branches@.take(i as int), id as int),
            decreases self.branches@.len() - i,
        {
            let branch = &self.branches[i];
            let ghost prev = result@;
            if branch.edge.0 == id {
                result.push(branch);
            }
            proof {
                lemma_out_branches_step(self.branches@, id as int, i as int);
                assert(deref_branches(result@) =~= (if self.branches@[i as int].edge.0 == id {
                    deref_branches(prev).push(self.branches@[i as int])
                } else {
                    deref_branches(prev)
                }));
            }
            i += 1;
        }
        proof {
            assert(self.branches@.take(self.branches@.len() as int) =~= self.branches@);
        }
        result
    }
}

/// The subsequence of `nodes`, in document order, that carry the given id.
pub open spec fn nodes_with_id(nodes: Seq<XFlowNode>, id: int) -> Seq<XFlowNode>
    decreases nodes.len(),
{
    if nodes.len() == 0 {
        Seq::empty()
    } else {
        let rest = nodes_with_id(nodes.drop_last(), id);
        if nodes.last().id == id {
            rest.push(nodes.last())
        } else {
            rest
        }
    }
}

/// A node id resolves when exactly one node carries it: a missing id and an
/// ambiguous (duplicated) id both fail to resolve.
pub open spec fn resolves_node_id(nodes: Seq<XFlowNode>, id: int) -> bool {
    nodes_with_id(nodes, id).len() == 1
}

/// The nodes marked as graph entries: `nodetype == "flow"`, `action ==
/// "start"`.
pub open spec fn entry_nodes_of(nodes: Seq<XFlowNode>) -> Seq<XFlowNode> {
    nodes_by_kind_action(nodes, "flow"@, "start"@)
}

/// The nodes marked as terminals: `nodetype == "flow"`, `action == "end"`.
pub open spec fn terminal_nodes_of(nodes: Seq<XFlowNode>) -> Seq<XFlowNode> {
    nodes_by_kind_action(nodes, "flow"@, "end"@)
}

proof fn lemma_nodes_with_id_step(nodes: Seq<XFlowNode>, id: int, i: int)
    requires
        0 <= i < nodes.len(),
    ensures
        nodes_with_id(nodes.take(i + 1), id) == (if nodes[i].id == id {
            nodes_with_id(nodes.take(i), id).push(nodes[i])
        } else {
            nodes_with_id(nodes.take(i), id)
        }),
{
    let s = nodes.take(i + 1);
    assert(s.drop_last() =~= nodes.take(i));
    assert(s.last() == nodes[i]);
}

impl XFlow {
    /// The unique node carrying `id`, or `None` when no node or more than
    /// one node does: an ambiguous id is treated as absent, never resolved
    /// to an arbitrary pick.
    pub fn get_node_id(&self, id: i32) -> (r: Option<&XFlowNode>)
        ensures
            (r is Some) == resolves_node_id(self.nodes@, id as int),
            r is Some ==> *r->0 == nodes_with_id(self.nodes@, id as int)[0],
    {
        let mut nodes: Vec<&XFlowNode> = Vec::new();
        let mut i: usize = 0;
        while i < self.nodes.len()
            invariant
                i <= self.nodes@.len(),
                deref_nodes(nodes@) =~= nodes_with_id(self.nodes@.take(i as int), id as int),
            decreases self.nodes@.len() - i,
        {
            let node = &self.nodes[i];
            let ghost prev = nodes@;
            if node.id == id {
                nodes.push(node);
            }
            proof {
                lemma_nodes_with_id_step(self.nodes@, id as int, i as int);
                assert(deref_nodes(nodes@) =~= (if self.nodes@[i as int].id == id {
                    deref_nodes(prev).push(self.nodes@[i as int])
                } else {
                    deref_nodes(prev)
                }));
            }
            i += 1;
        }
        proof {
            assert(self.nodes@.take(self.nodes@.len() as int) =~= self.nodes@);
        }
        if nodes.len() == 1 {
            proof {
                assert(deref_nodes(nodes@)[0] == *nodes@[0]);
            }
            Some(nodes[0])
        } else {
            None
        }
    }

    /// The unique entry node of the flow, or an error: `NoEntryNode` when
    /// no node is marked as an entry, `MultipleEntryNodes` when more than
    /// one is.
    pub fn get_entry_node(&self) -> (r: Result<&XFlowNode, XFlowError>)
        ensures
            entry_nodes_of(self.nodes@).len() == 0 ==> r == Err::<&XFlowNode, XFlowError>(
                XFlowError::NoEntryNode,
            ),
            entry_nodes_of(self.nodes@).len() == 1 ==> (r matches Ok(n) && *n == entry_nodes_of(
                self.nodes@,
            )[0]),
            entry_nodes_of(self.nodes@).len() > 1 ==> r == Err::<&XFlowNode, XFlowError>(
                XFlowError::MultipleEntryNodes,
            ),
    {
        let res = self.get_nodes_by("flow", "start");
        proof {
            if deref_nodes(res@).len() == 1 {
                assert(deref_nodes(res@)[0] == *res@[0]);
            }
        }
        match res.len() {
            0 => Err(XFlowError::NoEntryNode),
            1 => Ok(res[0]),
            _ => Err(XFlowError::MultipleEntryNodes),
        }
    }

    /// All terminal nodes of the flow, in document order, or
    /// `NoTerminalNode` when there is none.
    pub fn get_terminal_nodes(&self) -> (r: Result<Vec<&XFlowNode>, XFlowError>)
        ensures
            terminal_nodes_of(self.nodes@).len() == 0 ==> r == Err::<Vec<&XFlowNode>, XFlowError>(
                XFlowError::NoTerminalNode,
            ),
            terminal_nodes_of(self.nodes@).len() > 0 ==> (r matches Ok(v) && deref_nodes(v@)
                == terminal_nodes_of(self.nodes@)),
    {
        let res = self.get_nodes_by("flow", "end");
        match res.len() {
            0 => Err(XFlowError::NoTerminalNode),
            _ => Ok(res),
        }
    }
}

/// The names declared by a sequence of variable definitions, in order.
pub open spec fn def_names(defs: Seq<XFlowVariableDefinition>) -> Seq<Seq<char>> {
    defs.map_values(|d: XFlowVariableDefinition| d.name@)
}

/// The names of a sequence of bound variables, in order.
pub open spec fn var_names(vars: Seq<XFlowVariable>) -> Seq<Seq<char>> {
    vars.map_values(|v: XFlowVariable| v.name@)
}

/// First-occurrence de-duplication: each name is kept at its first
/// appearance and dropped at every later one.
pub open spec fn dedup_names(names: Seq<Seq<char>>) -> Seq<Seq<char>>
    decreases names.len(),
{
    if names.len() == 0 {
        Seq::empty()
    } else {
        let rest = dedup_names(names.drop_last());
        if rest.contains(names.last()) {
            rest
        } else {
            rest.push(names.last())
        }
    }
}

/// The distinct variable names of a flow, input scope first, then local,
/// then output, each name at its first appearance.
pub open spec fn all_variable_names_of(vars: XFlowVariables) -> Seq<Seq<char>> {
    dedup_names(def_names(vars.input@) + var_names(vars.local@) + def_names(vars.output@))
}

/// The distinct variable names of a flow, local scope first, then input,
/// then output, each name at its first appearance.
pub open spec fn local_first_variable_names_of(vars: XFlowVariables) -> Seq<Seq<char>> {
    dedup_names(var_names(vars.local@) + def_names(vars.input@) + def_names(vars.output@))
}

/// A sequence of strings, seen as the sequences of characters they hold.
pub open spec fn names_view(names: Seq<String>) -> Seq<Seq<char>> {
    names.map_values(|s: String| s@)
}

proof fn lemma_dedup_push(names: Seq<Seq<char>>, x: Seq<char>)
    ensures
        dedup_names(names.push(x)) == (if dedup_names(names).contains(x) {
            dedup_names(names)
        } else {
            dedup_names(names).push(x)
        }),
{
    assert(names.push(x).drop_last() =~= names);
    assert(names.push(x).last() == x);
}

/// Whether one of `names` holds exactly the characters of `name`.
fn contains_name(names: &Vec<String>, name: &str) -> (r: bool)
    ensures
        r == names_view(names@).contains(name@),
{
    let mut found = false;
    let mut i: usize = 0;
    while i < names.len()
        invariant
            i <= names@.len(),
            found == exists|k: int| 0 <= k < i && names@[k]@ == name@,
        decreases names@.len() - i,
    {
        if str_eq(names[i].as_str(), name) {
            found = true;
            proof {
                assert(names@[i as int]@ == name@);
            }
        }
        i += 1;
    }
    proof {
        if found {
            let k = choose|k: int| 0 <= k < names@.len() && names@[k]@ == name@;
            assert(names_view(names@)[k] == name@);
            assert(names_view(names@).contains(name@));
        } else if names_view(names@).contains(name@) {
            let k = choose|k: int|
                0 <= k < names_view(names@).len() && names_view(names@)[k] == name@;
            assert(names@[k]@ == name@);
        }
    }
    found
}

impl XFlow {
    /// The distinct variable names over the input, local and output scopes,
    /// input scope first, each name at its first appearance.
    pub fn all_variable_names(&self) -> (r: Vec<String>)
        ensures
            names_view(r@) == all_variable_names_of(self.variables),
    {
        let ghost a = def_names(self.variables.input@);
        let ghost b = var_names(self.variables.local@);
        let ghost c = def_names(self.variables.output@);
        let mut vars: Vec<String> = Vec::new();
        let mut i: usize = 0;
        while i < self.variables.input.len()
            invariant
                i <= self.variables.input@.len(),
                a == def_names(self.variables.input@),
                names_view(vars@) =~= dedup_names(a.take(i as int)),
            decreases self.variables.input@.len() - i,
        {
            let name = &self.variables.input[i].name;
            let ghost prev = vars@;
            if !contains_name(&vars, name.as_str()) {
                vars.push(name.clone());
                proof {
                    assert(names_view(vars@) =~= names_view(prev).push(name@));
                }
            }
            proof {
                assert(a.take(i + 1) =~= a.take(i as int).push(a[i as int]));
                lemma_dedup_push(a.take(i as int), a[i as int]);
                assert(a[i as int] == name@);
            }
            i += 1;
        }
        proof {
            assert(a.take(a.len() as int) =~= a);
        }
        let mut i: usize = 0;
        while i < self.variables.local.len()
            invariant
                i <= self.variables.local@.len(),
                a == def_names(self.variables.input@),
                b == var_names(self.variables.local@),
                names_view(vars@) =~= dedup_names(a + b.take(i as int)),
            decreases self.variables.local@.len() - i,
        {
            let name = &self.variables.local[i].name;
            let ghost prev = vars@;
            if !contains_name(&vars, name.as_str()) {
                vars.push(name.clone());
                proof {
                    assert(names_view(vars@) =~= names_view(prev).push(name@));
                }
            }
            proof {
                assert(a + b.take(i + 1) =~= (a + b.take(i as int)).push(b[i as int]));
                lemma_dedup_push(a + b.take(i as int), b[i as int]);
                assert(b[i as int] == name@);
            }
            i += 1;
        }
        proof {
            assert(a + b.take(b.len() as int) =~= a + b);
        }
        let mut i: usize = 0;
        while i < self.variables.output.len()
            invariant
                i <= self.variables.output@.len(),
                a == def_names(self.variables.input@),
                b == var_names(self.variables.local@),
                c == def_names(self.variables.output@),
                names_view(vars@) =~= dedup_names(a + b + c.take(i as int)),
            decreases self.variables.output@.len() - i,
        {
            let name = &self.variables.output[i].name;
            let ghost prev = vars@;
            if !contains_name(&vars, name.as_str()) {
                vars.push(name.clone());
                proof {
                    assert(names_view(vars@) =~= names_view(prev).push(name@));
                }
            }
            proof {
                assert(a + b + c.take(i + 1) =~= (a + b + c.take(i as int)).push(c[i as int]));
                lemma_dedup_push(a + b + c.take(i as int), c[i as int]);
                assert(c[i as int] == name@);
            }
            i += 1;
        }
        proof {
            assert(a + b + c.take(c.len() as int) =~= a + b + c);
        }
        vars
    }

    /// The distinct variable names over the three scopes, local scope
    /// first, then input, then output, each name at its first appearance.
    pub fn get_all_variable_names(&self) -> (r: Vec<String>)
        ensures
            names_view(r@) == local_first_variable_names_of(self.variables),
    {
        let ghost a = var_names(self.variables.local@);
        let ghost b = def_names(self.variables.input@);
        let ghost c = def_names(self.variables.output@);
        let mut names: Vec<String> = Vec::new();
        let mut i: usize = 0;
        while i < self.variables.local.len()
            invariant
                i <= self.variables.local@.len(),
                a == var_names(self.variables.local@),
                names_view(names@) =~= dedup_names(a.take(i as int)),
            decreases self.variables.local@.len() - i,
        {
            let name = &self.variables.local[i].name;
            let ghost prev = names@;
            if !contains_name(&names, name.as_str()) {
                names.push(name.clone());
                proof {
                    assert(names_view(names@) =~= names_view(prev).push(name@));
                }
            }
            proof {
                assert(a.take(i + 1) =~= a.take(i as int).push(a[i as int]));
                lemma_dedup_push(a.take(i as int), a[i as int]);
                assert(a[i as int] == name@);
            }
            i += 1;
        }
        proof {
            assert(a.take(a.len() as int) =~= a);
        }
        let mut i: usize = 0;
        while i < self.variables.input.len()
            invariant
                i <= self.variables.input@.len(),
                a == var_names(self.variables.local@),
                b == def_names(self.variables.input@),
                names_view(names@) =~= dedup_names(a + b.take(i as int)),
            decreases self.variables.input@.len() - i,
        {
            let name = &self.variables.input[i].name;
            let ghost prev = names@;
            if !contains_name(&names, name.as_str()) {
                names.push(name.clone());
                proof {
                    assert(names_view(names@) =~= names_view(prev).push(name@));
                }
            }
            proof {
                assert(a + b.take(i + 1) =~= (a + b.take(i as int)).push(b[i as int]));
                lemma_dedup_push(a + b.take(i as int), b[i as int]);
                assert(b[i as int] == name@);
            }
            i += 1;
        }
        proof {
            assert(a + b.take(b.len() as int) =~= a + b);
        }
        let mut i: usize = 0;
        while i < self.variables.output.len()
            invariant
                i <= self.variables.output@.len(),
                a == var_names(self.variables.local@),
                b == def_names(self.variables.input@),
                c == def_names(self.variables.output@),
                names_view(names@) =~= dedup_names(a + b + c.take(i as int)),
            decreases self.variables.output@.len() - i,
        {
            let name = &self.variables.output[i].name;
            let ghost prev = names@;
            if !contains_name(&names, name.as_str()) {
                names.push(name.clone());
                proof {
                    assert(names_view(names@) =~= names_view(prev).push(name@));
                }
            }
            proof {
                assert(a + b + c.take(i + 1) =~= (a + b + c.take(i as int)).push(c[i as int]));
                lemma_dedup_push(a + b + c.take(i as int), c[i as int]);
                assert(c[i as int] == name@);
            }
            i += 1;
        }
        proof {
            assert(a + b + c.take(c.len() as int) =~= a + b + c);
        }
        names
    }
}

/// Every edge that `in_edges_of` keeps arrives at the queried node id.
pub proof fn lemma_in_edges_arrive(edges: Seq<XFlowEdge>, id: int)
    ensures
        forall|j: int|
            0 <= j < in_edges_of(edges, id).len() ==> (#[trigger] in_edges_of(edges, id)[j]).1
                == id,
    decreases edges.len(),
{
    if edges.len() > 0 {
        lemma_in_edges_arrive(edges.drop_last(), id);
        let rest = in_edges_of(edges.drop_last(), id);
        assert forall|j: int|
            0 <= j < in_edges_of(edges, id).len() implies (#[trigger] in_edges_of(edges, id)[j]).1
            == id by {
            if edges.last().1 == id {
                assert(in_edges_of(edges, id) == rest.push(edges.last()));
                if j < rest.len() {
                    assert(in_edges_of(edges, id)[j] == rest[j]);
                } else {
                    assert(in_edges_of(edges, id)[j] == edges.last());
                }
            } else {
                assert(in_edges_of(edges, id) == rest);
            }
        }
    }
}

/// Every edge that `out_edges_of` keeps leaves the queried node id.
pub proof fn lemma_out_edges_leave(edges: Seq<XFlowEdge>, id: int)
    ensures
        forall|j: int|
            0 <= j < out_edges_of(edges, id).len() ==> (#[trigger] out_edges_of(edges, id)[j]).0
                == id,
    decreases edges.len(),
{
    if edges.len() > 0 {
        lemma_out_edges_leave(edges.drop_last(), id);
        let rest = out_edges_of(edges.drop_last(), id);
        assert forall|j: int|
            0 <= j < out_edges_of(edges, id).len() implies (#[trigger] out_edges_of(edges, id)[j]).0
            == id by {
            if edges.last().0 == id {
                assert(out_edges_of(edges, id) == rest.push(edges.last()));
                if j < rest.len() {
                    assert(out_edges_of(edges, id)[j] == rest[j]);
                } else {
                    assert(out_edges_of(edges, id)[j] == edges.last());
                }
            } else {
                assert(out_edges_of(edges, id) == rest);
            }
        }
    }
}

impl Default for XFlow {
    /// The empty flow: no requirements, no variables in any scope, no
    /// nodes, no edges, no branches.
    fn default() -> (r: Self)
        ensures
            r.requirements@.len() == 0,
            r.variables.input@.len() == 0,
            r.variables.local@.len() == 0,
            r.variables.output@.len() == 0,
            r.nodes@.len() == 0,
            r.edges@.len() == 0,
            r.branches@.len() == 0,
    {
        XFlow {
            requirements: Vec::<XFlowRequirement>::new(),
            variables: XFlowVariables {
                input: Vec::<XFlowVariableDefinition>::new(),
                local: Vec::<XFlowVariable>::new(),
                output: Vec::<XFlowVariableDefinition>::new(),
            },
            nodes: Vec::<XFlowNode>::new(),
            edges: Vec::<XFlowEdge>::new(),
            branches: Vec::<XFlowBranch>::new(),
        }
    }
}

impl Default for XFlowDocument {
    /// An empty document envelope around the empty flow, with version
    /// metadata set to 1.
    fn default() -> (r: Self)
        ensures
            r.id@.len() == 0,
            r.name@.len() == 0,
            r.doctype@.len() == 0,
            r.doctype_version == 1,
            r.version == 1,
            r.doc.requirements@.len() == 0,
            r.doc.variables.input@.len() == 0,
            r.doc.variables.local@.len() == 0,
            r.doc.variables.output@.len() == 0,
            r.doc.nodes@.len() == 0,
            r.doc.edges@.len() == 0,
            r.doc.branches@.len() == 0,
    {
        XFlowDocument {
            id: String::new(),
            name: String::new(),
            doctype: String::new(),
            doctype_version: 1,
            version: 1,
            doc: XFlow::default(),
        }
    }
}

/// Law: a kind/action query lists a subset of the kind-only query. Every
/// node that `nodes_by_kind_action` keeps, `nodes_by_kind` keeps as well,
/// whatever the action asked for.
pub proof fn lemma_nodes_by_kind_action_subset_of_kind(
    nodes: Seq<XFlowNode>,
    nodetype: Seq<char>,
    action: Seq<char>,
    n: XFlowNode,
)
    requires
        nodes_by_kind_action(nodes, nodetype, action).contains(n),
    ensures
        nodes_by_kind(nodes, nodetype).contains(n),
    decreases nodes.len(),
{
    if nodes.len() == 0 {
        assert(false);
    } else {
        let rest_ka = nodes_by_kind_action(nodes.drop_last(), nodetype, action);
        let rest_k = nodes_by_kind(nodes.drop_last(), nodetype);
        let on_last = if node_matches(nodes.last(), nodetype, action) {
            let k = choose|k: int|
                0 <= k < rest_ka.push(nodes.last()).len() && rest_ka.push(nodes.last())[k] == n;
            k == rest_ka.len()
        } else {
            false
        };
        if on_last {
            assert(nodes.last().nodetype@ == nodetype);
            assert(nodes_by_kind(nodes, nodetype) == rest_k.push(nodes.last()));
            assert(rest_k.push(nodes.last())[rest_k.len() as int] == n);
            assert(nodes_by_kind(nodes, nodetype).contains(n));
        } else {
            if node_matches(nodes.last(), nodetype, action) {
                let k = choose|k: int|
                    0 <= k < rest_ka.push(nodes.last()).len() && rest_ka.push(nodes.last())[k]
                        == n;
                assert(rest_ka[k] == n);
                assert(rest_ka.contains(n));
            }
            lemma_nodes_by_kind_action_subset_of_kind(nodes.drop_last(), nodetype, action, n);
            let j = choose|j: int| 0 <= j < rest_k.len() && rest_k[j] == n;
            if nodes.last().nodetype@ == nodetype {
                assert(rest_k.push(nodes.last())[j] == n);
            }
            assert(nodes_by_kind(nodes, nodetype).contains(n));
        }
    }
}

/// Whether one of `a` and `b` holds `x` decides whether their
/// concatenation does.
proof fn lemma_add_contains<A>(a: Seq<A>, b: Seq<A>, x: A)
    ensures
        (a + b).contains(x) <==> (a.contains(x) || b.contains(x)),
{
    if a.contains(x) {
        let k = choose|k: int| 0 <= k < a.len() && a[k] == x;
        assert((a + b)[k] == x);
    }
    if b.contains(x) {
        let k = choose|k: int| 0 <= k < b.len() && b[k] == x;
        assert((a + b)[a.len() + k] == x);
    }
    if (a + b).contains(x) {
        let k = choose|k: int| 0 <= k < (a + b).len() && (a + b)[k] == x;
        if k < a.len() {
            assert(a[k] == x);
        } else {
            assert(b[k - a.len()] == x);
        }
    }
}

/// De-duplication keeps exactly the names it was given — no more, no
/// fewer — and keeps each at most once.
pub proof fn lemma_dedup_names_exact(names: Seq<Seq<char>>)
    ensures
        forall|x: Seq<char>| dedup_names(names).contains(x) <==> names.contains(x),
        forall|p: int, q: int|
            0 <= p < q < dedup_names(names).len() ==> dedup_names(names)[p] != dedup_names(
                names,
            )[q],
    decreases names.len(),
{
    if names.len() > 0 {
        lemma_dedup_names_exact(names.drop_last());
        let rest = dedup_names(names.drop_last());
        let last = names.last();
        assert forall|x: Seq<char>| dedup_names(names).contains(x) implies names.contains(x) by {
            if rest.contains(last) || x != last {
                if dedup_names(names) == rest.push(last) {
                    let k = choose|k: int|
                        0 <= k < rest.push(last).len() && rest.push(last)[k] == x;
                    if k < rest.len() {
                        assert(rest[k] == x);
                    }
                }
                if rest.contains(x) {
                    assert(names.drop_last().contains(x));
                    let k = choose|k: int|
                        0 <= k < names.drop_last().len() && names.drop_last()[k] == x;
                    assert(names[k] == x);
                }
            }
            if x == last {
                assert(names[names.len() - 1] == x);
            }
        }
        assert forall|x: Seq<char>| names.contains(x) implies dedup_names(names).contains(x) by {
            let k = choose|k: int| 0 <= k < names.len() && names[k] == x;
            if k < names.len() - 1 {
                assert(names.drop_last()[k] == x);
                assert(names.drop_last().contains(x));
                assert(rest.contains(x));
                let j = choose|j: int| 0 <= j < rest.len() && rest[j] == x;
                if !rest.contains(last) {
                    assert(rest.push(last)[j] == x);
                }
            } else {
                assert(x == last);
                if rest.contains(last) {
                } else {
                    assert(rest.push(last)[rest.len() as int] == x);
                }
            }
        }
        if !rest.contains(last) {
            assert forall|p: int, q: int|
                0 <= p < q < dedup_names(names).len() implies dedup_names(names)[p]
                != dedup_names(names)[q] by {
                if q < rest.len() {
                } else {
                    assert(dedup_names(names)[q] == last);
                    assert(dedup_names(names)[p] == rest[p]);
                    assert(rest.contains(rest[p]));
                }
            }
        }
    }
}

/// Law: the collected variable names are exactly the set union of the
/// input, local and output scope names, with no name listed twice, even
/// when names collide across scopes.
pub proof fn lemma_all_variable_names_union(vars: XFlowVariables)
    ensures
        forall|x: Seq<char>|
            all_variable_names_of(vars).contains(x) <==> (def_names(vars.input@).contains(x)
                || var_names(vars.local@).contains(x) || def_names(vars.output@).contains(x)),
        forall|p: int, q: int|
            0 <= p < q < all_variable_names_of(vars).len() ==> all_variable_names_of(vars)[p]
                != all_variable_names_of(vars)[q],
{
    let a = def_names(vars.input@);
    let b = var_names(vars.local@);
    let c = def_names(vars.output@);
    lemma_dedup_names_exact(a + b + c);
    assert forall|x: Seq<char>|
        all_variable_names_of(vars).contains(x) <==> (a.contains(x) || b.contains(x)
            || c.contains(x)) by {
        lemma_add_contains(a + b, c, x);
        lemma_add_contains(a, b, x);
    }
}

/// Law: the local-scope-first name collection is the same set union,
/// likewise without duplicates.
pub proof fn lemma_local_first_variable_names_union(vars: XFlowVariables)
    ensures
        forall|x: Seq<char>|
            local_first_variable_names_of(vars).contains(x) <==> (def_names(
                vars.input@,
            ).contains(x) || var_names(vars.local@).contains(x) || def_names(
                vars.output@,
            ).contains(x)),
        forall|p: int, q: int|
            0 <= p < q < local_first_variable_names_of(vars).len()
                ==> local_first_variable_names_of(vars)[p] != local_first_variable_names_of(
                vars,
            )[q],
{
    let a = var_names(vars.local@);
    let b = def_names(vars.input@);
    let c = def_names(vars.output@);
    lemma_dedup_names_exact(a + b + c);
    assert forall|x: Seq<char>|
        local_first_variable_names_of(vars).contains(x) <==> (b.contains(x) || a.contains(x)
            || c.contains(x)) by {
        lemma_add_contains(a + b, c, x);
        lemma_add_contains(a, b, x);
    }
}

} // verus!

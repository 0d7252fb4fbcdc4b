use xflow::validation::Validation;
use xflow::validation::ValidationError;
use xflow::xflow::XFlow;
use xflow::xflow::XFlowBranch;
use xflow::xflow::XFlowNode;
use xflow::xflow::XFlowRequirement;
use xflow::xflow::XFlowValue;
use xflow::xflow::XFlowValueType;
use xflow::xflow::XFlowVariable;

fn node(id: i32, nodetype: &str, action: &str) -> XFlowNode {
    XFlowNode {
        id,
        nodetype: nodetype.to_string(),
        label: format!("node {}", id),
        action: action.to_string(),
        parameters: None,
    }
}

fn branch(from: i32, to: i32) -> XFlowBranch {
    XFlowBranch {
        edge: (from, to),
        xvar: XFlowVariable {
            name: "guard".to_string(),
            vtype: XFlowValueType::Boolean,
            value: XFlowValue::Boolean(true),
        },
    }
}

#[test]
fn empty_flow_reports_exactly_missing_entry_and_terminal() {
    let flow = XFlow::default();
    let report = Validation::validate(&flow);
    assert_eq!(
        report,
        vec![ValidationError::NoEntryNode, ValidationError::NoTerminalNode]
    );
}

#[test]
fn minimal_two_node_flow_validates_clean() {
    let mut flow = XFlow::default();
    flow.nodes.push(node(1, "flow", "start"));
    flow.nodes.push(node(2, "flow", "end"));
    flow.edges.push((1, 2));
    assert_eq!(Validation::validate(&flow), vec![]);
}

#[test]
fn removing_the_terminal_leaves_a_dangling_endpoint() {
    let mut flow = XFlow::default();
    flow.nodes.push(node(1, "flow", "start"));
    flow.edges.push((1, 2));
    let report = Validation::validate(&flow);
    assert_eq!(
        report,
        vec![
            ValidationError::DanglingEdgeEndpoint {
                edge: (1, 2),
                endpoint: 2,
            },
            ValidationError::NoTerminalNode,
        ]
    );
}

#[test]
fn every_dangling_endpoint_is_reported() {
    let mut flow = XFlow::default();
    flow.nodes.push(node(1, "flow", "start"));
    flow.nodes.push(node(2, "flow", "end"));
    flow.edges.push((1, 2));
    flow.edges.push((3, 4));
    let report = Validation::all_edges_have_nodes(&flow);
    assert_eq!(
        report,
        vec![
            ValidationError::DanglingEdgeEndpoint {
                edge: (3, 4),
                endpoint: 3,
            },
            ValidationError::DanglingEdgeEndpoint {
                edge: (3, 4),
                endpoint: 4,
            },
        ]
    );
}

#[test]
fn branch_with_unresolved_edge_is_reported() {
    let mut flow = XFlow::default();
    flow.nodes.push(node(1, "flow", "start"));
    flow.nodes.push(node(2, "flow", "end"));
    flow.edges.push((1, 2));
    flow.branches.push(branch(1, 2));
    flow.branches.push(branch(1, 9));
    let report = Validation::all_branches_have_nodes(&flow);
    assert_eq!(
        report,
        vec![ValidationError::DanglingBranchEdge {
            edge: (1, 9),
            endpoint: 9,
        }]
    );
}

#[test]
fn duplicate_node_ids_are_reported() {
    let mut flow = XFlow::default();
    flow.nodes.push(node(5, "flow", "start"));
    flow.nodes.push(node(5, "flow", "end"));
    flow.nodes.push(node(7, "task", "work"));
    flow.nodes.push(node(5, "task", "work"));
    let report = Validation::all_node_ids_unique(&flow);
    assert_eq!(
        report,
        vec![
            ValidationError::DuplicateNodeId { id: 5 },
            ValidationError::DuplicateNodeId { id: 5 },
        ]
    );
}

#[test]
fn duplicate_ids_also_break_edge_resolution() {
    let mut flow = XFlow::default();
    flow.nodes.push(node(1, "flow", "start"));
    flow.nodes.push(node(2, "flow", "end"));
    flow.nodes.push(node(2, "task", "work"));
    flow.edges.push((1, 2));
    let report = Validation::validate(&flow);
    assert_eq!(
        report,
        vec![
            ValidationError::DanglingEdgeEndpoint {
                edge: (1, 2),
                endpoint: 2,
            },
            ValidationError::DuplicateNodeId { id: 2 },
        ]
    );
}

#[test]
fn entry_check_reports_multiple_entries() {
    let mut flow = XFlow::default();
    flow.nodes.push(node(1, "flow", "start"));
    flow.nodes.push(node(2, "flow", "start"));
    flow.nodes.push(node(3, "flow", "end"));
    let report = Validation::has_single_entry_node(&flow);
    assert_eq!(report, vec![ValidationError::MultipleEntryNodes]);
    assert_eq!(Validation::has_terminal_nodes(&flow), vec![]);
}

#[test]
fn branches_and_out_branches_by_endpoints() {
    let mut flow = XFlow::default();
    flow.nodes.push(node(1, "flow", "start"));
    flow.nodes.push(node(2, "task", "work"));
    flow.nodes.push(node(3, "flow", "end"));
    flow.edges.push((1, 2));
    flow.edges.push((1, 3));
    flow.branches.push(branch(1, 2));
    flow.branches.push(branch(1, 3));
    flow.branches.push(branch(1, 2));
    let for_edge = flow.get_branches_for(&(1, 2));
    assert_eq!(for_edge.len(), 2);
    assert_eq!(for_edge[0].edge, (1, 2));
    assert_eq!(for_edge[1].edge, (1, 2));
    let outgoing = flow.get_out_branches(1);
    assert_eq!(outgoing.len(), 3);
    assert_eq!(flow.get_out_branches(2).len(), 0);
}

#[test]
fn test_init_validation() {
    let mut flow = XFlow::default();
    flow.requirements.push(XFlowRequirement {
        xtype: "flow".to_string(),
        version: 1,
    });
    flow.nodes.push(node(1, "flow", "start"));
    for id in 2..10 {
        flow.nodes.push(node(id, "task", "work"));
    }
    flow.nodes.push(node(10, "flow", "end"));
    for id in 1..10 {
        flow.edges.push((id, id + 1));
    }
    assert_eq!(Validation::all_edges_have_nodes(&flow), vec![]);
    assert_eq!(Validation::validate(&flow), vec![]);
}

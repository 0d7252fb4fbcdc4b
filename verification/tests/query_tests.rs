use xflow::xflow::XFlow;
use xflow::xflow::XFlowDocument;
use xflow::xflow::XFlowError;
use xflow::xflow::XFlowNode;
use xflow::xflow::XFlowValue;
use xflow::xflow::XFlowValueType;
use xflow::xflow::XFlowVariable;
use xflow::xflow::XFlowVariableDefinition;

fn node(id: i32, nodetype: &str, action: &str) -> XFlowNode {
    XFlowNode {
        id,
        nodetype: nodetype.to_string(),
        label: format!("node {}", id),
        action: action.to_string(),
        parameters: None,
    }
}

fn input_def(name: &str) -> XFlowVariableDefinition {
    XFlowVariableDefinition {
        name: name.to_string(),
        vtype: XFlowValueType::String,
    }
}

fn local_var(name: &str) -> XFlowVariable {
    XFlowVariable {
        name: name.to_string(),
        vtype: XFlowValueType::Integer,
        value: XFlowValue::Integer(0),
    }
}

#[test]
fn default_flow_is_empty() {
    let flow = XFlow::default();
    assert_eq!(flow.requirements.len(), 0);
    assert_eq!(flow.variables.input.len(), 0);
    assert_eq!(flow.variables.local.len(), 0);
    assert_eq!(flow.variables.output.len(), 0);
    assert_eq!(flow.nodes.len(), 0);
    assert_eq!(flow.edges.len(), 0);
    assert_eq!(flow.branches.len(), 0);
    assert_eq!(flow.get_nodes_by("flow", "start").len(), 0);
    assert_eq!(flow.get_nodes_of_type("flow").len(), 0);
    assert_eq!(flow.get_all_variable_names().len(), 0);
}

#[test]
fn default_document_envelope() {
    let doc = XFlowDocument::default();
    assert_eq!(doc.id, "");
    assert_eq!(doc.name, "");
    assert_eq!(doc.doctype, "");
    assert_eq!(doc.doctype_version, 1);
    assert_eq!(doc.version, 1);
    assert_eq!(doc.doc.nodes.len(), 0);
}

#[test]
fn nodes_by_kind_and_action_filters_both_fields() {
    let mut flow = XFlow::default();
    flow.nodes.push(node(1, "flow", "start"));
    flow.nodes.push(node(2, "flow", "end"));
    flow.nodes.push(node(3, "task", "start"));
    let both = flow.get_nodes_by("flow", "start");
    assert_eq!(both.len(), 1);
    assert_eq!(both[0].id, 1);
    assert_eq!(flow.get_nodes_by("flow", "missing").len(), 0);
    assert_eq!(flow.get_nodes_by("Flow", "start").len(), 0);
}

#[test]
fn nodes_by_kind_is_superset_of_kind_and_action() {
    let mut flow = XFlow::default();
    flow.nodes.push(node(1, "flow", "start"));
    flow.nodes.push(node(2, "flow", "end"));
    flow.nodes.push(node(3, "task", "start"));
    let by_kind = flow.get_nodes_of_type("flow");
    assert_eq!(by_kind.len(), 2);
    assert_eq!(by_kind[0].id, 1);
    assert_eq!(by_kind[1].id, 2);
    for action in ["start", "end", "missing"] {
        for picked in flow.get_nodes_by("flow", action) {
            assert!(by_kind.iter().any(|n| n.id == picked.id));
        }
    }
}

#[test]
fn incident_edges_match_the_queried_node() {
    let mut flow = XFlow::default();
    flow.nodes.push(node(1, "flow", "start"));
    flow.nodes.push(node(2, "task", "work"));
    flow.nodes.push(node(3, "flow", "end"));
    flow.edges.push((1, 2));
    flow.edges.push((2, 3));
    flow.edges.push((1, 3));
    flow.edges.push((2, 2));
    let two = node(2, "task", "work");
    let outgoing = flow.get_out_edges(&two);
    assert_eq!(outgoing.len(), 2);
    assert_eq!(*outgoing[0], (2, 3));
    assert_eq!(*outgoing[1], (2, 2));
    for edge in &outgoing {
        assert_eq!(edge.0, two.id);
    }
    let incoming = flow.get_in_edges(&two);
    assert_eq!(incoming.len(), 2);
    assert_eq!(*incoming[0], (1, 2));
    assert_eq!(*incoming[1], (2, 2));
    for edge in &incoming {
        assert_eq!(edge.1, two.id);
    }
}

#[test]
fn parallel_edges_are_kept_without_deduplication() {
    let mut flow = XFlow::default();
    flow.nodes.push(node(1, "flow", "start"));
    flow.nodes.push(node(2, "flow", "end"));
    flow.edges.push((1, 2));
    flow.edges.push((1, 2));
    let one = node(1, "flow", "start");
    assert_eq!(flow.get_out_edges(&one).len(), 2);
}

#[test]
fn entry_node_with_zero_one_and_two_starts() {
    let mut flow = XFlow::default();
    assert!(matches!(flow.get_entry_node(), Err(XFlowError::NoEntryNode)));

    flow.nodes.push(node(1, "flow", "start"));
    flow.nodes.push(node(2, "flow", "end"));
    let entry = flow.get_entry_node().expect("one start node");
    assert_eq!(entry.id, 1);

    flow.nodes.push(node(3, "flow", "start"));
    assert!(matches!(flow.get_entry_node(), Err(XFlowError::MultipleEntryNodes)));
}

#[test]
fn terminal_nodes_with_zero_and_three_ends() {
    let mut flow = XFlow::default();
    flow.nodes.push(node(1, "flow", "start"));
    assert!(matches!(flow.get_terminal_nodes(), Err(XFlowError::NoTerminalNode)));

    flow.nodes.push(node(2, "flow", "end"));
    flow.nodes.push(node(3, "flow", "end"));
    flow.nodes.push(node(4, "flow", "end"));
    let terminals = flow.get_terminal_nodes().expect("three end nodes");
    assert_eq!(terminals.len(), 3);
    assert_eq!(terminals[0].id, 2);
    assert_eq!(terminals[1].id, 3);
    assert_eq!(terminals[2].id, 4);
}

#[test]
fn node_by_id_is_ambiguous_on_duplicates() {
    let mut flow = XFlow::default();
    flow.nodes.push(node(5, "flow", "start"));
    flow.nodes.push(node(5, "flow", "end"));
    flow.nodes.push(node(7, "task", "work"));
    assert!(flow.get_node_id(5).is_none());
    let seven = flow.get_node_id(7).expect("unique id resolves");
    assert_eq!(seven.id, 7);
    assert!(flow.get_node_id(42).is_none());
}

#[test]
fn variable_names_union_across_scopes() {
    let mut flow = XFlow::default();
    flow.variables.input.push(input_def("a"));
    flow.variables.input.push(input_def("b"));
    flow.variables.local.push(local_var("b"));
    flow.variables.local.push(local_var("c"));
    flow.variables.output.push(input_def("c"));
    flow.variables.output.push(input_def("d"));
    flow.variables.output.push(input_def("a"));

    let names = flow.all_variable_names();
    assert_eq!(names, vec!["a", "b", "c", "d"]);

    let local_first = flow.get_all_variable_names();
    assert_eq!(local_first, vec!["b", "c", "a", "d"]);
}

#[test]
fn variable_names_of_empty_flow() {
    let flow = XFlow::default();
    assert_eq!(flow.all_variable_names().len(), 0);
    assert_eq!(flow.get_all_variable_names().len(), 0);
}

#[test]
fn value_variant_matches_declared_type() {
    assert!(XFlowValue::String("x".to_string()).matches_type(&XFlowValueType::String));
    assert!(XFlowValue::Integer(3).matches_type(&XFlowValueType::Integer));
    assert!(XFlowValue::Boolean(true).matches_type(&XFlowValueType::Boolean));
    assert!(!XFlowValue::Integer(1).matches_type(&XFlowValueType::Boolean));
    assert!(!XFlowValue::String("1".to_string()).matches_type(&XFlowValueType::Integer));
    assert!(!XFlowValue::Boolean(false).matches_type(&XFlowValueType::String));
}

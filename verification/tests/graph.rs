use toolkit::dag::{GraphError, NodeGraph};
use toolkit::node::{DataType, NodeInstance};

#[test]
fn data_type_compatibility_same() {
    assert!(DataType::compatible(DataType::Float, DataType::Float));
    assert!(DataType::compatible(DataType::Vec3, DataType::Vec3));
}

#[test]
fn data_type_compatibility_any() {
    assert!(DataType::compatible(DataType::Any, DataType::Float));
    assert!(DataType::compatible(DataType::Mesh, DataType::Any));
    assert!(DataType::compatible(DataType::Any, DataType::Any));
}

#[test]
fn data_type_incompatible() {
    assert!(!DataType::compatible(DataType::Float, DataType::Vec2));
    assert!(!DataType::compatible(DataType::Image, DataType::Mesh));
}

#[test]
fn node_instance_starts_dirty() {
    let inst = NodeInstance::new(1, "Test".into());
    assert!(inst.dirty);
    assert_eq!(inst.template_name, "Test");
}

#[test]
fn add_and_count_nodes() {
    let mut g = NodeGraph::new();
    assert_eq!(g.node_count(), 0);
    let a = g.add_node("A".into());
    let b = g.add_node("B".into());
    assert_eq!(g.node_count(), 2);
    assert!(g.node(a).is_some());
    assert!(g.node(b).is_some());
}

#[test]
fn remove_node() {
    let mut g = NodeGraph::new();
    let a = g.add_node("A".into());
    assert!(g.remove_node(a));
    assert_eq!(g.node_count(), 0);
    assert!(!g.remove_node(a));
}

#[test]
fn connect_and_disconnect() {
    let mut g = NodeGraph::new();
    let a = g.add_node("A".into());
    let b = g.add_node("B".into());
    g.connect(a, 0, b, 0).unwrap();
    assert_eq!(g.connection_count(), 1);

    let conns = g.connections_from(a);
    assert_eq!(conns.len(), 1);
    assert_eq!(conns[0], (a, 0, b, 0));

    let incoming = g.connections_to(b);
    assert_eq!(incoming.len(), 1);
    assert_eq!(incoming[0], (a, 0, b, 0));

    assert!(g.disconnect(a, 0, b, 0));
    assert_eq!(g.connection_count(), 0);
    assert!(!g.disconnect(a, 0, b, 0));
}

#[test]
fn cycle_detection_direct() {
    let mut g = NodeGraph::new();
    let a = g.add_node("A".into());
    let b = g.add_node("B".into());
    g.connect(a, 0, b, 0).unwrap();
    let result = g.connect(b, 0, a, 0);
    assert!(result.is_err());
    assert_eq!(result, Err(GraphError::WouldCycle));
}

#[test]
fn cycle_detection_indirect() {
    let mut g = NodeGraph::new();
    let a = g.add_node("A".into());
    let b = g.add_node("B".into());
    let c = g.add_node("C".into());
    g.connect(a, 0, b, 0).unwrap();
    g.connect(b, 0, c, 0).unwrap();
    let result = g.connect(c, 0, a, 0);
    assert!(result.is_err());
}

#[test]
fn self_loop_rejected() {
    let mut g = NodeGraph::new();
    let a = g.add_node("A".into());
    let result = g.connect(a, 0, a, 0);
    assert!(result.is_err());
}

#[test]
fn dirty_propagation() {
    let mut g = NodeGraph::new();
    let a = g.add_node("A".into());
    let b = g.add_node("B".into());
    let c = g.add_node("C".into());
    let d = g.add_node("D".into());

    g.connect(a, 0, b, 0).unwrap();
    g.connect(b, 0, c, 0).unwrap();

    g.set_dirty(a, false);
    g.set_dirty(b, false);
    g.set_dirty(c, false);
    g.set_dirty(d, false);

    g.mark_dirty(a);
    assert!(g.node(a).unwrap().dirty);
    assert!(g.node(b).unwrap().dirty);
    assert!(g.node(c).unwrap().dirty);
    assert!(!g.node(d).unwrap().dirty);
}

#[test]
fn topological_order_respects_edges() {
    let mut g = NodeGraph::new();
    let a = g.add_node("A".into());
    let b = g.add_node("B".into());
    let c = g.add_node("C".into());
    g.connect(a, 0, b, 0).unwrap();
    g.connect(b, 0, c, 0).unwrap();

    let order = g.topological_order();
    let pos_a = order.iter().position(|&id| id == a).unwrap();
    let pos_b = order.iter().position(|&id| id == b).unwrap();
    let pos_c = order.iter().position(|&id| id == c).unwrap();
    assert!(pos_a < pos_b);
    assert!(pos_b < pos_c);
}

#[test]
fn dirty_nodes_in_topological_order() {
    let mut g = NodeGraph::new();
    let a = g.add_node("A".into());
    let b = g.add_node("B".into());
    let c = g.add_node("C".into());
    g.connect(a, 0, b, 0).unwrap();
    g.connect(b, 0, c, 0).unwrap();

    g.set_dirty(a, false);

    let dirty = g.dirty_nodes();
    assert!(!dirty.contains(&a));
    assert!(dirty.contains(&b));
    assert!(dirty.contains(&c));

    let pos_b = dirty.iter().position(|&id| id == b).unwrap();
    let pos_c = dirty.iter().position(|&id| id == c).unwrap();
    assert!(pos_b < pos_c);
}

#[test]
fn remove_node_removes_connections() {
    let mut g = NodeGraph::new();
    let a = g.add_node("A".into());
    let b = g.add_node("B".into());
    let c = g.add_node("C".into());
    g.connect(a, 0, b, 0).unwrap();
    g.connect(b, 0, c, 0).unwrap();
    assert_eq!(g.connection_count(), 2);

    g.remove_node(b);
    assert_eq!(g.node_count(), 2);
    assert_eq!(g.connection_count(), 0);
}

#[test]
fn clear_empties_graph() {
    let mut g = NodeGraph::new();
    let a = g.add_node("A".into());
    let b = g.add_node("B".into());
    g.connect(a, 0, b, 0).unwrap();
    g.clear();
    assert_eq!(g.node_count(), 0);
    assert_eq!(g.connection_count(), 0);
}

#[test]
fn diamond_topology() {
    let mut g = NodeGraph::new();
    let a = g.add_node("A".into());
    let b = g.add_node("B".into());
    let c = g.add_node("C".into());
    let d = g.add_node("D".into());
    g.connect(a, 0, b, 0).unwrap();
    g.connect(a, 1, c, 0).unwrap();
    g.connect(b, 0, d, 0).unwrap();
    g.connect(c, 0, d, 1).unwrap();

    let order = g.topological_order();
    let pos = |id: u64| order.iter().position(|&x| x == id).unwrap();
    assert!(pos(a) < pos(b));
    assert!(pos(a) < pos(c));
    assert!(pos(b) < pos(d));
    assert!(pos(c) < pos(d));
}

#[test]
fn connect_nonexistent_node_errors() {
    let mut g = NodeGraph::new();
    let a = g.add_node("A".into());
    let fake: u64 = 9999;
    assert_eq!(g.connect(a, 0, fake, 0), Err(GraphError::TargetNotFound(fake)));
    assert_eq!(g.connect(fake, 0, a, 0), Err(GraphError::SourceNotFound(fake)));
}

#[test]
fn topological_order_breaks_ties_by_id() {
    let mut g = NodeGraph::new();
    let a = g.add_node("A".into());
    let b = g.add_node("B".into());
    let c = g.add_node("C".into());
    let d = g.add_node("D".into());
    g.connect(c, 0, a, 0).unwrap();
    g.connect(b, 0, d, 0).unwrap();
    // Sources b, c in id order; b frees d, then c frees a.
    assert_eq!(g.topological_order(), vec![b, c, d, a]);
}

#[test]
fn topological_order_queues_freed_targets_by_id() {
    let mut g = NodeGraph::new();
    let a = g.add_node("A".into());
    let b = g.add_node("B".into());
    let c = g.add_node("C".into());
    let d = g.add_node("D".into());
    // a feeds d, c and b; all are freed at once and queued by id.
    g.connect(a, 0, d, 0).unwrap();
    g.connect(a, 1, c, 0).unwrap();
    g.connect(a, 2, b, 0).unwrap();
    assert_eq!(g.topological_order(), vec![a, b, c, d]);
}

#[test]
fn dirty_nodes_follow_topological_order() {
    let mut g = NodeGraph::new();
    let a = g.add_node("A".into());
    let b = g.add_node("B".into());
    let c = g.add_node("C".into());
    g.connect(c, 0, a, 0).unwrap();
    g.set_dirty(b, false);
    assert_eq!(g.dirty_nodes(), vec![c, a]);
}

#[test]
fn all_nodes_lists_every_node() {
    let mut g = NodeGraph::new();
    let a = g.add_node("A".into());
    let b = g.add_node("B".into());
    let c = g.add_node("C".into());
    let ids: Vec<u64> = g.all_nodes().iter().map(|n| n.id).collect();
    assert_eq!(ids, vec![a, b, c]);
    g.remove_node(b);
    let names: Vec<String> = g.all_nodes().iter().map(|n| n.template_name.clone()).collect();
    assert_eq!(names, vec!["A".to_string(), "C".to_string()]);
}

#[test]
fn ids_count_up_and_are_never_reused() {
    let mut g = NodeGraph::new();
    let a = g.add_node("A".into());
    let b = g.add_node("B".into());
    assert_eq!(a, 1);
    assert_eq!(b, 2);
    g.remove_node(b);
    g.clear();
    let c = g.add_node("C".into());
    assert_eq!(c, 3);
    assert_eq!(g.topological_order().len(), g.node_count());
}

#[test]
fn valid_connection_is_accepted() {
    let mut g = NodeGraph::new();
    let a = g.add_node("A".into());
    let b = g.add_node("B".into());
    assert_eq!(g.connect(a, 0, b, 0), Ok(()));
    assert_eq!(g.connection_count(), 1);
    assert_eq!(g.connect(b, 0, a, 0), Err(GraphError::WouldCycle));
}

#[test]
fn connect_errors_report_the_toolkit_messages() {
    let mut g = NodeGraph::new();
    let a = g.add_node("A".into());
    let b = g.add_node("B".into());
    g.connect(a, 0, b, 0).unwrap();
    assert_eq!(g.connect(b, 0, a, 0).unwrap_err().message(), "Connection would create a cycle");
    assert_eq!(g.connect(a, 0, a, 1).unwrap_err().message(), "Connection would create a cycle");
    assert_eq!(g.connect(99, 0, a, 0).unwrap_err().message(), "Source node 99 not found");
    assert_eq!(g.connect(a, 0, 1234567890, 0).unwrap_err().message(), "Target node 1234567890 not found");
    assert_eq!(GraphError::SourceNotFound(0).message(), "Source node 0 not found");
}

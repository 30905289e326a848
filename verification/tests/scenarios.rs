use migrate::builder::{ContextKey, Controller};
use migrate::graph::DfValue;
use migrate::commit::{Action, ColumnMessage, MigrationError};
use migrate::graph::{Node, NodeKind};
use migrate::swap::SwapMap;

fn fields(names: &[&str]) -> Vec<String> {
    names.iter().map(|s| s.to_string()).collect()
}

fn kind_is_ingress(n: &Node) -> bool {
    matches!(n.kind, NodeKind::Ingress)
}

fn kind_is_egress(n: &Node) -> bool {
    matches!(n.kind, NodeKind::Egress)
}

#[test]
fn single_domain_no_boundaries() {
    let ctl = Controller::new(None);
    let mut m = ctl.start_migration(Vec::new());
    let b = m.add_base("users".to_string(), fields(&["id", "name"]), vec![0, 0]);
    let (ctl, plan) = m.commit(&vec![(b, 0)], SwapMap::new()).unwrap();
    assert_eq!(plan.new_nodes, vec![b]);
    assert_eq!(ctl.flow.nodes[b].local_addr, Some(0));

    // Add one stateless operator with the base as its parent, same domain.
    let mut m = ctl.start_migration(Vec::new());
    let op = m
        .add_ingredient(
            "proj".to_string(),
            fields(&["id"]),
            migrate::builder::PassThrough { srcs: vec![b] },
        )
        .unwrap();
    let nodes_before = m.graph().nodes.len();
    let (ctl, plan) = m.commit(&vec![(op, 0)], SwapMap::new()).unwrap();

    // The operator's slot comes immediately after the base's slot count.
    assert_eq!(ctl.flow.nodes[op].local_addr, Some(1));
    assert_eq!(plan.new_nodes, vec![op]);
    // Single domain: no ingress or egress nodes were inserted.
    assert_eq!(ctl.flow.nodes.len(), nodes_before);
    assert!(ctl.flow.nodes.iter().all(|n| !kind_is_ingress(n) && !kind_is_egress(n)));
}

#[test]
fn cross_domain_inserts_boundary_pair() {
    let ctl = Controller::new(None);
    let mut m = ctl.start_migration(Vec::new());
    let b = m.add_base("src_table".to_string(), fields(&["id"]), vec![0]);
    let (ctl, _) = m.commit(&vec![(b, 0)], SwapMap::new()).unwrap();

    // New operator in domain 1 whose sole parent lives in domain 0.
    let mut m = ctl.start_migration(Vec::new());
    let op = m
        .add_ingredient(
            "far_op".to_string(),
            fields(&["id"]),
            migrate::builder::PassThrough { srcs: vec![b] },
        )
        .unwrap();
    let (ctl, _) = m.commit(&vec![(op, 1)], SwapMap::new()).unwrap();

    let egresses: Vec<usize> =
        (0..ctl.flow.nodes.len()).filter(|&i| kind_is_egress(&ctl.flow.nodes[i])).collect();
    let ingresses: Vec<usize> =
        (0..ctl.flow.nodes.len()).filter(|&i| kind_is_ingress(&ctl.flow.nodes[i])).collect();
    assert_eq!(egresses.len(), 1);
    assert_eq!(ingresses.len(), 1);
    let e = egresses[0];
    let i = ingresses[0];

    // Egress under the domain-0 parent, ingress above the new node in domain 1.
    assert_eq!(ctl.flow.nodes[e].domain, Some(0));
    assert_eq!(ctl.flow.nodes[i].domain, Some(1));
    assert!(ctl.flow.has_edge(b, e));
    assert!(ctl.flow.has_edge(e, i));
    assert!(ctl.flow.has_edge(i, op));
    assert!(!ctl.flow.has_edge(b, op));

    // The operator's remap resolves the original parent to the ingress's
    // domain-1 local address.
    let ingress_local = ctl.flow.nodes[i].local_addr.unwrap();
    match &ctl.flow.nodes[op].kind {
        NodeKind::Internal { op: oper } => {
            let remap = oper.committed_remap.as_ref().unwrap();
            let resolved = remap.iter().find(|p| p.0 == b).map(|p| p.1);
            assert_eq!(resolved, Some(ingress_local));
        }
        _ => panic!("expected an internal node"),
    }
}

#[test]
fn column_add_notifies_base_and_ingress_before_wiring() {
    // One base in domain 0 feeding an operator in domain 1 through an
    // egress/ingress pair.
    let ctl = Controller::new(None);
    let mut m = ctl.start_migration(Vec::new());
    let b = m.add_base("t".to_string(), fields(&["id"]), vec![0]);
    let (ctl, _) = m.commit(&vec![(b, 0)], SwapMap::new()).unwrap();
    let mut m = ctl.start_migration(Vec::new());
    let op = m
        .add_ingredient(
            "view".to_string(),
            fields(&["id"]),
            migrate::builder::PassThrough { srcs: vec![b] },
        )
        .unwrap();
    let (ctl, _) = m.commit(&vec![(op, 1)], SwapMap::new()).unwrap();

    // Now add a column `k` with default 0 to the existing base.
    let mut m = ctl.start_migration(Vec::new());
    m.add_column(b, "k".to_string(), 0);
    let (ctl, plan) = m.commit(&Vec::new(), SwapMap::new()).unwrap();

    let mut send_domains: Vec<usize> = Vec::new();
    let mut connect_at = None;
    let mut last_send_at = None;
    for (idx, a) in plan.actions.iter().enumerate() {
        match a {
            Action::SendColumn { domain, msg } => {
                match msg {
                    ColumnMessage::AddBaseColumn { field, default, .. } => {
                        assert_eq!(field, "k");
                        assert_eq!(*default, 0);
                    }
                    _ => panic!("expected an add-column message"),
                }
                send_domains.push(*domain);
                last_send_at = Some(idx);
            }
            Action::Connect => connect_at = Some(idx),
            _ => {}
        }
    }
    // Both the base's domain and the downstream ingress's domain are told,
    // each acknowledged before commit proceeds to wiring.
    send_domains.sort();
    assert_eq!(send_domains, vec![0, 1]);
    assert!(last_send_at.unwrap() < connect_at.unwrap());
    let _ = ctl;
}

#[test]
fn maintain_twice_single_reader_second_key_wins() {
    let ctl = Controller::new(None);
    let mut m = ctl.start_migration(Vec::new());
    let b = m.add_base("q".to_string(), fields(&["id", "v"]), vec![0, 0]);
    m.maintain("q_reader".to_string(), b, &vec![0]);
    m.maintain("q_reader".to_string(), b, &vec![1]);

    let readers: Vec<usize> = (0..m.graph().nodes.len())
        .filter(|&i| matches!(m.graph().nodes[i].kind, NodeKind::Reader { .. }))
        .collect();
    assert_eq!(readers.len(), 1);
    match &m.graph().nodes[readers[0]].kind {
        NodeKind::Reader { for_node, key, reader_name } => {
            assert_eq!(*for_node, b);
            assert_eq!(key, &vec![1]);
            assert_eq!(reader_name.as_deref(), Some("q_reader"));
        }
        _ => unreachable!(),
    }
}

#[test]
fn commit_rejects_unassigned_new_node() {
    let ctl = Controller::new(None);
    let mut m = ctl.start_migration(Vec::new());
    let _b = m.add_base("t".to_string(), fields(&["id"]), vec![0]);
    let r = m.commit(&Vec::new(), SwapMap::new());
    assert!(matches!(r, Err(MigrationError::UnassignedNode)));
}

#[test]
fn universe_defaults_to_global() {
    let ctl = Controller::new(None);
    let m = ctl.start_migration(Vec::new());
    let (id, group) = m.universe();
    match id {
        DfValue::Text(s) => assert_eq!(s, "global"),
        _ => panic!("expected the global universe"),
    }
    assert!(group.is_none());
}

#[test]
fn universe_reads_context() {
    let ctl = Controller::new(None);
    let m = ctl.start_migration(vec![
        (ContextKey::Id, DfValue::Int(7)),
        (ContextKey::Group, DfValue::Int(3)),
    ]);
    let (id, group) = m.universe();
    assert!(matches!(id, DfValue::Int(7)));
    assert!(matches!(group, Some(DfValue::Int(3))));
}

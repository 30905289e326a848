use migrate::builder::{name_matches, Controller, PassThrough};
use migrate::commit::{assign_addresses, build_remap, column_targets, Action, ColumnMessage, MigrationError};
use migrate::graph::{Flow, Node, NodeKind, Operator};
use migrate::swap::SwapMap;

fn plain(kind: NodeKind) -> Node {
    Node {
        name: String::new(),
        fields: Vec::new(),
        domain: None,
        local_addr: None,
        dropped: false,
        shards: 1,
        kind,
    }
}

fn internal() -> NodeKind {
    NodeKind::Internal { op: Operator { committed_remap: None } }
}

fn swap_of(entries: &[((usize, usize), usize)]) -> SwapMap {
    let mut s = SwapMap::new();
    for e in entries {
        s.entries.push(*e);
    }
    s
}

#[test]
fn swap_merge_present_substitute_wins_when_edge_exists() {
    let mut flow = Flow::new();
    for _ in 0..5 {
        flow.add_node(plain(internal()));
    }
    // An edge runs from the original parent 1 to the incoming substitute 4,
    // so the present substitute 2 is nearer the destination and stays.
    flow.add_edge(1, 4);
    let mut a = swap_of(&[((3, 1), 2)]);
    let b = swap_of(&[((3, 1), 4)]);
    a.merge(&b, &flow);
    assert_eq!(a.get(3, 1), Some(2));
}

#[test]
fn swap_merge_incoming_substitute_wins_without_edge() {
    let mut flow = Flow::new();
    for _ in 0..5 {
        flow.add_node(plain(internal()));
    }
    let mut a = swap_of(&[((3, 1), 2)]);
    let b = swap_of(&[((3, 1), 4)]);
    a.merge(&b, &flow);
    assert_eq!(a.get(3, 1), Some(4));
}

#[test]
fn swap_merge_collapses_stale_chains() {
    let mut flow = Flow::new();
    for _ in 0..10 {
        flow.add_node(plain(internal()));
    }
    // One existing entry still points at node 1; merging an entry whose
    // original parent is 1 rewrites it, since lookups are one hop only.
    let mut a = swap_of(&[((4, 5), 1)]);
    let b = swap_of(&[((6, 1), 7)]);
    a.merge(&b, &flow);
    assert_eq!(a.get(4, 5), Some(7));
    assert_eq!(a.get(6, 1), Some(7));
}

#[test]
fn swap_merge_idempotent_and_order_independent() {
    let flow = Flow::new();
    let a_entries = [((3usize, 1usize), 2usize), ((5, 1), 6)];
    let b_entries = [((7usize, 8usize), 9usize)];

    let mut once = swap_of(&a_entries);
    once.merge(&swap_of(&a_entries), &flow);
    assert_eq!(once.get(3, 1), Some(2));
    assert_eq!(once.get(5, 1), Some(6));
    assert_eq!(once.entries.len(), 2);

    let mut ab = swap_of(&a_entries);
    ab.merge(&swap_of(&b_entries), &flow);
    let mut ba = swap_of(&b_entries);
    ba.merge(&swap_of(&a_entries), &flow);
    for ((d, s), _) in a_entries.iter().chain(b_entries.iter()) {
        assert_eq!(ab.get(*d, *s), ba.get(*d, *s));
    }
}

#[test]
fn column_targets_add_visits_base_and_ingresses_only() {
    let mut flow = Flow::new();
    let base = flow.add_node(plain(NodeKind::Base { defaults: Vec::new(), removed: Vec::new() }));
    let eg = flow.add_node(plain(NodeKind::Egress));
    let ing = flow.add_node(plain(NodeKind::Ingress));
    let other = flow.add_node(plain(internal()));
    flow.add_edge(base, eg);
    flow.add_edge(eg, ing);
    flow.add_edge(base, other);

    let mut add = column_targets(&flow, base, true);
    add.sort();
    assert_eq!(add, vec![base, ing]);

    let drop = column_targets(&flow, base, false);
    assert_eq!(drop, vec![base]);
}

#[test]
fn column_round_trip_restores_observed_schema() {
    let ctl = Controller::new(None);
    let mut m = ctl.start_migration(Vec::new());
    let b = m.add_base("t".to_string(), vec!["a".to_string(), "b".to_string()], vec![0, 0]);
    let (ctl, _) = m.commit(&vec![(b, 0)], SwapMap::new()).unwrap();

    let observed = |ctl: &Controller| match &ctl.flow.nodes[b].kind {
        NodeKind::Base { removed, .. } => removed.iter().filter(|r| !**r).count(),
        _ => unreachable!(),
    };
    assert_eq!(observed(&ctl), 2);

    let mut m = ctl.start_migration(Vec::new());
    let c = m.add_column(b, "k".to_string(), 42);
    assert_eq!(c, 2);
    m.drop_column(b, c);
    let (ctl, _) = m.commit(&Vec::new(), SwapMap::new()).unwrap();
    assert_eq!(observed(&ctl), 2);
}

#[test]
fn ensure_reader_is_idempotent() {
    let ctl = Controller::new(None);
    let mut m = ctl.start_migration(Vec::new());
    let b = m.add_base("t".to_string(), vec!["a".to_string()], vec![0]);
    let r1 = m.ensure_reader_for(b, Some("t_q".to_string()));
    let count = m.graph().nodes.len();
    let r2 = m.ensure_reader_for(b, Some("t_q".to_string()));
    assert_eq!(r1, r2);
    assert_eq!(m.graph().nodes.len(), count);
    let r3 = m.ensure_reader_for(b, None);
    assert_eq!(r1, r3);
}

#[test]
fn reader_joins_query_group_by_name_containment() {
    let ctl = Controller::new(None);
    let mut m = ctl.start_migration(Vec::new());
    let b1 = m.add_base("t1".to_string(), vec!["a".to_string()], vec![0]);
    let b2 = m.add_base("t2".to_string(), vec!["a".to_string()], vec![0]);
    let r1 = m.ensure_reader_for(b1, Some("count_votes".to_string()));
    // The second name contains the first registered query's name, so the
    // reader joins that group instead of founding a new one.
    let r2 = m.ensure_reader_for(b2, Some("count_votes_for_user".to_string()));
    let qtr = &m.ctl.map_meta.query_to_readers;
    assert_eq!(qtr.len(), 1);
    assert_eq!(qtr[0].0, "count_votes");
    assert_eq!(qtr[0].1, vec![r1, r2]);
}

#[test]
fn build_remap_overlays_swapped_parents() {
    // Domain table: node 10 at slot 0, node 12 (an ingress) at slot 1.
    let t = vec![(10usize, 0usize), (12, 1)];
    let swaps = swap_of(&[((5, 11), 12)]);
    let m = build_remap(&t, &swaps, 5).unwrap();
    let get = |k: usize| m.iter().find(|p| p.0 == k).map(|p| p.1);
    assert_eq!(get(10), Some(0));
    assert_eq!(get(12), Some(1));
    // The original parent 11 resolves to the ingress's local slot.
    assert_eq!(get(11), Some(1));
}

#[test]
fn build_remap_rejects_collision_and_missing_substitute() {
    let t = vec![(1usize, 0usize), (2, 1)];
    // The original parent already has a local address: a collision.
    let collide = swap_of(&[((5, 1), 2)]);
    assert!(matches!(build_remap(&t, &collide, 5), Err(MigrationError::RemapCollision)));
    // The substitute has no local address in this domain.
    let missing = swap_of(&[((5, 9), 77)]);
    assert!(matches!(build_remap(&t, &missing, 5), Err(MigrationError::MissingSubstituteAddr)));
}

#[test]
fn addresses_are_dense_and_start_after_existing_slots() {
    let mut flow = Flow::new();
    for _ in 0..4 {
        flow.add_node(plain(internal()));
    }
    let mut t: Vec<(usize, usize)> = Vec::new();
    assign_addresses(&mut flow, &mut t, &vec![1, 2]).unwrap();
    assert_eq!(t, vec![(1, 0), (2, 1)]);
    assert_eq!(flow.nodes[1].local_addr, Some(0));
    assert_eq!(flow.nodes[2].local_addr, Some(1));
    // A later batch continues right after the slots already in use.
    assign_addresses(&mut flow, &mut t, &vec![3]).unwrap();
    assert_eq!(t[2], (3, 2));
    assert_eq!(flow.nodes[3].local_addr, Some(2));
}

#[test]
fn name_containment_matching() {
    assert!(name_matches("count_votes_u3", "count_votes"));
    assert!(name_matches("abc", "abc"));
    assert!(name_matches("abc", ""));
    assert!(!name_matches("abc", "abd"));
    assert!(!name_matches("ab", "abc"));
}

#[test]
fn operator_with_no_ancestors_is_refused() {
    let ctl = Controller::new(None);
    let mut m = ctl.start_migration(Vec::new());
    let before = m.graph().nodes.len();
    let r = m.add_ingredient(
        "orphan".to_string(),
        vec!["x".to_string()],
        PassThrough { srcs: Vec::new() },
    );
    assert!(r.is_none());
    assert_eq!(m.graph().nodes.len(), before);
}

#[test]
fn maintain_anonymous_returns_keyed_reader() {
    let ctl = Controller::new(None);
    let mut m = ctl.start_migration(Vec::new());
    let b = m.add_base("t".to_string(), vec!["a".to_string(), "b".to_string()], vec![0, 0]);
    let r = m.maintain_anonymous(b, &vec![1]);
    match &m.graph().nodes[r].kind {
        NodeKind::Reader { for_node, key, reader_name } => {
            assert_eq!(*for_node, b);
            assert_eq!(key, &vec![1]);
            assert!(reader_name.is_none());
        }
        _ => panic!("expected a reader node"),
    }
    // A second anonymous request reuses the same reader.
    assert_eq!(m.maintain_anonymous(b, &vec![0]), r);
}

#[test]
fn operator_with_unknown_parent_is_refused() {
    let ctl = Controller::new(None);
    let mut m = ctl.start_migration(Vec::new());
    let before = m.graph().nodes.len();
    let r = m.add_ingredient(
        "bad".to_string(),
        vec!["x".to_string()],
        PassThrough { srcs: vec![999] },
    );
    assert!(r.is_none());
    assert_eq!(m.graph().nodes.len(), before);
}

#[test]
fn column_drop_notifies_base_alone() {
    let ctl = Controller::new(None);
    let mut m = ctl.start_migration(Vec::new());
    let b = m.add_base("t".to_string(), vec!["a".to_string(), "b".to_string()], vec![0, 0]);
    let (ctl, _) = m.commit(&vec![(b, 0)], SwapMap::new()).unwrap();

    let mut m = ctl.start_migration(Vec::new());
    m.drop_column(b, 1);
    let (_ctl, plan) = m.commit(&Vec::new(), SwapMap::new()).unwrap();
    let sends: Vec<&Action> = plan
        .actions
        .iter()
        .filter(|a| matches!(a, Action::SendColumn { .. }))
        .collect();
    assert_eq!(sends.len(), 1);
    match sends[0] {
        Action::SendColumn { domain, msg } => {
            assert_eq!(*domain, 0);
            assert!(matches!(msg, ColumnMessage::DropBaseColumn { column: 1, .. }));
        }
        _ => unreachable!(),
    }
}

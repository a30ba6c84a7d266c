use dcra::assurance::{evaluate_all, ActionContract, BlockReason, Permission};
use dcra::clock::{ControlledClock, Duration};
use dcra::evidence::{AssuranceStatus, AssuranceValue, EvidenceAtom, EvidenceRecord};
use dcra::graph::{AssuranceGraph, Node, NodeKind};
use dcra::ids::{IdMap, IdSet};
use dcra::runtime::AssuranceRuntime;

fn atom(status: AssuranceStatus, observed: u64, expiry: u64) -> EvidenceAtom {
    EvidenceAtom {
        evidence_id: "e".into(),
        evidence_type: "sensor".into(),
        predicate: "p".into(),
        source_id: "s".into(),
        version: 0,
        observed_at: Duration::from_secs(observed),
        expires_at: Duration::from_secs(expiry),
        status,
        payload_hash: Some("abc".into()),
    }
}

#[test]
fn duration_arithmetic_is_exact_in_nanoseconds() {
    assert_eq!(Duration::zero().as_nanos(), 0);
    assert_eq!(Duration::from_secs(3).as_nanos(), 3_000_000_000);
    assert_eq!(
        Duration::max_value().as_nanos(),
        18_446_744_073_709_551_615_999_999_999
    );
    let five = Duration::from_secs(2)
        .checked_add(Duration::from_secs(3))
        .unwrap();
    assert_eq!(five, Duration::from_secs(5));
    assert!(Duration::max_value()
        .checked_add(Duration::from_secs(1))
        .is_none());
    assert_eq!(
        Duration::max_value().checked_add(Duration::zero()),
        Some(Duration::max_value())
    );
    assert_eq!(
        Duration::from_secs(5).saturating_sub(Duration::from_secs(2)),
        Duration::from_secs(3)
    );
    assert_eq!(
        Duration::from_secs(2).saturating_sub(Duration::from_secs(5)),
        Duration::zero()
    );
    assert!(Duration::from_secs(1).lt(&Duration::from_secs(2)));
    assert!(!Duration::from_secs(2).lt(&Duration::from_secs(2)));
    assert!(Duration::from_secs(2).le(&Duration::from_secs(2)));
    assert!(Duration::from_secs(2).same(&Duration::from_secs(2)));
    assert!(!Duration::from_secs(2).same(&Duration::from_secs(3)));
}

#[test]
fn controlled_clock_moves_only_when_advanced() {
    let mut clock = ControlledClock::default();
    assert_eq!(clock.now(), Duration::zero());
    clock.advance(Duration::from_secs(7));
    clock.advance(Duration::zero());
    assert_eq!(clock.now(), Duration::from_secs(7));
}

#[test]
fn value_of_an_observation_follows_its_status_and_deadline() {
    let valid = atom(AssuranceStatus::Valid, 2, 5);
    assert_eq!(
        valid.value_at(Duration::from_secs(1)),
        AssuranceValue::Unknown
    );
    assert_eq!(
        valid.value_at(Duration::from_secs(2)),
        AssuranceValue::Valid {
            horizon: Duration::from_secs(5)
        }
    );
    assert_eq!(
        valid.value_at(Duration::from_secs(5)),
        AssuranceValue::Unknown
    );
    assert_eq!(
        atom(AssuranceStatus::Invalid, 0, 5).value_at(Duration::from_secs(9)),
        AssuranceValue::Invalid
    );
    assert_eq!(
        atom(AssuranceStatus::Unknown, 0, 5).value_at(Duration::from_secs(1)),
        AssuranceValue::Unknown
    );
}

#[test]
fn values_carry_a_status_and_only_valid_ones_a_horizon() {
    let v = AssuranceValue::Valid {
        horizon: Duration::from_secs(4),
    };
    assert_eq!(v.status(), AssuranceStatus::Valid);
    assert_eq!(v.horizon(), Some(Duration::from_secs(4)));
    assert_eq!(AssuranceValue::Unknown.status(), AssuranceStatus::Unknown);
    assert_eq!(AssuranceValue::Unknown.horizon(), None);
    assert_eq!(AssuranceValue::Invalid.status(), AssuranceStatus::Invalid);
    assert_eq!(AssuranceValue::Invalid.horizon(), None);
}

#[test]
fn record_status_expires_exactly_at_the_deadline() {
    let r = EvidenceRecord {
        status: AssuranceStatus::Valid,
        expires_at: Duration::from_secs(5),
    };
    assert_eq!(r.status_at(Duration::from_secs(4)), AssuranceStatus::Valid);
    assert_eq!(
        r.status_at(Duration::from_secs(5)),
        AssuranceStatus::Unknown
    );
    let i = EvidenceRecord {
        status: AssuranceStatus::Invalid,
        expires_at: Duration::from_secs(5),
    };
    assert_eq!(i.status_at(Duration::zero()), AssuranceStatus::Invalid);
}

#[test]
fn cloning_an_observation_copies_every_field() {
    let a = atom(AssuranceStatus::Valid, 1, 5);
    assert_eq!(a.clone(), a);
}

#[test]
fn identifier_map_keeps_byte_order_and_replaces_values() {
    let mut m = IdMap::new();
    assert_eq!(m.insert("b".to_string(), 2), None);
    assert_eq!(m.insert("a".to_string(), 1), None);
    assert_eq!(m.insert("B".to_string(), 0), None);
    assert_eq!(m.insert("b".to_string(), 20), Some(2));
    assert_eq!(m.len(), 3);
    assert_eq!(m.key_at(0), "B");
    assert_eq!(m.key_at(1), "a");
    assert_eq!(m.key_at(2), "b");
    assert_eq!(*m.value_at(2), 20);
    assert_eq!(m.get("a"), Some(&1));
    assert!(m.contains_key("B"));
    assert!(!m.contains_key("c"));
    assert_eq!(m.remove("a"), Some(1));
    assert_eq!(m.remove("a"), None);
    assert_eq!(m.len(), 2);
    assert_eq!(m.clone(), m);
}

#[test]
fn identifier_sets_are_ordered_and_deduplicated() {
    let mut s = IdSet::singleton("m".to_string());
    s.insert("c".to_string());
    s.insert("m".to_string());
    let mut other = IdSet::new();
    other.insert("z".to_string());
    other.insert("c".to_string());
    s.union_with(&other);
    assert_eq!(s.len(), 3);
    assert_eq!(s.to_vec(), vec!["c", "m", "z"]);
    assert_eq!(s.id_at(1), "m");
    assert!(s.contains("z"));
    assert!(!s.contains("a"));
    assert!(s.same(&s.clone()));
    assert!(!s.same(&other));
}

#[test]
fn reasons_follow_requirement_order() {
    let mut evidence = IdMap::new();
    evidence.insert(
        "x".to_string(),
        EvidenceRecord {
            status: AssuranceStatus::Invalid,
            expires_at: Duration::from_secs(5),
        },
    );
    evidence.insert(
        "y".to_string(),
        EvidenceRecord {
            status: AssuranceStatus::Valid,
            expires_at: Duration::from_secs(5),
        },
    );
    let contracts = [ActionContract {
        action_id: "act".into(),
        required_evidence: vec!["z".into(), "y".into(), "x".into()],
    }];
    let decisions = evaluate_all(&contracts, &evidence, Duration::from_secs(5));
    assert_eq!(decisions.len(), 1);
    assert_eq!(
        decisions[0].permission,
        Permission::Blocked(vec![
            BlockReason::MissingEvidence("z".into()),
            BlockReason::UnknownEvidence("y".into()),
            BlockReason::InvalidEvidence("x".into()),
        ])
    );
    assert!(evaluate_all(&[], &evidence, Duration::zero()).is_empty());
}

#[test]
fn a_new_runtime_starts_empty_and_fully_evaluated() {
    let g = AssuranceGraph::new(
        vec![
            Node::new("e", NodeKind::Evidence),
            Node::new("d", NodeKind::PhysicalSafety),
        ],
        vec![dcra::graph::Justification {
            justification_id: "r".into(),
            premises: vec!["e".into()],
            threshold: 1,
            conclusion: "d".into(),
        }],
    )
    .unwrap();
    let runtime = AssuranceRuntime::new(g);
    assert_eq!(runtime.now(), Duration::zero());
    assert_eq!(runtime.epoch(), 0);
    assert_eq!(runtime.evidence().len(), 0);
    assert!(runtime.audit().is_empty());
    assert_eq!(runtime.evaluation().assurance_by_node.len(), 2);
    assert_eq!(
        *runtime.evaluation().assurance_by_node.get("d").unwrap(),
        AssuranceValue::Unknown
    );
    assert_eq!(runtime.graph().topological_order(), ["e", "d"]);
    let node = Node::new("n", NodeKind::ActionRun);
    assert_eq!(node.node_id, "n");
    assert_eq!(node.kind, NodeKind::ActionRun);
}

#[test]
fn empty_and_evidence_only_graphs_are_valid() {
    let empty = AssuranceGraph::new(vec![], vec![]).unwrap();
    assert!(empty.topological_order().is_empty());
    let only = AssuranceGraph::new(
        vec![
            Node::new("y", NodeKind::Evidence),
            Node::new("x", NodeKind::Evidence),
        ],
        vec![],
    )
    .unwrap();
    assert_eq!(only.topological_order(), ["x", "y"]);
    assert_eq!(only.nodes().len(), 2);
    assert_eq!(only.justifications().len(), 0);
}

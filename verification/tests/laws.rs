use dcra::clock::Duration;
use dcra::evaluator::evaluate_full;
use dcra::evidence::{AssuranceStatus as Status, AssuranceValue as Value, EvidenceAtom};
use dcra::graph::{AssuranceGraph, Justification, Node, NodeKind};
use dcra::ids::IdMap;
use dcra::runtime::{AssuranceRuntime, AuditEvent, RuntimeError};

fn t(seconds: u64) -> Duration {
    Duration::from_secs(seconds)
}
fn atom(id: &str, status: Status, expiry: u64) -> EvidenceAtom {
    EvidenceAtom {
        evidence_id: id.into(),
        evidence_type: "sensor".into(),
        predicate: format!("{id}.supports"),
        source_id: id.into(),
        version: 1,
        observed_at: t(0),
        expires_at: t(expiry),
        status,
        payload_hash: None,
    }
}
fn rule(id: &str, premises: &[&str], threshold: usize, conclusion: &str) -> Justification {
    Justification {
        justification_id: id.into(),
        premises: premises.iter().map(|p| (*p).into()).collect(),
        threshold,
        conclusion: conclusion.into(),
    }
}
fn chain() -> AssuranceGraph {
    AssuranceGraph::new(
        vec![
            Node::new("a", NodeKind::Evidence),
            Node::new("b", NodeKind::Evidence),
            Node::new("c", NodeKind::Evidence),
            Node::new("ab", NodeKind::Derived),
            Node::new("top", NodeKind::ActionStart),
        ],
        vec![
            rule("r-ab", &["a", "b"], 2, "ab"),
            rule("r-top", &["ab", "c"], 1, "top"),
        ],
    )
    .unwrap()
}
fn loaded() -> AssuranceRuntime {
    let mut runtime = AssuranceRuntime::new(chain());
    runtime.update(atom("a", Status::Valid, 3)).unwrap();
    runtime.update(atom("b", Status::Valid, 5)).unwrap();
    runtime.update(atom("c", Status::Valid, 5)).unwrap();
    runtime
}
fn snapshot(
    r: &AssuranceRuntime,
) -> (
    Duration,
    u64,
    IdMap<EvidenceAtom>,
    dcra::evaluator::Evaluation,
    Vec<dcra::runtime::AuditEntry>,
) {
    (
        r.now(),
        r.epoch(),
        r.evidence().clone(),
        r.evaluation().clone(),
        r.audit().to_vec(),
    )
}

#[test]
fn advancing_in_two_legs_equals_one_jump() {
    let mut two = loaded();
    let mut one = loaded();
    two.advance_to(t(4)).unwrap();
    two.advance_to(t(7)).unwrap();
    one.advance_to(t(7)).unwrap();
    assert_eq!(snapshot(&two), snapshot(&one));
}

#[test]
fn advancing_again_to_the_same_instant_changes_nothing() {
    let mut runtime = loaded();
    runtime.advance_to(t(5)).unwrap();
    let before = snapshot(&runtime);
    runtime.advance_to(t(5)).unwrap();
    runtime.advance(Duration::zero()).unwrap();
    assert_eq!(snapshot(&runtime), before);
}

#[test]
fn advance_spends_one_epoch_per_expiry_and_sets_the_clock() {
    let mut runtime = loaded();
    assert_eq!(runtime.epoch(), 3);
    runtime.advance_to(t(4)).unwrap();
    assert_eq!(runtime.epoch(), 4);
    assert_eq!(runtime.now(), t(4));
    runtime.advance(t(2)).unwrap();
    assert_eq!(runtime.epoch(), 6);
    assert_eq!(runtime.now(), t(6));
}

#[test]
fn expiry_keeps_the_observation_and_only_changes_its_status() {
    let mut runtime = loaded();
    let stored = runtime.evidence().get("b").unwrap().clone();
    runtime.advance_to(t(5)).unwrap();
    let expired = runtime.evidence().get("b").unwrap().clone();
    assert_eq!(expired.status, Status::Unknown);
    assert_eq!(
        EvidenceAtom {
            status: Status::Valid,
            ..expired
        },
        stored
    );
}

#[test]
fn no_valid_observation_survives_its_deadline() {
    let mut runtime = loaded();
    for time in [2, 3, 4, 5, 6] {
        runtime.advance_to(t(time)).unwrap();
        let store = runtime.evidence();
        for i in 0..store.len() {
            let a = store.value_at(i);
            if a.status == Status::Valid {
                assert!(runtime.now().lt(&a.expires_at));
            }
        }
    }
}

#[test]
fn witnesses_exist_exactly_for_valid_nodes_and_outlive_the_clock() {
    let mut runtime = loaded();
    for time in [0, 2, 3, 4, 5] {
        runtime.advance_to(t(time)).unwrap();
        let e = runtime.evaluation();
        for i in 0..e.assurance_by_node.len() {
            let id = e.assurance_by_node.key_at(i);
            match *e.assurance_by_node.value_at(i) {
                Value::Valid { horizon } => {
                    let w = e.preferred_witness_by_node.get(id).unwrap();
                    assert_eq!(w.horizon, horizon);
                    assert!(runtime.now().lt(&horizon));
                }
                _ => assert!(!e.preferred_witness_by_node.contains_key(id)),
            }
        }
    }
}

#[test]
fn audit_log_is_in_time_and_epoch_order() {
    let mut runtime = loaded();
    runtime.advance_to(t(4)).unwrap();
    let mut fresh = atom("a", Status::Valid, 9);
    fresh.version = 2;
    fresh.observed_at = t(4);
    runtime.update(fresh).unwrap();
    runtime.advance_to(t(12)).unwrap();
    let log = runtime.audit();
    assert!(log.len() > 6);
    for pair in log.windows(2) {
        assert!(pair[0].at.le(&pair[1].at));
        assert!(pair[0].epoch <= pair[1].epoch);
    }
    let last = log.last().unwrap();
    assert!(last.at.le(&runtime.now()));
    assert!(last.epoch <= runtime.epoch());
}

#[test]
fn an_accepted_update_appends_to_the_log() {
    let mut runtime = loaded();
    let before = runtime.audit().to_vec();
    let mut next = atom("c", Status::Invalid, 5);
    next.version = 2;
    runtime.update(next).unwrap();
    assert!(runtime.audit().len() > before.len());
    assert_eq!(&runtime.audit()[..before.len()], &before[..]);
    assert!(matches!(
        runtime.audit()[before.len()].event,
        AuditEvent::EvidenceUpdated { .. }
    ));
}

#[test]
fn each_rejection_names_its_cause_and_changes_nothing() {
    let mut runtime = loaded();
    let before = snapshot(&runtime);
    let mut blank = atom("a", Status::Valid, 5);
    blank.version = 2;
    blank.predicate = " \t".into();
    let mut stale = atom("a", Status::Valid, 5);
    stale.version = 1;
    let mut retyped = atom("a", Status::Valid, 5);
    retyped.version = 2;
    retyped.evidence_type = "camera".into();
    let mut future = atom("a", Status::Valid, 9);
    future.version = 2;
    future.observed_at = t(1);
    let cases = [
        (atom("ab", Status::Valid, 5), RuntimeError::NotEvidenceNode("ab".into())),
        (atom("nowhere", Status::Valid, 5), RuntimeError::NotEvidenceNode("nowhere".into())),
        (blank, RuntimeError::EmptyMetadata),
        (future, RuntimeError::InvalidObservationTime),
        (stale, RuntimeError::NonIncreasingVersion("a".into())),
        (retyped, RuntimeError::ChangedIdentity("a".into())),
    ];
    for (bad, expected) in cases {
        assert_eq!(runtime.update(bad), Err(expected));
        assert_eq!(snapshot(&runtime), before);
    }
}

#[test]
fn an_observation_expiring_before_it_was_made_is_rejected() {
    let mut runtime = AssuranceRuntime::new(chain());
    runtime.advance_to(t(5)).unwrap();
    let mut reversed = atom("a", Status::Valid, 2);
    reversed.observed_at = t(3);
    let before = snapshot(&runtime);
    assert_eq!(
        runtime.update(reversed),
        Err(RuntimeError::InvalidObservationTime)
    );
    assert_eq!(snapshot(&runtime), before);
}

#[test]
fn rejected_advances_change_nothing() {
    let mut runtime = loaded();
    runtime.advance_to(t(4)).unwrap();
    let before = snapshot(&runtime);
    assert_eq!(
        runtime.advance_to(t(3)),
        Err(RuntimeError::TimeWentBackwards)
    );
    assert_eq!(snapshot(&runtime), before);
    assert_eq!(
        runtime.advance(Duration::max_value()),
        Err(RuntimeError::TimeOverflow)
    );
    assert_eq!(snapshot(&runtime), before);
}

#[test]
fn an_already_expired_arrival_takes_two_epochs_and_stays_unknown() {
    let mut runtime = AssuranceRuntime::new(chain());
    runtime.advance_to(t(6)).unwrap();
    runtime.update(atom("a", Status::Valid, 6)).unwrap();
    assert_eq!(runtime.epoch(), 2);
    assert_eq!(runtime.evidence().get("a").unwrap().status, Status::Unknown);
    assert_eq!(
        *runtime.evaluation().assurance_by_node.get("a").unwrap(),
        Value::Unknown
    );
    runtime.update(atom("b", Status::Valid, 7)).unwrap();
    assert_eq!(runtime.epoch(), 3);
}

#[test]
fn graph_built_from_permuted_input_is_identical() {
    let first = chain();
    let second = AssuranceGraph::new(
        vec![
            Node::new("top", NodeKind::ActionStart),
            Node::new("c", NodeKind::Evidence),
            Node::new("ab", NodeKind::Derived),
            Node::new("b", NodeKind::Evidence),
            Node::new("a", NodeKind::Evidence),
        ],
        vec![
            rule("r-top", &["c", "ab"], 1, "top"),
            rule("r-ab", &["b", "a"], 2, "ab"),
        ],
    )
    .unwrap();
    assert_eq!(first.topological_order(), second.topological_order());
    assert_eq!(first.topological_order(), ["a", "b", "ab", "c", "top"]);
    assert_eq!(first.nodes(), second.nodes());
    assert_eq!(first.justifications(), second.justifications());
    assert_eq!(
        first.justifications_by_premise(),
        second.justifications_by_premise()
    );
    assert_eq!(
        first.justifications_by_conclusion(),
        second.justifications_by_conclusion()
    );
    assert_eq!(
        second.premises_by_justification("r-top").unwrap(),
        ["ab", "c"]
    );
    assert!(second.premises_by_justification("missing").is_none());
}

#[test]
fn unrelated_evidence_does_not_change_a_node() {
    let g = AssuranceGraph::new(
        vec![
            Node::new("x", NodeKind::Evidence),
            Node::new("y", NodeKind::Evidence),
            Node::new("px", NodeKind::Derived),
            Node::new("py", NodeKind::Derived),
        ],
        vec![rule("rx", &["x"], 1, "px"), rule("ry", &["y"], 1, "py")],
    )
    .unwrap();
    let mut evidence = IdMap::new();
    evidence.insert("x".to_string(), atom("x", Status::Valid, 4));
    evidence.insert("y".to_string(), atom("y", Status::Valid, 4));
    let before = evaluate_full(&g, &evidence, t(1));
    evidence.insert("y".to_string(), atom("y", Status::Invalid, 4));
    let after = evaluate_full(&g, &evidence, t(1));
    assert_eq!(
        before.assurance_by_node.get("px"),
        after.assurance_by_node.get("px")
    );
    assert_eq!(
        before.preferred_witness_by_node.get("px"),
        after.preferred_witness_by_node.get("px")
    );
    assert_eq!(*after.assurance_by_node.get("py").unwrap(), Value::Invalid);
}

#[test]
fn mismatched_or_future_observations_fail_closed() {
    let g = AssuranceGraph::new(vec![Node::new("x", NodeKind::Evidence)], vec![]).unwrap();
    let mut evidence = IdMap::new();
    evidence.insert("x".to_string(), atom("other", Status::Valid, 4));
    assert_eq!(
        *evaluate_full(&g, &evidence, t(0))
            .assurance_by_node
            .get("x")
            .unwrap(),
        Value::Unknown
    );
    let mut late = atom("x", Status::Valid, 9);
    late.observed_at = t(5);
    evidence.insert("x".to_string(), late);
    assert_eq!(
        *evaluate_full(&g, &evidence, t(1))
            .assurance_by_node
            .get("x")
            .unwrap(),
        Value::Unknown
    );
    assert_eq!(
        *evaluate_full(&g, &evidence, t(5))
            .assurance_by_node
            .get("x")
            .unwrap(),
        Value::Valid { horizon: t(9) }
    );
}

#[test]
fn threshold_rule_values_are_recorded_per_rule() {
    let mut evidence = IdMap::new();
    evidence.insert("a".to_string(), atom("a", Status::Valid, 4));
    evidence.insert("b".to_string(), atom("b", Status::Unknown, 4));
    evidence.insert("c".to_string(), atom("c", Status::Invalid, 4));
    let result = evaluate_full(&chain(), &evidence, t(0));
    assert_eq!(
        *result.assurance_by_justification.get("r-ab").unwrap(),
        Value::Unknown
    );
    assert_eq!(
        *result.assurance_by_justification.get("r-top").unwrap(),
        Value::Unknown
    );
    assert_eq!(*result.assurance_by_node.get("top").unwrap(), Value::Unknown);
}

#[test]
fn witnesses_cite_only_current_evidence_and_end_at_the_first_expiry() {
    let mut evidence = IdMap::new();
    evidence.insert("a".to_string(), atom("a", Status::Valid, 6));
    evidence.insert("b".to_string(), atom("b", Status::Valid, 9));
    evidence.insert("c".to_string(), atom("c", Status::Valid, 7));
    let now = t(1);
    let result = evaluate_full(&chain(), &evidence, now);
    let witnesses = &result.preferred_witness_by_node;
    assert_eq!(witnesses.len(), 5);
    for i in 0..witnesses.len() {
        let w = witnesses.value_at(i);
        let mut earliest: Option<Duration> = None;
        for e in w.evidence_ids.to_vec() {
            match *result.assurance_by_node.get(&e).unwrap() {
                Value::Valid { horizon } => {
                    assert!(w.horizon.le(&horizon));
                    if earliest.map_or(true, |x| horizon.lt(&x)) {
                        earliest = Some(horizon);
                    }
                }
                other => panic!("witness cites {e} with value {other:?}"),
            }
        }
        assert_eq!(earliest, Some(w.horizon));
    }
    assert_eq!(
        *result.assurance_by_node.get("top").unwrap(),
        Value::Valid { horizon: t(7) }
    );
    assert_eq!(
        result
            .preferred_witness_by_node
            .get("top")
            .unwrap()
            .evidence_ids
            .to_vec(),
        vec!["c"]
    );
}

#[test]
fn epoch_counts_accepted_observations_and_expiries_in_the_log() {
    let mut runtime = loaded();
    runtime.advance_to(t(4)).unwrap();
    runtime.update(atom("c", Status::Invalid, 9)).unwrap_err();
    let mut late = atom("a", Status::Valid, 4);
    late.version = 2;
    late.observed_at = t(4);
    runtime.update(late).unwrap();
    runtime.advance_to(t(20)).unwrap();
    let counted = runtime
        .audit()
        .iter()
        .filter(|entry| {
            matches!(
                entry.event,
                AuditEvent::EvidenceUpdated { .. } | AuditEvent::EvidenceExpired { .. }
            )
        })
        .count();
    assert_eq!(runtime.epoch(), counted as u64);
    assert_eq!(runtime.epoch(), 8);
    assert_eq!(runtime.audit().last().map_or(0, |e| e.epoch), runtime.epoch());
    let fresh = AssuranceRuntime::new(chain());
    assert_eq!(fresh.audit().last().map_or(0, |e| e.epoch), fresh.epoch());
}

#[test]
fn support_lasts_until_its_horizon_without_new_observations() {
    let mut evidence = IdMap::new();
    evidence.insert("a".to_string(), atom("a", Status::Valid, 6));
    evidence.insert("b".to_string(), atom("b", Status::Valid, 9));
    evidence.insert("c".to_string(), atom("c", Status::Unknown, 7));
    let g = chain();
    let start = evaluate_full(&g, &evidence, t(0));
    let horizon = match *start.assurance_by_node.get("top").unwrap() {
        Value::Valid { horizon } => horizon,
        other => panic!("top is {other:?}"),
    };
    assert_eq!(horizon, t(6));
    for time in 0..6 {
        assert!(matches!(
            evaluate_full(&g, &evidence, t(time))
                .assurance_by_node
                .get("top")
                .unwrap(),
            Value::Valid { .. }
        ));
    }
    assert_eq!(
        *evaluate_full(&g, &evidence, t(6))
            .assurance_by_node
            .get("top")
            .unwrap(),
        Value::Unknown
    );
}

#[test]
fn time_alone_keeps_support_and_witness_until_the_horizon() {
    let mut evidence = IdMap::new();
    evidence.insert("a".to_string(), atom("a", Status::Valid, 6));
    evidence.insert("b".to_string(), atom("b", Status::Valid, 9));
    evidence.insert("c".to_string(), atom("c", Status::Invalid, 7));
    let g = chain();
    let start = evaluate_full(&g, &evidence, t(1));
    for time in 1..12 {
        let later = evaluate_full(&g, &evidence, t(time));
        for i in 0..start.assurance_by_node.len() {
            let id = start.assurance_by_node.key_at(i);
            let before = *start.assurance_by_node.value_at(i);
            let now = *later.assurance_by_node.get(id).unwrap();
            match before {
                Value::Valid { horizon } if t(time).lt(&horizon) => {
                    assert_eq!(now, before);
                    assert_eq!(
                        later.preferred_witness_by_node.get(id),
                        start.preferred_witness_by_node.get(id)
                    );
                }
                Value::Valid { .. } => assert_eq!(now, Value::Unknown),
                other => assert_eq!(now, other),
            }
        }
    }
    assert_eq!(*start.assurance_by_node.get("c").unwrap(), Value::Invalid);
}

#[test]
fn a_reordered_accepted_configuration_is_accepted_too() {
    let nodes = vec![
        Node::new("x", NodeKind::Evidence),
        Node::new("y", NodeKind::Evidence),
        Node::new("out", NodeKind::ActionRun),
    ];
    let rules = vec![rule("r1", &["x", "y"], 2, "out"), rule("r0", &["y"], 1, "out")];
    let mut nodes2 = nodes.clone();
    nodes2.rotate_left(1);
    let mut rules2 = rules.clone();
    rules2.reverse();
    rules2[1].premises.reverse();
    let first = AssuranceGraph::new(nodes, rules).unwrap();
    let second = AssuranceGraph::new(nodes2, rules2).unwrap();
    assert_eq!(first.topological_order(), second.topological_order());
    assert_eq!(first.justifications(), second.justifications());
    assert_eq!(
        first.justifications_by_premise(),
        second.justifications_by_premise()
    );
}

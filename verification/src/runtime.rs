//! Single-threaded deterministic evidence lifecycle with explicit audit events.
use vstd::prelude::*;

use crate::clock::{ControlledClock, Duration, MAX_NANOS};
use crate::evaluator::{
    evaluate, evaluate_full, lemma_evaluate_dom, lemma_evaluate_same_values, same_witness,
    Evaluation, EvaluationView, Witness, WitnessView,
};
use crate::evidence::{atom_value, AssuranceStatus, AssuranceValue, EvidenceAtom};
use crate::graph::{
    is_blank, lemma_sorted_ids, lemma_sorted_ids_exist, sorted_ids, str_is_blank, AssuranceGraph,
    GraphView, NodeKind,
};
use crate::ids::{copy_id, id_eq_str, ids_of, lemma_sorted_no_duplicates, strictly_sorted, IdMap};

verus! {

/// Why an update or an advance is rejected.
#[derive(Debug, Clone, PartialEq, Eq)]
pub enum RuntimeError {
    NotEvidenceNode(String),
    EmptyMetadata,
    InvalidObservationTime,
    NonIncreasingVersion(String),
    ChangedIdentity(String),
    TimeWentBackwards,
    TimeOverflow,
    EpochOverflow,
}

/// A rejection with identifiers as character sequences.
pub enum RuntimeErrorView {
    NotEvidenceNode(Seq<char>),
    EmptyMetadata,
    InvalidObservationTime,
    NonIncreasingVersion(Seq<char>),
    ChangedIdentity(Seq<char>),
    TimeWentBackwards,
    TimeOverflow,
    EpochOverflow,
}

impl View for RuntimeError {
    type V = RuntimeErrorView;

    open spec fn view(&self) -> RuntimeErrorView {
        match self {
            RuntimeError::NotEvidenceNode(s) => RuntimeErrorView::NotEvidenceNode(s@),
            RuntimeError::EmptyMetadata => RuntimeErrorView::EmptyMetadata,
            RuntimeError::InvalidObservationTime => RuntimeErrorView::InvalidObservationTime,
            RuntimeError::NonIncreasingVersion(s) => RuntimeErrorView::NonIncreasingVersion(s@),
            RuntimeError::ChangedIdentity(s) => RuntimeErrorView::ChangedIdentity(s@),
            RuntimeError::TimeWentBackwards => RuntimeErrorView::TimeWentBackwards,
            RuntimeError::TimeOverflow => RuntimeErrorView::TimeOverflow,
            RuntimeError::EpochOverflow => RuntimeErrorView::EpochOverflow,
        }
    }
}

/// What an audit entry records.
#[derive(Debug, Clone, PartialEq, Eq)]
pub enum AuditEvent {
    EvidenceUpdated { previous: Option<EvidenceAtom>, current: EvidenceAtom },
    /// Explicit VALID -> UNKNOWN transition; no new observation version.
    EvidenceExpired { evidence_id: String, version: u64 },
    AssuranceChanged { node_id: String, previous: AssuranceValue, current: AssuranceValue },
    WitnessChanged { node_id: String, previous: Option<Witness>, current: Option<Witness> },
}

/// An audit event with identifiers as character sequences.
pub enum AuditEventView {
    EvidenceUpdated { previous: Option<EvidenceAtom>, current: EvidenceAtom },
    EvidenceExpired { evidence_id: Seq<char>, version: u64 },
    AssuranceChanged { node_id: Seq<char>, previous: AssuranceValue, current: AssuranceValue },
    WitnessChanged {
        node_id: Seq<char>,
        previous: Option<WitnessView>,
        current: Option<WitnessView>,
    },
}

/// The view of an optional owned witness.
pub open spec fn owned_witness_view(w: Option<Witness>) -> Option<WitnessView> {
    match w {
        Some(x) => Some(x@),
        None => None,
    }
}

impl View for AuditEvent {
    type V = AuditEventView;

    open spec fn view(&self) -> AuditEventView {
        match self {
            AuditEvent::EvidenceUpdated { previous, current } => AuditEventView::EvidenceUpdated {
                previous: *previous,
                current: *current,
            },
            AuditEvent::EvidenceExpired { evidence_id, version } => AuditEventView::EvidenceExpired {
                evidence_id: evidence_id@,
                version: *version,
            },
            AuditEvent::AssuranceChanged { node_id, previous, current } =>
                AuditEventView::AssuranceChanged {
                node_id: node_id@,
                previous: *previous,
                current: *current,
            },
            AuditEvent::WitnessChanged { node_id, previous, current } =>
                AuditEventView::WitnessChanged {
                node_id: node_id@,
                previous: owned_witness_view(*previous),
                current: owned_witness_view(*current),
            },
        }
    }
}

/// One entry of the audit log, stamped with the simulation time and epoch.
#[derive(Debug, Clone, PartialEq, Eq)]
pub struct AuditEntry {
    pub at: Duration,
    pub epoch: u64,
    pub event: AuditEvent,
}

/// An audit entry with its event as a view.
pub struct AuditEntryView {
    pub at: nat,
    pub epoch: nat,
    pub event: AuditEventView,
}

impl View for AuditEntry {
    type V = AuditEntryView;

    open spec fn view(&self) -> AuditEntryView {
        AuditEntryView { at: self.at@, epoch: self.epoch as nat, event: self.event@ }
    }
}

/// The views of a sequence of audit entries.
pub open spec fn audit_view(s: Seq<AuditEntry>) -> Seq<AuditEntryView> {
    s.map_values(|e: AuditEntry| e@)
}

// The runtime as a mathematical state, and what each operation does to it.

/// The state of a runtime.
pub struct RuntimeView {
    pub graph: GraphView,
    pub now: nat,
    pub evidence: Map<Seq<char>, EvidenceAtom>,
    pub epoch: nat,
    pub evaluation: EvaluationView,
    pub audit: Seq<AuditEntryView>,
}

/// The value stored for `k`, if any.
pub open spec fn opt_get<V>(m: Map<Seq<char>, V>, k: Seq<char>) -> Option<V> {
    if m.contains_key(k) {
        Some(m[k])
    } else {
        None
    }
}

/// Appends an entry stamped with the current time and epoch.
pub open spec fn record_spec(s: RuntimeView, e: AuditEventView) -> RuntimeView {
    RuntimeView {
        audit: s.audit.push(AuditEntryView { at: s.now, epoch: s.epoch, event: e }),
        ..s
    }
}

/// An observation whose support has lapsed: UNKNOWN, everything else kept.
pub open spec fn expired_atom(a: EvidenceAtom) -> EvidenceAtom {
    EvidenceAtom { status: AssuranceStatus::Unknown, ..a }
}

/// Expires the observation of `id`: a new epoch, the observation turned UNKNOWN with
/// its version kept, and an `EvidenceExpired` entry.
pub open spec fn expire_spec(s: RuntimeView, id: Seq<char>) -> RuntimeView {
    let s1 = RuntimeView {
        epoch: s.epoch + 1,
        evidence: s.evidence.insert(id, expired_atom(s.evidence[id])),
        ..s
    };
    record_spec(
        s1,
        AuditEventView::EvidenceExpired { evidence_id: id, version: s.evidence[id].version },
    )
}

/// Expires the observations of `ids`, in order.
pub open spec fn expire_all(s: RuntimeView, ids: Seq<Seq<char>>) -> RuntimeView
    decreases ids.len(),
{
    if ids.len() == 0 {
        s
    } else {
        expire_spec(expire_all(s, ids.drop_last()), ids.last())
    }
}

/// The entries that record what changed for node `id` between two evaluations.
pub open spec fn node_changes(
    id: Seq<char>,
    before: EvaluationView,
    after: EvaluationView,
    at: nat,
    epoch: nat,
) -> Seq<AuditEntryView> {
    let a = if before.by_node[id] != after.by_node[id] {
        seq![
            AuditEntryView {
                at,
                epoch,
                event: AuditEventView::AssuranceChanged {
                    node_id: id,
                    previous: before.by_node[id],
                    current: after.by_node[id],
                },
            },
        ]
    } else {
        Seq::empty()
    };
    let w = if opt_get(before.witnesses, id) != opt_get(after.witnesses, id) {
        seq![
            AuditEntryView {
                at,
                epoch,
                event: AuditEventView::WitnessChanged {
                    node_id: id,
                    previous: opt_get(before.witnesses, id),
                    current: opt_get(after.witnesses, id),
                },
            },
        ]
    } else {
        Seq::empty()
    };
    a + w
}

/// The entries that record what changed between two evaluations, node by node.
pub open spec fn change_events(
    ids: Seq<Seq<char>>,
    before: EvaluationView,
    after: EvaluationView,
    at: nat,
    epoch: nat,
) -> Seq<AuditEntryView>
    decreases ids.len(),
{
    if ids.len() == 0 {
        Seq::empty()
    } else {
        change_events(ids.drop_last(), before, after, at, epoch) + node_changes(
            ids.last(),
            before,
            after,
            at,
            epoch,
        )
    }
}

/// Evaluates the graph afresh and records every change of value or witness, in
/// node identifier order.
pub open spec fn reevaluate_spec(s: RuntimeView) -> RuntimeView {
    let next = evaluate(s.graph, s.evidence, s.now);
    RuntimeView {
        audit: s.audit + change_events(sorted_ids(s.graph.nodes.dom()), s.evaluation, next, s.now, s.epoch),
        evaluation: next,
        ..s
    }
}

/// A VALID observation whose deadline has already passed on arrival.
pub open spec fn already_expired(atom: EvidenceAtom, now: nat) -> bool {
    atom.status == AssuranceStatus::Valid && atom.expires_at@ <= now
}

/// Why an observation is rejected, in the order the checks are made.
pub open spec fn update_fault(s: RuntimeView, atom: EvidenceAtom) -> Option<RuntimeErrorView> {
    let id = atom.evidence_id@;
    if !(s.graph.nodes.contains_key(id) && s.graph.nodes[id] == NodeKind::Evidence) {
        Some(RuntimeErrorView::NotEvidenceNode(id))
    } else if is_blank(atom.evidence_type@) || is_blank(atom.predicate@) || is_blank(
        atom.source_id@,
    ) {
        Some(RuntimeErrorView::EmptyMetadata)
    } else if atom.observed_at@ > s.now || atom.expires_at@ < atom.observed_at@ {
        Some(RuntimeErrorView::InvalidObservationTime)
    } else if s.evidence.contains_key(id) && atom.version <= s.evidence[id].version {
        Some(RuntimeErrorView::NonIncreasingVersion(id))
    } else if s.evidence.contains_key(id) && (atom.source_id@ != s.evidence[id].source_id@
        || atom.predicate@ != s.evidence[id].predicate@ || atom.evidence_type@
        != s.evidence[id].evidence_type@) {
        Some(RuntimeErrorView::ChangedIdentity(id))
    } else if s.epoch + (if already_expired(atom, s.now) {
        2int
    } else {
        1int
    }) > u64::MAX {
        Some(RuntimeErrorView::EpochOverflow)
    } else {
        None
    }
}

/// The state after accepting an observation: a new epoch and an `EvidenceUpdated`
/// entry; an already expired VALID observation is expired at once; then the graph
/// is evaluated afresh.
pub open spec fn update_spec(s: RuntimeView, atom: EvidenceAtom) -> RuntimeView {
    let id = atom.evidence_id@;
    let s1 = RuntimeView { epoch: s.epoch + 1, evidence: s.evidence.insert(id, atom), ..s };
    let s2 = record_spec(
        s1,
        AuditEventView::EvidenceUpdated { previous: opt_get(s.evidence, id), current: atom },
    );
    let s3 = if already_expired(atom, s.now) {
        expire_spec(s2, id)
    } else {
        s2
    };
    reevaluate_spec(s3)
}

/// Observations that are VALID with a deadline no later than `target`.
pub open spec fn due_ids(ev: Map<Seq<char>, EvidenceAtom>, target: nat) -> Set<Seq<char>> {
    ev.dom().filter(
        |k: Seq<char>| ev[k].status == AssuranceStatus::Valid && ev[k].expires_at@ <= target,
    )
}

/// `d` is the deadline of a due observation and no due deadline is earlier.
pub open spec fn is_next_deadline(ev: Map<Seq<char>, EvidenceAtom>, target: nat, d: nat) -> bool {
    &&& exists|k: Seq<char>| #[trigger] due_ids(ev, target).contains(k) && ev[k].expires_at@ == d
    &&& forall|k: Seq<char>| #[trigger] due_ids(ev, target).contains(k) ==> d <= ev[k].expires_at@
}

/// The earliest deadline among the due observations.
pub open spec fn next_deadline(ev: Map<Seq<char>, EvidenceAtom>, target: nat) -> nat {
    choose|d: nat| #[trigger] is_next_deadline(ev, target, d)
}

/// The VALID observations whose deadline is exactly `d`.
pub open spec fn deadline_group(ev: Map<Seq<char>, EvidenceAtom>, d: nat) -> Set<Seq<char>> {
    ev.dom().filter(
        |k: Seq<char>| ev[k].status == AssuranceStatus::Valid && ev[k].expires_at@ == d,
    )
}

/// The evidence after expiring each observation listed in `ids`.
pub open spec fn expired_evidence(ev: Map<Seq<char>, EvidenceAtom>, ids: Set<Seq<char>>) -> Map<
    Seq<char>,
    EvidenceAtom,
> {
    Map::new(
        |k: Seq<char>| ev.contains_key(k),
        |k: Seq<char>|
            if ids.contains(k) {
                expired_atom(ev[k])
            } else {
                ev[k]
            },
    )
}

/// One deadline of an advance: the clock moves to the earliest due deadline, every
/// VALID observation expiring then turns UNKNOWN in identifier order, and the graph
/// is evaluated afresh once.
#[verifier::opaque]
pub open spec fn advance_step(s: RuntimeView, target: nat) -> RuntimeView {
    let d = next_deadline(s.evidence, target);
    reevaluate_spec(
        expire_all(RuntimeView { now: d, ..s }, sorted_ids(deadline_group(s.evidence, d))),
    )
}

/// Advancing the clock to `target`: each due deadline in chronological order, then
/// the clock set to `target` with no further evaluation.
pub open spec fn advance_spec(s: RuntimeView, target: nat) -> RuntimeView
    decreases due_ids(s.evidence, target).len(),
    when s.evidence.dom().finite()
    via advance_spec_decreases
{
    if due_ids(s.evidence, target) == Set::<Seq<char>>::empty() {
        RuntimeView { now: target, ..s }
    } else {
        advance_spec(advance_step(s, target), target)
    }
}

#[via_fn]
proof fn advance_spec_decreases(s: RuntimeView, target: nat) {
    if due_ids(s.evidence, target) != Set::<Seq<char>>::empty() {
        lemma_advance_step(s, target);
    }
}

/// Why an advance to `target` is rejected: time never runs backwards, and the epochs
/// of all due expiries must fit.
pub open spec fn advance_fault(s: RuntimeView, target: nat) -> Option<RuntimeErrorView> {
    if target < s.now {
        Some(RuntimeErrorView::TimeWentBackwards)
    } else if s.epoch + due_ids(s.evidence, target).len() > u64::MAX {
        Some(RuntimeErrorView::EpochOverflow)
    } else {
        None
    }
}

/// Why an advance by `elapsed` is rejected: the new time must be representable, then
/// as for an advance to it.
pub open spec fn advance_by_fault(s: RuntimeView, elapsed: nat) -> Option<RuntimeErrorView> {
    if s.now + elapsed > MAX_NANOS {
        Some(RuntimeErrorView::TimeOverflow)
    } else {
        advance_fault(s, s.now + elapsed)
    }
}

/// The log is in time and epoch order, and nothing in it is later than `now` or
/// newer than `epoch`.
pub open spec fn audit_ordered(log: Seq<AuditEntryView>, now: nat, epoch: nat) -> bool {
    &&& forall|i: int, j: int|
        0 <= i < j < log.len() ==> (#[trigger] log[i]).at <= (#[trigger] log[j]).at && log[i].epoch
            <= log[j].epoch
    &&& forall|i: int| 0 <= i < log.len() ==> (#[trigger] log[i]).at <= now && log[i].epoch <= epoch
}

/// The epoch of the newest entry of the log, or zero for an empty log.
pub open spec fn last_epoch(log: Seq<AuditEntryView>) -> nat {
    if log.len() == 0 {
        0
    } else {
        log.last().epoch
    }
}

/// Whether an entry records an accepted observation or an expiry.
pub open spec fn is_lifecycle(e: AuditEntryView) -> bool {
    ||| e.event is EvidenceUpdated
    ||| e.event is EvidenceExpired
}

/// The number of accepted observations and expiries that the log records.
pub open spec fn lifecycle_count(log: Seq<AuditEntryView>) -> nat
    decreases log.len(),
{
    if log.len() == 0 {
        0
    } else {
        lifecycle_count(log.drop_last()) + if is_lifecycle(log.last()) {
            1nat
        } else {
            0nat
        }
    }
}

/// A stored observation is filed under its own identifier at an evidence node, was
/// observed no later than now and no later than its deadline, and is VALID only
/// while its deadline is still ahead.
pub open spec fn stored_ok(s: RuntimeView, k: Seq<char>) -> bool {
    let a = s.evidence[k];
    &&& a.evidence_id@ == k
    &&& s.graph.nodes.contains_key(k)
    &&& s.graph.nodes[k] == NodeKind::Evidence
    &&& a.observed_at@ <= s.now
    &&& a.observed_at@ <= a.expires_at@
    &&& a.status == AssuranceStatus::Valid ==> s.now < a.expires_at@
}

/// The runtime's invariant: a consistent graph, finitely many observations each
/// stored consistently, and an evaluation equal to a fresh full evaluation now.
pub open spec fn runtime_wf(s: RuntimeView) -> bool {
    &&& crate::graph::graph_wf(s.graph)
    &&& s.evidence.dom().finite()
    &&& forall|k: Seq<char>| #[trigger] s.evidence.contains_key(k) ==> stored_ok(s, k)
    &&& s.evaluation == evaluate(s.graph, s.evidence, s.now)
    &&& audit_ordered(s.audit, s.now, s.epoch)
    &&& s.epoch == lifecycle_count(s.audit)
    &&& s.epoch == last_epoch(s.audit)
}

// Facts that the operations and the laws below rest on.

/// A nonempty set has a member.
proof fn lemma_some_member(set: Set<Seq<char>>) -> (k: Seq<char>)
    requires
        set != Set::<Seq<char>>::empty(),
    ensures
        set.contains(k),
{
    if !(exists|k: Seq<char>| set.contains(k)) {
        assert(set =~= Set::<Seq<char>>::empty());
    }
    choose|k: Seq<char>| set.contains(k)
}

/// Expiring distinct stored observations turns exactly those UNKNOWN, one epoch each,
/// and changes nothing else but the log.
pub proof fn lemma_expire_all(s: RuntimeView, ids: Seq<Seq<char>>)
    requires
        ids.no_duplicates(),
        forall|i: int| 0 <= i < ids.len() ==> s.evidence.contains_key(#[trigger] ids[i]),
    ensures
        expire_all(s, ids).evidence == expired_evidence(s.evidence, ids.to_set()),
        expire_all(s, ids).epoch == s.epoch + ids.len(),
        expire_all(s, ids).now == s.now,
        expire_all(s, ids).graph == s.graph,
        expire_all(s, ids).evaluation == s.evaluation,
        expire_all(s, ids).audit.len() == s.audit.len() + ids.len(),
        expire_all(s, ids).audit.take(s.audit.len() as int) == s.audit,
    decreases ids.len(),
{
    if ids.len() == 0 {
        assert(expired_evidence(s.evidence, ids.to_set()) =~= s.evidence);
    } else {
        let rest = ids.drop_last();
        let x = ids.last();
        assert(rest.no_duplicates());
        assert forall|i: int| 0 <= i < rest.len() implies s.evidence.contains_key(#[trigger] rest[i]) by {
            assert(rest[i] == ids[i]);
        }
        lemma_expire_all(s, rest);
        let r = expire_all(s, rest);
        assert(!rest.contains(x)) by {
            if rest.contains(x) {
                let j = choose|j: int| 0 <= j < rest.len() && rest[j] == x;
                assert(ids[j] == ids[ids.len() - 1]);
            }
        }
        assert(s.evidence.contains_key(ids[ids.len() - 1]));
        assert(r.evidence[x] == s.evidence[x]);
        assert(ids =~= rest.push(x));
        rest.lemma_push_to_set_commute(x);
        assert(expire_all(s, ids).evidence =~= expired_evidence(s.evidence, ids.to_set()));
        assert(expire_all(s, ids).audit.take(s.audit.len() as int) =~= r.audit.take(s.audit.len() as int));
    }
}

/// Expiring keeps the clock and spends one epoch per expiry.
pub proof fn lemma_expire_all_now(s: RuntimeView, ids: Seq<Seq<char>>)
    ensures
        expire_all(s, ids).now == s.now,
        expire_all(s, ids).epoch == s.epoch + ids.len(),
    decreases ids.len(),
{
    if ids.len() > 0 {
        lemma_expire_all_now(s, ids.drop_last());
    }
}

/// A finite nonempty set of due observations has one with the earliest deadline.
pub proof fn lemma_earliest_in(ev: Map<Seq<char>, EvidenceAtom>, set: Set<Seq<char>>) -> (k: Seq<char>)
    requires
        set.finite(),
        set.len() > 0,
    ensures
        set.contains(k),
        forall|j: Seq<char>| #[trigger] set.contains(j) ==> ev[k].expires_at@ <= ev[j].expires_at@,
    decreases set.len(),
{
    let x = set.choose();
    let rest = set.remove(x);
    if rest.len() == 0 {
        assert forall|j: Seq<char>| #[trigger] set.contains(j) implies ev[x].expires_at@ <= ev[j].expires_at@ by {
            if j != x {
                assert(rest.contains(j));
            }
        }
        x
    } else {
        let m = lemma_earliest_in(ev, rest);
        if ev[x].expires_at@ < ev[m].expires_at@ {
            x
        } else {
            m
        }
    }
}

/// With something due, the next deadline is that of a due observation, no due
/// deadline is earlier, and some observation expires at it.
pub proof fn lemma_next_deadline(ev: Map<Seq<char>, EvidenceAtom>, target: nat)
    requires
        ev.dom().finite(),
        due_ids(ev, target) != Set::<Seq<char>>::empty(),
    ensures
        is_next_deadline(ev, target, next_deadline(ev, target)),
        next_deadline(ev, target) <= target,
        deadline_group(ev, next_deadline(ev, target)) != Set::<Seq<char>>::empty(),
        deadline_group(ev, next_deadline(ev, target)).subset_of(due_ids(ev, target)),
        deadline_group(ev, next_deadline(ev, target)).finite(),
{
    let due = due_ids(ev, target);
    assert(due.subset_of(ev.dom()));
    vstd::set_lib::lemma_set_subset_finite(ev.dom(), due);
    assert(due.len() > 0) by {
        if due.len() == 0 {
            due.lemma_len0_is_empty();
        }
    }
    let k = lemma_earliest_in(ev, due);
    let d = ev[k].expires_at@;
    assert(is_next_deadline(ev, target, d));
    let n = next_deadline(ev, target);
    assert(is_next_deadline(ev, target, n));
    let kn = choose|j: Seq<char>| #[trigger] due_ids(ev, target).contains(j) && ev[j].expires_at@ == n;
    assert(deadline_group(ev, n).contains(kn));
    let g = deadline_group(ev, n);
    assert(g.subset_of(ev.dom()));
    vstd::set_lib::lemma_set_subset_finite(ev.dom(), g);
}

/// The earliest deadline among the due observations is the only one that is.
pub proof fn lemma_next_deadline_unique(ev: Map<Seq<char>, EvidenceAtom>, target: nat, d: nat)
    requires
        is_next_deadline(ev, target, d),
    ensures
        next_deadline(ev, target) == d,
{
    let n = next_deadline(ev, target);
    assert(is_next_deadline(ev, target, n));
    let kd = choose|k: Seq<char>| #[trigger] due_ids(ev, target).contains(k) && ev[k].expires_at@ == d;
    let kn = choose|k: Seq<char>| #[trigger] due_ids(ev, target).contains(k) && ev[k].expires_at@ == n;
    assert(due_ids(ev, target).contains(kd));
    assert(due_ids(ev, target).contains(kn));
}

/// Where a due observation exists by `a`, a later target has the same next deadline.
pub proof fn lemma_next_deadline_stable(ev: Map<Seq<char>, EvidenceAtom>, a: nat, b: nat)
    requires
        ev.dom().finite(),
        a <= b,
        due_ids(ev, a) != Set::<Seq<char>>::empty(),
    ensures
        next_deadline(ev, a) == next_deadline(ev, b),
{
    let ka = lemma_some_member(due_ids(ev, a));
    assert(due_ids(ev, b).contains(ka));
    lemma_next_deadline(ev, a);
    lemma_next_deadline(ev, b);
    let da = next_deadline(ev, a);
    let db = next_deadline(ev, b);
    let wa = choose|k: Seq<char>| #[trigger] due_ids(ev, a).contains(k) && ev[k].expires_at@ == da;
    let wb = choose|k: Seq<char>| #[trigger] due_ids(ev, b).contains(k) && ev[k].expires_at@ == db;
    assert(due_ids(ev, b).contains(wa));
    assert(db <= da);
    assert(due_ids(ev, a).contains(wb));
}

/// One deadline step expires exactly the observations due at the earliest deadline,
/// one epoch each, and leaves the rest of the due observations for later.
pub proof fn lemma_advance_step(s: RuntimeView, target: nat)
    requires
        s.evidence.dom().finite(),
        due_ids(s.evidence, target) != Set::<Seq<char>>::empty(),
    ensures
        ({
            let d = next_deadline(s.evidence, target);
            let group = deadline_group(s.evidence, d);
            let t = advance_step(s, target);
            &&& d <= target
            &&& group.finite()
            &&& group.len() > 0
            &&& group.subset_of(due_ids(s.evidence, target))
            &&& t.now == d
            &&& t.graph == s.graph
            &&& t.epoch == s.epoch + group.len()
            &&& t.evidence == expired_evidence(s.evidence, group)
            &&& t.evidence.dom() == s.evidence.dom()
            &&& t.evaluation == evaluate(t.graph, t.evidence, t.now)
            &&& due_ids(t.evidence, target) == due_ids(s.evidence, target).difference(group)
            &&& due_ids(t.evidence, target).len() == due_ids(s.evidence, target).len() - group.len()
        }),
{
    reveal(advance_step);
    let ev = s.evidence;
    lemma_next_deadline(ev, target);
    let d = next_deadline(ev, target);
    let group = deadline_group(ev, d);
    let due = due_ids(ev, target);
    vstd::set_lib::lemma_set_subset_finite(ev.dom(), due);
    lemma_sorted_ids_exist(group);
    let q = sorted_ids(group);
    lemma_sorted_no_duplicates(q);
    q.unique_seq_to_set();
    let s_d = RuntimeView { now: d, ..s };
    assert forall|i: int| 0 <= i < q.len() implies s_d.evidence.contains_key(#[trigger] q[i]) by {
        assert(q.to_set().contains(q[i]));
    }
    lemma_expire_all(s_d, q);
    let t = advance_step(s, target);
    assert(t.evidence.dom() =~= ev.dom());
    assert(due_ids(t.evidence, target) =~= due.difference(group));
    assert(group.len() > 0) by {
        if group.len() == 0 {
            group.lemma_len0_is_empty();
        }
    }
    vstd::set_lib::lemma_set_difference_len(due, group);
    assert(due.intersect(group) =~= group);
}

/// An ordered log stays ordered under a later time and a newer epoch.
pub proof fn lemma_audit_ordered_mono(log: Seq<AuditEntryView>, n1: nat, e1: nat, n2: nat, e2: nat)
    requires
        audit_ordered(log, n1, e1),
        n1 <= n2,
        e1 <= e2,
    ensures
        audit_ordered(log, n2, e2),
{
}

/// Appending entries stamped with the current time and epoch keeps the log ordered.
pub proof fn lemma_audit_append(
    log: Seq<AuditEntryView>,
    extra: Seq<AuditEntryView>,
    now: nat,
    epoch: nat,
)
    requires
        audit_ordered(log, now, epoch),
        forall|i: int| 0 <= i < extra.len() ==> (#[trigger] extra[i]).at == now && extra[i].epoch == epoch,
    ensures
        audit_ordered(log + extra, now, epoch),
{
    let all = log + extra;
    assert forall|i: int, j: int| 0 <= i < j < all.len() implies (#[trigger] all[i]).at <= (
    #[trigger] all[j]).at && all[i].epoch <= all[j].epoch by {
        if j >= log.len() {
            assert(all[j] == extra[j - log.len()]);
            if i >= log.len() {
                assert(all[i] == extra[i - log.len()]);
            } else {
                assert(all[i] == log[i]);
            }
        } else {
            assert(all[i] == log[i]);
            assert(all[j] == log[j]);
        }
    }
    assert forall|i: int| 0 <= i < all.len() implies (#[trigger] all[i]).at <= now && all[i].epoch <= epoch by {
        if i >= log.len() {
            assert(all[i] == extra[i - log.len()]);
        } else {
            assert(all[i] == log[i]);
        }
    }
}

/// Every change entry is stamped with the given time and epoch.
pub proof fn lemma_change_events_stamped(
    ids: Seq<Seq<char>>,
    before: EvaluationView,
    after: EvaluationView,
    at: nat,
    epoch: nat,
)
    ensures
        forall|i: int|
            0 <= i < change_events(ids, before, after, at, epoch).len() ==> (#[trigger] change_events(
                ids,
                before,
                after,
                at,
                epoch,
            )[i]).at == at && change_events(ids, before, after, at, epoch)[i].epoch == epoch,
    decreases ids.len(),
{
    if ids.len() > 0 {
        lemma_change_events_stamped(ids.drop_last(), before, after, at, epoch);
        let c = change_events(ids.drop_last(), before, after, at, epoch);
        let n = node_changes(ids.last(), before, after, at, epoch);
        let all = change_events(ids, before, after, at, epoch);
        assert forall|i: int| 0 <= i < all.len() implies (#[trigger] all[i]).at == at && all[i].epoch
            == epoch by {
            if i >= c.len() {
                assert(all[i] == n[i - c.len()]);
            } else {
                assert(all[i] == c[i]);
            }
        }
    }
}

/// Re-evaluation keeps the log ordered.
pub proof fn lemma_reevaluate_ordered(s: RuntimeView)
    requires
        audit_ordered(s.audit, s.now, s.epoch),
    ensures
        audit_ordered(reevaluate_spec(s).audit, s.now, s.epoch),
{
    let next = evaluate(s.graph, s.evidence, s.now);
    let ids = sorted_ids(s.graph.nodes.dom());
    lemma_change_events_stamped(ids, s.evaluation, next, s.now, s.epoch);
    lemma_audit_append(s.audit, change_events(ids, s.evaluation, next, s.now, s.epoch), s.now, s.epoch);
}

/// Expiring observations one after another keeps the log ordered.
pub proof fn lemma_expire_all_ordered(s: RuntimeView, ids: Seq<Seq<char>>)
    requires
        audit_ordered(s.audit, s.now, s.epoch),
    ensures
        audit_ordered(expire_all(s, ids).audit, s.now, s.epoch + ids.len()),
    decreases ids.len(),
{
    if ids.len() > 0 {
        lemma_expire_all_ordered(s, ids.drop_last());
        let r = expire_all(s, ids.drop_last());
        lemma_audit_ordered_mono(r.audit, s.now, (s.epoch + ids.len() - 1) as nat, s.now, s.epoch + ids.len());
        let e = AuditEntryView {
            at: s.now,
            epoch: s.epoch + ids.len(),
            event: AuditEventView::EvidenceExpired {
                evidence_id: ids.last(),
                version: r.evidence[ids.last()].version,
            },
        };
        lemma_expire_all_now(s, ids.drop_last());
        lemma_audit_append(r.audit, seq![e], s.now, s.epoch + ids.len());
        assert(expire_all(s, ids).audit =~= r.audit + seq![e]);
    }
}

/// Counting distributes over concatenation.
pub proof fn lemma_lifecycle_count_append(a: Seq<AuditEntryView>, b: Seq<AuditEntryView>)
    ensures
        lifecycle_count(a + b) == lifecycle_count(a) + lifecycle_count(b),
    decreases b.len(),
{
    if b.len() > 0 {
        lemma_lifecycle_count_append(a, b.drop_last());
        assert((a + b).drop_last() =~= a + b.drop_last());
        assert((a + b).last() == b.last());
    } else {
        assert(a + b =~= a);
    }
}

/// Change entries record neither observations nor expiries.
pub proof fn lemma_change_events_uncounted(
    ids: Seq<Seq<char>>,
    before: EvaluationView,
    after: EvaluationView,
    at: nat,
    epoch: nat,
)
    ensures
        lifecycle_count(change_events(ids, before, after, at, epoch)) == 0,
    decreases ids.len(),
{
    if ids.len() > 0 {
        lemma_change_events_uncounted(ids.drop_last(), before, after, at, epoch);
        let n = node_changes(ids.last(), before, after, at, epoch);
        assert(lifecycle_count(n) == 0) by {
            reveal_with_fuel(lifecycle_count, 3);
            if n.len() == 2 {
                assert(n.drop_last().drop_last() =~= Seq::<AuditEntryView>::empty());
            } else if n.len() == 1 {
                assert(n.drop_last() =~= Seq::<AuditEntryView>::empty());
            }
        }
        lemma_lifecycle_count_append(change_events(ids.drop_last(), before, after, at, epoch), n);
    }
}

/// Appending one entry counts it if it records an observation or an expiry.
pub proof fn lemma_lifecycle_count_push(log: Seq<AuditEntryView>, e: AuditEntryView)
    ensures
        lifecycle_count(log.push(e)) == lifecycle_count(log) + if is_lifecycle(e) {
            1int
        } else {
            0int
        },
{
    assert(log.push(e).drop_last() =~= log);
}

/// Each expiry adds one counted entry and one epoch.
pub proof fn lemma_expire_all_counted(s: RuntimeView, ids: Seq<Seq<char>>)
    ensures
        lifecycle_count(expire_all(s, ids).audit) == lifecycle_count(s.audit) + ids.len(),
    decreases ids.len(),
{
    if ids.len() > 0 {
        lemma_expire_all_counted(s, ids.drop_last());
        let r = expire_all(s, ids.drop_last());
        let e = AuditEntryView {
            at: r.now,
            epoch: r.epoch + 1,
            event: AuditEventView::EvidenceExpired {
                evidence_id: ids.last(),
                version: r.evidence[ids.last()].version,
            },
        };
        lemma_lifecycle_count_push(r.audit, e);
    }
}

/// Re-evaluation adds no counted entry.
pub proof fn lemma_reevaluate_counted(s: RuntimeView)
    ensures
        lifecycle_count(reevaluate_spec(s).audit) == lifecycle_count(s.audit),
{
    let next = evaluate(s.graph, s.evidence, s.now);
    let ids = sorted_ids(s.graph.nodes.dom());
    lemma_change_events_uncounted(ids, s.evaluation, next, s.now, s.epoch);
    lemma_lifecycle_count_append(s.audit, change_events(ids, s.evaluation, next, s.now, s.epoch));
}

/// Each expiry stamps its entry with its own new epoch.
pub proof fn lemma_expire_all_last(s: RuntimeView, ids: Seq<Seq<char>>)
    requires
        last_epoch(s.audit) == s.epoch,
    ensures
        last_epoch(expire_all(s, ids).audit) == expire_all(s, ids).epoch,
    decreases ids.len(),
{
    lemma_expire_all_now(s, ids);
    if ids.len() > 0 {
        lemma_expire_all_last(s, ids.drop_last());
        lemma_expire_all_now(s, ids.drop_last());
    }
}

/// Re-evaluation stamps its entries with the current epoch.
pub proof fn lemma_reevaluate_last(s: RuntimeView)
    requires
        last_epoch(s.audit) == s.epoch,
    ensures
        last_epoch(reevaluate_spec(s).audit) == s.epoch,
{
    let next = evaluate(s.graph, s.evidence, s.now);
    let ids = sorted_ids(s.graph.nodes.dom());
    let c = change_events(ids, s.evaluation, next, s.now, s.epoch);
    lemma_change_events_stamped(ids, s.evaluation, next, s.now, s.epoch);
    if c.len() > 0 {
        assert((s.audit + c).last() == c[c.len() - 1]);
    } else {
        assert(s.audit + c =~= s.audit);
    }
}

/// Where no stored observation is due by `target`, every observation has the same
/// value at `target` as now, and so has the evaluation.
pub proof fn lemma_quiet_until(s: RuntimeView, target: nat)
    requires
        runtime_wf(s),
        s.now <= target,
        due_ids(s.evidence, target) == Set::<Seq<char>>::empty(),
    ensures
        runtime_wf(RuntimeView { now: target, ..s }),
{
    let ev = s.evidence;
    assert forall|k: Seq<char>| #[trigger] ev.contains_key(k) implies atom_value(ev[k], s.now)
        == atom_value(ev[k], target) by {
        assert(stored_ok(s, k));
        if ev[k].status == AssuranceStatus::Valid && ev[k].expires_at@ <= target {
            assert(due_ids(ev, target).contains(k));
        }
    }
    lemma_evaluate_same_values(s.graph, ev, s.now, target, s.graph.order.len());
    let t = RuntimeView { now: target, ..s };
    assert forall|k: Seq<char>| #[trigger] t.evidence.contains_key(k) implies stored_ok(t, k) by {
        assert(stored_ok(s, k));
        if ev[k].status == AssuranceStatus::Valid && ev[k].expires_at@ <= target {
            assert(due_ids(ev, target).contains(k));
        }
    }
}

/// A deadline step keeps the invariant.
pub proof fn lemma_advance_step_wf(s: RuntimeView, target: nat)
    requires
        runtime_wf(s),
        due_ids(s.evidence, target) != Set::<Seq<char>>::empty(),
    ensures
        runtime_wf(advance_step(s, target)),
        s.now < advance_step(s, target).now,
{
    lemma_advance_step(s, target);
    lemma_next_deadline(s.evidence, target);
    let ev = s.evidence;
    let d = next_deadline(ev, target);
    let group = deadline_group(ev, d);
    let t = advance_step(s, target);
    let k0 = lemma_some_member(group);
    assert(stored_ok(s, k0));
    assert(audit_ordered(t.audit, t.now, t.epoch)) by {
        reveal(advance_step);
        let sd = RuntimeView { now: d, ..s };
        let q = sorted_ids(group);
        lemma_audit_ordered_mono(s.audit, s.now, s.epoch, d, s.epoch);
        lemma_expire_all_ordered(sd, q);
        lemma_expire_all_now(sd, q);
        lemma_reevaluate_ordered(expire_all(sd, q));
    }
    assert(t.epoch == lifecycle_count(t.audit)) by {
        reveal(advance_step);
        let sd = RuntimeView { now: d, ..s };
        let q = sorted_ids(group);
        lemma_expire_all_counted(sd, q);
        lemma_expire_all_now(sd, q);
        lemma_reevaluate_counted(expire_all(sd, q));
    }
    assert(t.epoch == last_epoch(t.audit)) by {
        reveal(advance_step);
        let sd = RuntimeView { now: d, ..s };
        let q = sorted_ids(group);
        lemma_expire_all_last(sd, q);
        lemma_expire_all_now(sd, q);
        lemma_reevaluate_last(expire_all(sd, q));
    }
    assert forall|k: Seq<char>| #[trigger] t.evidence.contains_key(k) implies stored_ok(t, k) by {
        assert(stored_ok(s, k));
        if !group.contains(k) && ev[k].status == AssuranceStatus::Valid && ev[k].expires_at@
            <= target {
            assert(due_ids(ev, target).contains(k));
        }
    }
}

/// Accepting an observation keeps the invariant.
pub proof fn lemma_update_wf(s: RuntimeView, atom: EvidenceAtom)
    requires
        runtime_wf(s),
        update_fault(s, atom) is None,
    ensures
        runtime_wf(update_spec(s, atom)),
{
    let t = update_spec(s, atom);
    let id = atom.evidence_id@;
    assert(t.evidence.dom() =~= s.evidence.dom().insert(id));
    assert(audit_ordered(t.audit, t.now, t.epoch)) by {
        let s1 = RuntimeView { epoch: s.epoch + 1, evidence: s.evidence.insert(id, atom), ..s };
        let e1 = AuditEventView::EvidenceUpdated { previous: opt_get(s.evidence, id), current: atom };
        let s2 = record_spec(s1, e1);
        lemma_audit_ordered_mono(s.audit, s.now, s.epoch, s.now, s1.epoch);
        lemma_audit_append(s1.audit, seq![AuditEntryView { at: s1.now, epoch: s1.epoch, event: e1 }], s1.now, s1.epoch);
        assert(s2.audit =~= s1.audit + seq![AuditEntryView { at: s1.now, epoch: s1.epoch, event: e1 }]);
        if already_expired(atom, s.now) {
            let s3 = expire_spec(s2, id);
            assert(s3 == expire_all(s2, seq![id])) by {
                assert(seq![id].drop_last() =~= Seq::<Seq<char>>::empty());
                assert(expire_all(s2, Seq::<Seq<char>>::empty()) == s2);
                assert(seq![id].last() == id);
            }
            lemma_expire_all_ordered(s2, seq![id]);
            lemma_reevaluate_ordered(s3);
        } else {
            lemma_reevaluate_ordered(s2);
        }
    }
    assert(t.epoch == lifecycle_count(t.audit)) by {
        let s1 = RuntimeView { epoch: s.epoch + 1, evidence: s.evidence.insert(id, atom), ..s };
        let e1 = AuditEventView::EvidenceUpdated { previous: opt_get(s.evidence, id), current: atom };
        let s2 = record_spec(s1, e1);
        lemma_lifecycle_count_push(s1.audit, AuditEntryView { at: s1.now, epoch: s1.epoch, event: e1 });
        if already_expired(atom, s.now) {
            let s3 = expire_spec(s2, id);
            assert(s3 == expire_all(s2, seq![id])) by {
                assert(seq![id].drop_last() =~= Seq::<Seq<char>>::empty());
                assert(expire_all(s2, Seq::<Seq<char>>::empty()) == s2);
                assert(seq![id].last() == id);
            }
            lemma_expire_all_counted(s2, seq![id]);
            lemma_expire_all_now(s2, seq![id]);
            lemma_reevaluate_counted(s3);
        } else {
            lemma_reevaluate_counted(s2);
        }
    }
    assert(t.epoch == last_epoch(t.audit)) by {
        let s1 = RuntimeView { epoch: s.epoch + 1, evidence: s.evidence.insert(id, atom), ..s };
        let e1 = AuditEventView::EvidenceUpdated { previous: opt_get(s.evidence, id), current: atom };
        let s2 = record_spec(s1, e1);
        assert(last_epoch(s2.audit) == s2.epoch);
        if already_expired(atom, s.now) {
            let s3 = expire_spec(s2, id);
            assert(s3 == expire_all(s2, seq![id])) by {
                assert(seq![id].drop_last() =~= Seq::<Seq<char>>::empty());
                assert(expire_all(s2, Seq::<Seq<char>>::empty()) == s2);
                assert(seq![id].last() == id);
            }
            lemma_expire_all_last(s2, seq![id]);
            lemma_reevaluate_last(s3);
        } else {
            lemma_reevaluate_last(s2);
        }
    }
    assert forall|k: Seq<char>| #[trigger] t.evidence.contains_key(k) implies stored_ok(t, k) by {
        if k != id {
            assert(stored_ok(s, k));
        }
    }
}

/// An advance reads the clock only through its target.
pub proof fn lemma_advance_ignores_now(s: RuntimeView, x: nat, target: nat)
    requires
        s.evidence.dom().finite(),
    ensures
        advance_spec(RuntimeView { now: x, ..s }, target) == advance_spec(s, target),
{
    reveal(advance_step);
    let s2 = RuntimeView { now: x, ..s };
    assert(s2.evidence == s.evidence);
    if due_ids(s.evidence, target) != Set::<Seq<char>>::empty() {
        assert(advance_step(s2, target) == advance_step(s, target));
    }
}

// Laws of the runtime.

/// An entry that reports a change of node `n` reports it truly: the value or witness
/// it gives as previous is the node's in `before`, the one it gives as current is the
/// node's in `after`, and the two differ.
pub open spec fn reports_change(e: AuditEntryView, before: EvaluationView, after: EvaluationView) -> bool {
    match e.event {
        AuditEventView::AssuranceChanged { node_id, previous, current } => {
            &&& previous == before.by_node[node_id]
            &&& current == after.by_node[node_id]
            &&& previous != current
        },
        AuditEventView::WitnessChanged { node_id, previous, current } => {
            &&& (before.witnesses.contains_key(node_id) ==> previous == Some(before.witnesses[node_id]))
            &&& (!before.witnesses.contains_key(node_id) ==> previous is None)
            &&& (after.witnesses.contains_key(node_id) ==> current == Some(after.witnesses[node_id]))
            &&& (!after.witnesses.contains_key(node_id) ==> current is None)
            &&& previous != current
        },
        _ => true,
    }
}

/// Whether an entry reports a change of a node's value or witness.
pub open spec fn is_change_report(e: AuditEntryView) -> bool {
    ||| e.event is AssuranceChanged
    ||| e.event is WitnessChanged
}

/// The change entries between two evaluations report only true changes.
pub proof fn lemma_change_events_true(
    ids: Seq<Seq<char>>,
    before: EvaluationView,
    after: EvaluationView,
    at: nat,
    epoch: nat,
)
    ensures
        forall|i: int|
            0 <= i < change_events(ids, before, after, at, epoch).len() ==> reports_change(
                #[trigger] change_events(ids, before, after, at, epoch)[i],
                before,
                after,
            ) && is_change_report(change_events(ids, before, after, at, epoch)[i]),
    decreases ids.len(),
{
    if ids.len() > 0 {
        lemma_change_events_true(ids.drop_last(), before, after, at, epoch);
        let c = change_events(ids.drop_last(), before, after, at, epoch);
        let n = node_changes(ids.last(), before, after, at, epoch);
        let all = change_events(ids, before, after, at, epoch);
        assert forall|i: int| 0 <= i < all.len() implies reports_change(#[trigger] all[i], before, after)
            && is_change_report(all[i]) by {
            if i < c.len() {
                assert(all[i] == c[i]);
            } else {
                assert(all[i] == n[i - c.len()]);
            }
        }
    }
}

/// A re-evaluation appends only entries that truly report how a node's value or
/// witness changed from the evaluation before it to the one after it.
pub proof fn lemma_reevaluate_reports_truly(s: RuntimeView)
    ensures
        s.audit.len() <= reevaluate_spec(s).audit.len(),
        forall|i: int|
            s.audit.len() <= i < reevaluate_spec(s).audit.len() ==> reports_change(
                #[trigger] reevaluate_spec(s).audit[i],
                s.evaluation,
                reevaluate_spec(s).evaluation,
            ) && is_change_report(reevaluate_spec(s).audit[i]),
{
    let next = evaluate(s.graph, s.evidence, s.now);
    let ids = sorted_ids(s.graph.nodes.dom());
    lemma_change_events_true(ids, s.evaluation, next, s.now, s.epoch);
    let c = change_events(ids, s.evaluation, next, s.now, s.epoch);
    let r = reevaluate_spec(s);
    assert forall|i: int| s.audit.len() <= i < r.audit.len() implies reports_change(
        #[trigger] r.audit[i],
        s.evaluation,
        r.evaluation,
    ) && is_change_report(r.audit[i]) by {
        assert(r.audit[i] == c[i - s.audit.len()]);
    }
}

/// The log from position `lo` on holds an entry reporting that node `n` changed
/// value from `prev` to `cur`.
pub open spec fn logs_value_change(
    log: Seq<AuditEntryView>,
    lo: int,
    n: Seq<char>,
    prev: AssuranceValue,
    cur: AssuranceValue,
) -> bool {
    exists|i: int|
        lo <= i < log.len() && (#[trigger] log[i]).event == (AuditEventView::AssuranceChanged {
            node_id: n,
            previous: prev,
            current: cur,
        })
}

/// The log from position `lo` on holds an entry reporting that node `n`'s witness
/// changed.
pub open spec fn logs_witness_change(log: Seq<AuditEntryView>, lo: int, n: Seq<char>) -> bool {
    exists|i: int|
        lo <= i < log.len() && (#[trigger] log[i]).event is WitnessChanged && log[i].event->WitnessChanged_node_id == n
}

/// Every node listed whose value or witness differs between the two evaluations has
/// its change entry.
pub proof fn lemma_change_events_complete(
    ids: Seq<Seq<char>>,
    before: EvaluationView,
    after: EvaluationView,
    at: nat,
    epoch: nat,
    n: Seq<char>,
)
    requires
        ids.contains(n),
    ensures
        before.by_node[n] != after.by_node[n] ==> logs_value_change(
            change_events(ids, before, after, at, epoch),
            0,
            n,
            before.by_node[n],
            after.by_node[n],
        ),
        opt_get(before.witnesses, n) != opt_get(after.witnesses, n) ==> logs_witness_change(
            change_events(ids, before, after, at, epoch),
            0,
            n,
        ),
    decreases ids.len(),
{
    let c = change_events(ids.drop_last(), before, after, at, epoch);
    let m = node_changes(ids.last(), before, after, at, epoch);
    let all = change_events(ids, before, after, at, epoch);
    if ids.last() == n {
        let a = if before.by_node[n] != after.by_node[n] { 1int } else { 0int };
        if before.by_node[n] != after.by_node[n] {
            assert(all[c.len() as int] == m[0]);
        }
        if opt_get(before.witnesses, n) != opt_get(after.witnesses, n) {
            assert(all[c.len() + a] == m[a]);
        }
    } else {
        let j = choose|j: int| 0 <= j < ids.len() && ids[j] == n;
        assert(ids.drop_last()[j] == n);
        lemma_change_events_complete(ids.drop_last(), before, after, at, epoch, n);
        if before.by_node[n] != after.by_node[n] {
            let i = choose|i: int| 0 <= i < c.len() && (#[trigger] c[i]).event == (AuditEventView::AssuranceChanged {
                node_id: n,
                previous: before.by_node[n],
                current: after.by_node[n],
            });
            assert(all[i] == c[i]);
        }
        if opt_get(before.witnesses, n) != opt_get(after.witnesses, n) {
            let i = choose|i: int| 0 <= i < c.len() && (#[trigger] c[i]).event is WitnessChanged && c[i].event->WitnessChanged_node_id == n;
            assert(all[i] == c[i]);
        }
    }
}

/// A re-evaluation of a consistent graph logs every node whose value changes, with its
/// value before and after, and every node whose witness changes.
pub proof fn lemma_reevaluate_reports_all(s: RuntimeView, n: Seq<char>)
    requires
        crate::graph::graph_wf(s.graph),
        s.graph.nodes.contains_key(n),
    ensures
        s.evaluation.by_node[n] != reevaluate_spec(s).evaluation.by_node[n] ==> logs_value_change(
            reevaluate_spec(s).audit,
            s.audit.len() as int,
            n,
            s.evaluation.by_node[n],
            reevaluate_spec(s).evaluation.by_node[n],
        ),
        (s.evaluation.witnesses.contains_key(n) != reevaluate_spec(s).evaluation.witnesses.contains_key(n)
            || (s.evaluation.witnesses.contains_key(n) && s.evaluation.witnesses[n]
            != reevaluate_spec(s).evaluation.witnesses[n])) ==> logs_witness_change(
            reevaluate_spec(s).audit,
            s.audit.len() as int,
            n,
        ),
{
    let next = evaluate(s.graph, s.evidence, s.now);
    let ids = sorted_ids(s.graph.nodes.dom());
    lemma_sorted_ids_exist(s.graph.nodes.dom());
    assert(ids.to_set().contains(n));
    lemma_change_events_complete(ids, s.evaluation, next, s.now, s.epoch, n);
    let c = change_events(ids, s.evaluation, next, s.now, s.epoch);
    let r = reevaluate_spec(s);
    if s.evaluation.by_node[n] != next.by_node[n] {
        let i = choose|i: int| 0 <= i < c.len() && (#[trigger] c[i]).event == (AuditEventView::AssuranceChanged {
            node_id: n,
            previous: s.evaluation.by_node[n],
            current: next.by_node[n],
        });
        assert(r.audit[s.audit.len() + i] == c[i]);
    }
    if opt_get(s.evaluation.witnesses, n) != opt_get(next.witnesses, n) {
        let i = choose|i: int| 0 <= i < c.len() && (#[trigger] c[i]).event is WitnessChanged && c[i].event->WitnessChanged_node_id == n;
        assert(r.audit[s.audit.len() + i] == c[i]);
    }
}

/// An accepted observation logs every node whose value it changes, with the value
/// before and after, and every node whose witness it changes.
pub proof fn lemma_update_reports_all(s: RuntimeView, atom: EvidenceAtom, n: Seq<char>)
    requires
        runtime_wf(s),
        s.graph.nodes.contains_key(n),
    ensures
        s.evaluation.by_node[n] != update_spec(s, atom).evaluation.by_node[n] ==> logs_value_change(
            update_spec(s, atom).audit,
            s.audit.len() as int,
            n,
            s.evaluation.by_node[n],
            update_spec(s, atom).evaluation.by_node[n],
        ),
        (s.evaluation.witnesses.contains_key(n) != update_spec(s, atom).evaluation.witnesses.contains_key(n)
            || (s.evaluation.witnesses.contains_key(n) && s.evaluation.witnesses[n]
            != update_spec(s, atom).evaluation.witnesses[n])) ==> logs_witness_change(
            update_spec(s, atom).audit,
            s.audit.len() as int,
            n,
        ),
{
    let id = atom.evidence_id@;
    let s1 = RuntimeView { epoch: s.epoch + 1, evidence: s.evidence.insert(id, atom), ..s };
    let e1 = AuditEventView::EvidenceUpdated { previous: opt_get(s.evidence, id), current: atom };
    let s2 = record_spec(s1, e1);
    let s3 = if already_expired(atom, s.now) {
        expire_spec(s2, id)
    } else {
        s2
    };
    lemma_reevaluate_reports_all(s3, n);
    let t = update_spec(s, atom);
    assert(t == reevaluate_spec(s3));
    if s.evaluation.by_node[n] != t.evaluation.by_node[n] {
        let i = choose|i: int| s3.audit.len() <= i < t.audit.len() && (#[trigger] t.audit[i]).event == (AuditEventView::AssuranceChanged {
            node_id: n,
            previous: s.evaluation.by_node[n],
            current: t.evaluation.by_node[n],
        });
        assert(s.audit.len() <= i);
    }
    if s.evaluation.witnesses.contains_key(n) != t.evaluation.witnesses.contains_key(n)
        || (s.evaluation.witnesses.contains_key(n) && s.evaluation.witnesses[n] != t.evaluation.witnesses[n]) {
        let i = choose|i: int| s3.audit.len() <= i < t.audit.len() && (#[trigger] t.audit[i]).event is WitnessChanged && t.audit[i].event->WitnessChanged_node_id == n;
        assert(s.audit.len() <= i);
    }
}

/// An accepted observation raises its evidence node's version strictly, and the log
/// records it with the observation it replaces: the first entry appended is
/// `EvidenceUpdated` with the incoming observation as current and, as previous, the
/// observation stored before (none when there was none). Every value or witness
/// change it logs is true from the evaluation before the update to the one after it.
pub proof fn lemma_update_records(s: RuntimeView, atom: EvidenceAtom)
    requires
        update_fault(s, atom) is None,
    ensures
        s.evidence.contains_key(atom.evidence_id@) ==> s.evidence[atom.evidence_id@].version
            < atom.version,
        update_spec(s, atom).evidence[atom.evidence_id@].version == atom.version,
        s.audit.len() < update_spec(s, atom).audit.len(),
        match update_spec(s, atom).audit[s.audit.len() as int].event {
            AuditEventView::EvidenceUpdated { previous, current } => {
                &&& current == atom
                &&& s.evidence.contains_key(atom.evidence_id@) ==> previous == Some(
                    s.evidence[atom.evidence_id@],
                )
                &&& !s.evidence.contains_key(atom.evidence_id@) ==> previous is None
            },
            _ => false,
        },
        forall|i: int|
            s.audit.len() <= i < update_spec(s, atom).audit.len() && is_change_report(
                #[trigger] update_spec(s, atom).audit[i],
            ) ==> reports_change(update_spec(s, atom).audit[i], s.evaluation, update_spec(s, atom).evaluation),
{
    let id = atom.evidence_id@;
    let s1 = RuntimeView { epoch: s.epoch + 1, evidence: s.evidence.insert(id, atom), ..s };
    let e1 = AuditEventView::EvidenceUpdated { previous: opt_get(s.evidence, id), current: atom };
    let s2 = record_spec(s1, e1);
    let s3 = if already_expired(atom, s.now) {
        expire_spec(s2, id)
    } else {
        s2
    };
    lemma_reevaluate_reports_truly(s3);
    let t = update_spec(s, atom);
    assert(t == reevaluate_spec(s3));
    assert(t.audit[s.audit.len() as int] == s3.audit[s.audit.len() as int]);
    assert(s2.audit[s.audit.len() as int].event == e1);
    assert forall|i: int|
        s.audit.len() <= i < t.audit.len() && is_change_report(#[trigger] t.audit[i]) implies reports_change(
        t.audit[i],
        s.evaluation,
        t.evaluation,
    ) by {
        if i < s3.audit.len() {
            assert(t.audit[i] == s3.audit[i]);
            if i == s.audit.len() {
                assert(s3.audit[i] == s2.audit[i]);
            } else {
                assert(already_expired(atom, s.now));
                assert(i == s.audit.len() + 1);
            }
        }
    }
}

/// Stale versions are refused: an observation that would pass every earlier check
/// but whose version is not above the stored one for its identifier is rejected as a
/// non-increasing version.
pub proof fn lemma_stale_version_rejected(s: RuntimeView, atom: EvidenceAtom)
    requires
        s.graph.nodes.contains_key(atom.evidence_id@),
        s.graph.nodes[atom.evidence_id@] == NodeKind::Evidence,
        !is_blank(atom.evidence_type@),
        !is_blank(atom.predicate@),
        !is_blank(atom.source_id@),
        atom.observed_at@ <= s.now,
        atom.observed_at@ <= atom.expires_at@,
        s.evidence.contains_key(atom.evidence_id@),
        atom.version <= s.evidence[atom.evidence_id@].version,
    ensures
        update_fault(s, atom) == Some(RuntimeErrorView::NonIncreasingVersion(atom.evidence_id@)),
{
}

/// Every value or witness change that a deadline step logs is true from the
/// evaluation before the step to the one after its re-evaluation.
pub proof fn lemma_advance_step_reports_truly(s: RuntimeView, target: nat)
    requires
        s.evidence.dom().finite(),
        due_ids(s.evidence, target) != Set::<Seq<char>>::empty(),
    ensures
        forall|i: int|
            s.audit.len() <= i < advance_step(s, target).audit.len() && is_change_report(
                #[trigger] advance_step(s, target).audit[i],
            ) ==> reports_change(advance_step(s, target).audit[i], s.evaluation, advance_step(s, target).evaluation),
{
    reveal(advance_step);
    lemma_next_deadline(s.evidence, target);
    let d = next_deadline(s.evidence, target);
    let sd = RuntimeView { now: d, ..s };
    let q = sorted_ids(deadline_group(s.evidence, d));
    lemma_sorted_ids_exist(deadline_group(s.evidence, d));
    lemma_sorted_no_duplicates(q);
    assert forall|i: int| 0 <= i < q.len() implies sd.evidence.contains_key(#[trigger] q[i]) by {
        assert(q.to_set().contains(q[i]));
    }
    lemma_expire_all(sd, q);
    lemma_expire_all_kinds(sd, q);
    let e = expire_all(sd, q);
    lemma_reevaluate_reports_truly(e);
    let t = advance_step(s, target);
    assert forall|i: int|
        s.audit.len() <= i < t.audit.len() && is_change_report(#[trigger] t.audit[i]) implies reports_change(
        t.audit[i],
        s.evaluation,
        t.evaluation,
    ) by {
        if i < e.audit.len() {
            assert(t.audit[i] == e.audit[i]);
        }
    }
}

/// Expiring appends only expiry entries.
pub proof fn lemma_expire_all_kinds(s: RuntimeView, ids: Seq<Seq<char>>)
    ensures
        s.audit.len() <= expire_all(s, ids).audit.len(),
        expire_all(s, ids).audit.take(s.audit.len() as int) == s.audit,
        expire_all(s, ids).evaluation == s.evaluation,
        forall|i: int|
            s.audit.len() <= i < expire_all(s, ids).audit.len() ==> (#[trigger] expire_all(
                s,
                ids,
            ).audit[i]).event is EvidenceExpired,
    decreases ids.len(),
{
    if ids.len() > 0 {
        lemma_expire_all_kinds(s, ids.drop_last());
        let r = expire_all(s, ids.drop_last());
        let t = expire_all(s, ids);
        assert forall|i: int| s.audit.len() <= i < t.audit.len() implies (#[trigger] t.audit[i]).event is EvidenceExpired by {
            if i < r.audit.len() {
                assert(t.audit[i] == r.audit[i]);
            }
        }
        assert(t.audit.take(s.audit.len() as int) =~= r.audit.take(s.audit.len() as int));
    }
}

/// What an accepted observation does: the clock and graph stay, the observation is
/// stored under its identifier (UNKNOWN at once if it arrived VALID and already
/// expired), the epoch advances by one, or two for such an arrival, and the log
/// only grows.
pub proof fn lemma_update_shape(s: RuntimeView, atom: EvidenceAtom)
    ensures
        update_spec(s, atom).now == s.now,
        update_spec(s, atom).graph == s.graph,
        update_spec(s, atom).evidence == s.evidence.insert(
            atom.evidence_id@,
            if already_expired(atom, s.now) {
                expired_atom(atom)
            } else {
                atom
            },
        ),
        update_spec(s, atom).epoch == s.epoch + if already_expired(atom, s.now) {
            2int
        } else {
            1int
        },
        update_spec(s, atom).evaluation == evaluate(s.graph, update_spec(s, atom).evidence, s.now),
        s.audit.len() < update_spec(s, atom).audit.len(),
        update_spec(s, atom).audit.take(s.audit.len() as int) == s.audit,
{
    let t = update_spec(s, atom);
    assert(t.evidence =~= s.evidence.insert(
        atom.evidence_id@,
        if already_expired(atom, s.now) {
            expired_atom(atom)
        } else {
            atom
        },
    ));
    assert(t.audit.take(s.audit.len() as int) =~= s.audit);
}

/// An advance moves the clock to `target`, spends one epoch per due observation, and
/// keeps the graph and the set of stored observations.
pub proof fn lemma_advance_shape(s: RuntimeView, target: nat)
    requires
        s.evidence.dom().finite(),
    ensures
        advance_spec(s, target).now == target,
        advance_spec(s, target).graph == s.graph,
        advance_spec(s, target).epoch == s.epoch + due_ids(s.evidence, target).len(),
        advance_spec(s, target).evidence.dom() == s.evidence.dom(),
    decreases due_ids(s.evidence, target).len(),
{
    if due_ids(s.evidence, target) == Set::<Seq<char>>::empty() {
    } else {
        lemma_advance_step(s, target);
        lemma_advance_shape(advance_step(s, target), target);
    }
}

/// An advance expires exactly the observations due by its target, keeping each one's
/// identity, version and timestamps, after which nothing is due; every other
/// observation is left as it was.
pub proof fn lemma_advance_evidence(s: RuntimeView, target: nat)
    requires
        s.evidence.dom().finite(),
    ensures
        advance_spec(s, target).evidence == expired_evidence(s.evidence, due_ids(s.evidence, target)),
        due_ids(advance_spec(s, target).evidence, target) == Set::<Seq<char>>::empty(),
    decreases due_ids(s.evidence, target).len(),
{
    let ev = s.evidence;
    let due = due_ids(ev, target);
    if due == Set::<Seq<char>>::empty() {
        assert(expired_evidence(ev, due) =~= ev);
    } else {
        lemma_advance_step(s, target);
        let t = advance_step(s, target);
        let group = deadline_group(ev, next_deadline(ev, target));
        lemma_advance_evidence(t, target);
        assert(advance_spec(s, target).evidence =~= expired_evidence(ev, due));
    }
}

/// An advance only appends to the log.
pub proof fn lemma_advance_audit_prefix(s: RuntimeView, target: nat)
    requires
        s.evidence.dom().finite(),
    ensures
        s.audit.len() <= advance_spec(s, target).audit.len(),
        advance_spec(s, target).audit.take(s.audit.len() as int) == s.audit,
    decreases due_ids(s.evidence, target).len(),
{
    if due_ids(s.evidence, target) != Set::<Seq<char>>::empty() {
        lemma_advance_step(s, target);
        let t = advance_step(s, target);
        assert(s.audit.len() <= t.audit.len() && t.audit.take(s.audit.len() as int) == s.audit) by {
            reveal(advance_step);
            lemma_advance_step(s, target);
            let d = next_deadline(s.evidence, target);
            let sd = RuntimeView { now: d, ..s };
            let q = sorted_ids(deadline_group(s.evidence, d));
            lemma_sorted_ids_exist(deadline_group(s.evidence, d));
            lemma_sorted_no_duplicates(q);
            assert forall|i: int| 0 <= i < q.len() implies sd.evidence.contains_key(#[trigger] q[i]) by {
                assert(q.to_set().contains(q[i]));
            }
            lemma_expire_all(sd, q);
            let e = expire_all(sd, q);
            assert(reevaluate_spec(e).audit.take(s.audit.len() as int) =~= e.audit.take(
                s.audit.len() as int,
            ));
        }
        lemma_advance_audit_prefix(t, target);
        let f = advance_spec(s, target);
        assert(f.audit.take(s.audit.len() as int) =~= f.audit.take(t.audit.len() as int).take(
            s.audit.len() as int,
        ));
    }
}

/// Advancing keeps the invariant.
pub proof fn lemma_advance_wf(s: RuntimeView, target: nat)
    requires
        runtime_wf(s),
        s.now <= target,
    ensures
        runtime_wf(advance_spec(s, target)),
    decreases due_ids(s.evidence, target).len(),
{
    if due_ids(s.evidence, target) == Set::<Seq<char>>::empty() {
        lemma_quiet_until(s, target);
    } else {
        lemma_advance_step(s, target);
        lemma_advance_step_wf(s, target);
        lemma_advance_wf(advance_step(s, target), target);
    }
}

/// Advancing to `a` and then to `b` gives exactly the state reached by advancing to
/// `b` at once: a jump of the clock processes every deadline in between, in the same
/// order, as advancing step by step does. In particular, advancing again to the same
/// instant changes nothing.
pub proof fn lemma_advance_compose(s: RuntimeView, a: nat, b: nat)
    requires
        s.evidence.dom().finite(),
        a <= b,
    ensures
        advance_spec(advance_spec(s, a), b) == advance_spec(s, b),
    decreases due_ids(s.evidence, a).len(),
{
    if due_ids(s.evidence, a) == Set::<Seq<char>>::empty() {
        lemma_advance_ignores_now(s, a, b);
    } else {
        let ka = lemma_some_member(due_ids(s.evidence, a));
        assert(due_ids(s.evidence, b).contains(ka));
        lemma_next_deadline_stable(s.evidence, a, b);
        assert(advance_step(s, a) == advance_step(s, b)) by {
            reveal(advance_step);
        }
        lemma_advance_step(s, a);
        lemma_advance_compose(advance_step(s, a), a, b);
    }
}

/// The runtime never publishes stale support: in every consistent state a node has a
/// witness exactly when it is VALID, with the witness's horizon, that horizon is still
/// ahead of the clock, and every witness cites only stored observations that are
/// VALID now and last at least until its horizon.
pub proof fn lemma_runtime_support_is_current(s: RuntimeView)
    requires
        runtime_wf(s),
    ensures
        crate::evaluator::witnesses_match(s.evaluation, s.now),
        crate::evaluator::witnesses_sound(s.evaluation, s.evidence, s.now),
{
    crate::evaluator::lemma_evaluate_witnesses(s.graph, s.evidence, s.now);
    crate::evaluator::lemma_evaluate_witnesses_sound(s.graph, s.evidence, s.now);
}

/// Time alone changes the runtime's support only at horizons: in a consistent state,
/// evaluating at any later instant finds each VALID node with the same horizon and
/// witness before its horizon, UNKNOWN from it on, and every other value unchanged.
pub proof fn lemma_runtime_values_over_time(s: RuntimeView, t: nat)
    requires
        runtime_wf(s),
        s.now <= t,
    ensures
        forall|x: Seq<char>|
            #[trigger] s.evaluation.by_node.contains_key(x) ==> crate::evaluator::later_at(
                s.evaluation,
                evaluate(s.graph, s.evidence, t),
                x,
                t,
            ),
{
    assert forall|x: Seq<char>| #[trigger] s.evidence.contains_key(x) implies s.evidence[x].observed_at@
        <= s.now by {
        assert(stored_ok(s, x));
    }
    crate::evaluator::lemma_values_over_time(s.graph, s.evidence, s.now, t);
}

/// An observation that arrives VALID but already past its deadline never shows as
/// support: it is stored UNKNOWN and its evidence node evaluates to UNKNOWN.
pub proof fn lemma_late_arrival_is_unknown(s: RuntimeView, atom: EvidenceAtom)
    requires
        runtime_wf(s),
        update_fault(s, atom) is None,
        already_expired(atom, s.now),
    ensures
        update_spec(s, atom).evidence[atom.evidence_id@].status == AssuranceStatus::Unknown,
        update_spec(s, atom).evaluation.by_node[atom.evidence_id@] == AssuranceValue::Unknown,
{
    lemma_update_shape(s, atom);
    crate::evaluator::lemma_evidence_node_value(
        s.graph,
        update_spec(s, atom).evidence,
        s.now,
        atom.evidence_id@,
    );
}

// The executable runtime.

/// The number of observations due by `target`.
fn count_due(ev: &IdMap<EvidenceAtom>, target: Duration) -> (n: usize)
    ensures
        n == due_ids(ev@, target@).len(),
{
    proof {
        use_type_invariant(ev);
        ev.lemma_view();
    }
    let ghost ks = ev.key_seq();
    let ghost due = due_ids(ev@, target@);
    let len = ev.len();
    let mut n: usize = 0;
    let mut i: usize = 0;
    proof {
        assert(due.intersect(ks.take(0).to_set()) =~= Set::<Seq<char>>::empty());
    }
    while i < len
        invariant
            len == ks.len(),
            i <= len,
            ks == ev.key_seq(),
            due == due_ids(ev@, target@),
            ks.no_duplicates(),
            ev@.dom() == ks.to_set(),
            ev@.dom().finite(),
            forall|j: int| 0 <= j < ks.len() ==> #[trigger] ev@[ks[j]] == ev.value_seq()[j],
            n <= i,
            due.intersect(ks.take(i as int).to_set()).finite(),
            n == due.intersect(ks.take(i as int).to_set()).len(),
        decreases len - i,
    {
        let a = ev.value_at(i);
        let ghost k = ks[i as int];
        let ghost before = due.intersect(ks.take(i as int).to_set());
        let ghost after = due.intersect(ks.take(i + 1).to_set());
        proof {
            assert(ks.take(i + 1) =~= ks.take(i as int).push(k));
            ks.take(i as int).lemma_push_to_set_commute(k);
            assert(ks.to_set().contains(k));
            assert(!before.contains(k)) by {
                if ks.take(i as int).contains(k) {
                    let j = choose|j: int| 0 <= j < i && #[trigger] ks.take(i as int)[j] == k;
                    assert(ks[j] == ks[i as int]);
                }
            }
        }
        if a.status == AssuranceStatus::Valid && a.expires_at.le(&target) {
            proof {
                assert(after =~= before.insert(k));
            }
            n = n + 1;
        } else {
            proof {
                assert(after =~= before);
            }
        }
        i = i + 1;
    }
    proof {
        assert(ks.take(len as int) =~= ks);
        assert(due.intersect(ks.to_set()) =~= due);
    }
    n
}

/// The earliest deadline among the observations due by `target`, if any is due.
fn earliest_due(ev: &IdMap<EvidenceAtom>, target: Duration) -> (r: Option<Duration>)
    ensures
        match r {
            Some(d) => due_ids(ev@, target@) != Set::<Seq<char>>::empty() && d@ == next_deadline(
                ev@,
                target@,
            ),
            None => due_ids(ev@, target@) == Set::<Seq<char>>::empty(),
        },
{
    proof {
        use_type_invariant(ev);
        ev.lemma_view();
    }
    let ghost ks = ev.key_seq();
    let ghost due = due_ids(ev@, target@);
    let len = ev.len();
    let mut best: Option<Duration> = None;
    for i in 0..len
        invariant
            len == ks.len(),
            ks == ev.key_seq(),
            due == due_ids(ev@, target@),
            ev@.dom() == ks.to_set(),
            forall|j: int| 0 <= j < ks.len() ==> #[trigger] ev@[ks[j]] == ev.value_seq()[j],
            match best {
                Some(b) => {
                    &&& exists|j: int| 0 <= j < i && due.contains(#[trigger] ks[j]) && ev@[ks[j]].expires_at@ == b@
                    &&& forall|j: int| 0 <= j < i && due.contains(#[trigger] ks[j]) ==> b@ <= ev@[ks[j]].expires_at@
                },
                None => forall|j: int| 0 <= j < i ==> !due.contains(#[trigger] ks[j]),
            },
    {
        let a = ev.value_at(i);
        let ghost k = ks[i as int];
        proof {
            assert(ks.to_set().contains(k));
        }
        if a.status == AssuranceStatus::Valid && a.expires_at.le(&target) {
            let better = match best {
                Some(b) => a.expires_at.lt(&b),
                None => true,
            };
            if better {
                best = Some(a.expires_at);
            }
        }
    }
    match best {
        Some(b) => {
            proof {
                assert forall|k: Seq<char>| #[trigger] due.contains(k) implies b@ <= ev@[k].expires_at@ by {
                    assert(ks.to_set().contains(k));
                    let j = choose|j: int| 0 <= j < ks.len() && ks[j] == k;
                }
                let j = choose|j: int| 0 <= j < len && due.contains(#[trigger] ks[j]) && ev@[ks[j]].expires_at@ == b@;
                assert(due.contains(ks[j]));
                assert(is_next_deadline(ev@, target@, b@));
                lemma_next_deadline_unique(ev@, target@, b@);
            }
            Some(b)
        },
        None => {
            proof {
                assert forall|k: Seq<char>| !due.contains(k) by {
                    if due.contains(k) {
                        assert(ks.to_set().contains(k));
                        let j = choose|j: int| 0 <= j < ks.len() && ks[j] == k;
                    }
                }
                assert(due =~= Set::<Seq<char>>::empty());
            }
            None
        },
    }
}

/// The identifiers of the VALID observations whose deadline is exactly `d`, in
/// increasing order.
fn deadline_ids(ev: &IdMap<EvidenceAtom>, d: Duration) -> (ids: Vec<String>)
    ensures
        ids_of(ids@) == sorted_ids(deadline_group(ev@, d@)),
{
    proof {
        use_type_invariant(ev);
        ev.lemma_view();
        crate::ids::lemma_id_order();
    }
    let ghost ks = ev.key_seq();
    let ghost group = deadline_group(ev@, d@);
    let len = ev.len();
    let mut ids: Vec<String> = Vec::new();
    proof {
        assert(ids_of(ids@).to_set() =~= group.intersect(ks.take(0).to_set()));
    }
    for i in 0..len
        invariant
            len == ks.len(),
            ks == ev.key_seq(),
            group == deadline_group(ev@, d@),
            strictly_sorted(ks),
            ev@.dom() == ks.to_set(),
            forall|j: int| 0 <= j < ks.len() ==> #[trigger] ev@[ks[j]] == ev.value_seq()[j],
            strictly_sorted(ids_of(ids@)),
            ids_of(ids@).to_set() == group.intersect(ks.take(i as int).to_set()),
            forall|a: int| 0 <= a < ids@.len() ==> ks.take(i as int).contains(#[trigger] ids_of(ids@)[a]),
    {
        let a = ev.value_at(i);
        let ghost k = ks[i as int];
        let ghost before = ids_of(ids@);
        proof {
            assert(ks.take(i + 1) =~= ks.take(i as int).push(k));
            ks.take(i as int).lemma_push_to_set_commute(k);
            assert(ks.to_set().contains(k));
        }
        if a.status == AssuranceStatus::Valid && a.expires_at.same(&d) {
            ids.push(copy_id(ev.key_at(i)));
            proof {
                let after = ids_of(ids@);
                assert(after =~= before.push(k));
                before.lemma_push_to_set_commute(k);
                assert forall|x: int, y: int| 0 <= x < y < after.len() implies crate::ids::id_lt(
                    #[trigger] after[x],
                    #[trigger] after[y],
                ) by {
                    if y == after.len() - 1 {
                        assert(ks.take(i as int).contains(before[x]));
                        let j = choose|j: int| 0 <= j < i && #[trigger] ks.take(i as int)[j] == before[x];
                        assert(ks[j] == before[x]);
                    }
                }
                assert(after.to_set() =~= group.intersect(ks.take(i + 1).to_set()));
            }
        } else {
            proof {
                assert(ids_of(ids@).to_set() =~= group.intersect(ks.take(i + 1).to_set()));
            }
        }
        proof {
            assert forall|x: int| 0 <= x < ids@.len() implies ks.take(i + 1).contains(
                #[trigger] ids_of(ids@)[x],
            ) by {
                if x < before.len() {
                    assert(ids_of(ids@)[x] == before[x]);
                    assert(ks.take(i as int).contains(before[x]));
                    let j = choose|j: int| 0 <= j < i && #[trigger] ks.take(i as int)[j] == before[x];
                    assert(ks.take(i + 1)[j] == before[x]);
                } else {
                    assert(ks.take(i + 1)[i as int] == ids_of(ids@)[x]);
                }
            }
        }
    }
    proof {
        assert(ks.take(len as int) =~= ks);
        assert(group.subset_of(ev@.dom()));
        assert(group.intersect(ks.to_set()) =~= group);
        lemma_sorted_ids(ids_of(ids@));
    }
    ids
}

/// A copy of the witness stored for `id`, if any.
fn witness_of(m: &IdMap<Witness>, id: &str) -> (r: Option<Witness>)
    ensures
        owned_witness_view(r) == opt_get(crate::evaluator::witness_map_view(m@), id@),
{
    match m.get(id) {
        Some(w) => Some(w.clone()),
        None => None,
    }
}

/// Whether two optional witnesses are the same.
fn same_owned_witness(a: &Option<Witness>, b: &Option<Witness>) -> (r: bool)
    ensures
        r == (owned_witness_view(*a) == owned_witness_view(*b)),
{
    match (a, b) {
        (Some(x), Some(y)) => same_witness(x, y),
        (None, None) => true,
        _ => false,
    }
}

/// A deterministic single-threaded runtime: a graph, a controlled clock, the latest
/// observation of each evidence node, the current evaluation and the audit log.
#[derive(Debug)]
pub struct AssuranceRuntime {
    graph: AssuranceGraph,
    clock: ControlledClock,
    evidence: IdMap<EvidenceAtom>,
    epoch: u64,
    evaluation: Evaluation,
    audit: Vec<AuditEntry>,
}

impl View for AssuranceRuntime {
    type V = RuntimeView;

    closed spec fn view(&self) -> RuntimeView {
        RuntimeView {
            graph: self.graph@,
            now: self.clock@,
            evidence: self.evidence@,
            epoch: self.epoch as nat,
            evaluation: self.evaluation@,
            audit: audit_view(self.audit@),
        }
    }
}

impl AssuranceRuntime {
    /// The runtime's invariant holds.
    pub open spec fn wf(&self) -> bool {
        runtime_wf(self@)
    }

    /// Starts at time and epoch zero with no observations, an empty log, and the
    /// graph fully evaluated.
    pub fn new(graph: AssuranceGraph) -> (r: Self)
        ensures
            r.wf(),
            r@.graph == graph@,
            r@.now == 0,
            r@.epoch == 0,
            r@.evidence == Map::<Seq<char>, EvidenceAtom>::empty(),
            r@.evaluation == evaluate(graph@, Map::<Seq<char>, EvidenceAtom>::empty(), 0),
            r@.audit == Seq::<AuditEntryView>::empty(),
    {
        proof {
            use_type_invariant(&graph);
        }
        let evidence: IdMap<EvidenceAtom> = IdMap::new();
        let evaluation = evaluate_full(&graph, &evidence, Duration::zero());
        let r = AssuranceRuntime {
            graph,
            clock: ControlledClock::default(),
            evidence,
            epoch: 0,
            evaluation,
            audit: Vec::new(),
        };
        proof {
            assert(r@.audit =~= Seq::<AuditEntryView>::empty());
        }
        r
    }

    /// The current simulation time.
    pub fn now(&self) -> (t: Duration)
        ensures
            t@ == self@.now,
    {
        self.clock.now()
    }

    /// How many observations and expiries have been processed.
    pub fn epoch(&self) -> (e: u64)
        ensures
            e == self@.epoch,
    {
        self.epoch
    }

    /// The graph being evaluated.
    pub fn graph(&self) -> (g: &AssuranceGraph)
        ensures
            g@ == self@.graph,
    {
        &self.graph
    }

    /// The latest observation of each evidence node that has one.
    pub fn evidence(&self) -> (m: &IdMap<EvidenceAtom>)
        ensures
            m@ == self@.evidence,
    {
        &self.evidence
    }

    /// The current full evaluation.
    pub fn evaluation(&self) -> (e: &Evaluation)
        ensures
            e@ == self@.evaluation,
    {
        &self.evaluation
    }

    /// The audit log, oldest entry first.
    pub fn audit(&self) -> (a: &[AuditEntry])
        ensures
            audit_view(a@) == self@.audit,
    {
        self.audit.as_slice()
    }

    /// Appends an entry stamped with the current time and epoch.
    fn record(&mut self, event: AuditEvent)
        ensures
            final(self)@ == record_spec(old(self)@, event@),
    {
        let ghost before = self@;
        let entry = AuditEntry { at: self.clock.now(), epoch: self.epoch, event };
        self.audit.push(entry);
        proof {
            assert(self@.audit =~= before.audit.push(entry@));
        }
    }

    /// Turns the stored observation of `id` UNKNOWN under a new epoch, keeping its
    /// version, and records the expiry.
    fn expire(&mut self, id: &String)
        requires
            old(self)@.evidence.contains_key(id@),
            old(self)@.epoch < u64::MAX,
        ensures
            final(self)@ == expire_spec(old(self)@, id@),
    {
        let expired = match self.evidence.get(id.as_str()) {
            Some(atom) => {
                let mut a = atom.clone();
                a.status = AssuranceStatus::Unknown;
                a
            },
            None => {
                return ;
            },
        };
        self.epoch = self.epoch + 1;
        let version = expired.version;
        self.evidence.insert(copy_id(id), expired);
        self.record(AuditEvent::EvidenceExpired { evidence_id: copy_id(id), version });
    }

    /// Records what changed for node `id` between the current evaluation and `next`.
    fn record_node_changes(&mut self, id: &String, next: &Evaluation)
        requires
            old(self)@.evaluation.by_node.contains_key(id@),
            next@.by_node.contains_key(id@),
        ensures
            final(self)@ == (RuntimeView {
                audit: old(self)@.audit + node_changes(
                    id@,
                    old(self)@.evaluation,
                    next@,
                    old(self)@.now,
                    old(self)@.epoch,
                ),
                ..old(self)@
            }),
    {
        let ghost s0 = self@;
        let current = match next.assurance_by_node.get(id.as_str()) {
            Some(v) => *v,
            None => {
                return ;
            },
        };
        let previous = match self.evaluation.assurance_by_node.get(id.as_str()) {
            Some(v) => *v,
            None => {
                return ;
            },
        };
        if previous != current {
            self.record(
                AuditEvent::AssuranceChanged { node_id: copy_id(id), previous, current },
            );
        }
        let ghost s1 = self@;
        let previous_witness = witness_of(&self.evaluation.preferred_witness_by_node, id.as_str());
        let current_witness = witness_of(&next.preferred_witness_by_node, id.as_str());
        if !same_owned_witness(&previous_witness, &current_witness) {
            self.record(
                AuditEvent::WitnessChanged {
                    node_id: copy_id(id),
                    previous: previous_witness,
                    current: current_witness,
                },
            );
        }
        proof {
            let ch = node_changes(id@, s0.evaluation, next@, s0.now, s0.epoch);
            assert(self@.audit =~= s0.audit + ch);
        }
    }

    /// Evaluates the graph afresh and records every change of value or witness, in
    /// node identifier order.
    fn reevaluate(&mut self)
        requires
            crate::graph::graph_wf(old(self)@.graph),
            old(self)@.evaluation.by_node.dom() == old(self)@.graph.nodes.dom(),
        ensures
            final(self)@ == reevaluate_spec(old(self)@),
    {
        let ghost s0 = self@;
        let next = evaluate_full(&self.graph, &self.evidence, self.clock.now());
        let ghost nv = next@;
        proof {
            lemma_evaluate_dom(s0.graph, s0.evidence, s0.now);
            use_type_invariant(&next.assurance_by_node);
            next.assurance_by_node.lemma_view();
            lemma_sorted_ids(next.assurance_by_node.key_seq());
        }
        let ghost ks = next.assurance_by_node.key_seq();
        let n = next.assurance_by_node.len();
        for i in 0..n
            invariant
                n == ks.len(),
                ks == next.assurance_by_node.key_seq(),
                ks == sorted_ids(s0.graph.nodes.dom()),
                ks.to_set() == s0.graph.nodes.dom(),
                nv == next@,
                nv.by_node.dom() == s0.graph.nodes.dom(),
                s0.evaluation.by_node.dom() == s0.graph.nodes.dom(),
                self@ == (RuntimeView {
                    audit: s0.audit + change_events(ks.take(i as int), s0.evaluation, nv, s0.now, s0.epoch),
                    ..s0
                }),
        {
            let id = next.assurance_by_node.key_at(i);
            let ghost before = self@;
            proof {
                assert(ks.to_set().contains(ks[i as int]));
            }
            self.record_node_changes(id, &next);
            proof {
                let t = ks.take(i + 1);
                assert(t.drop_last() =~= ks.take(i as int));
                assert(self@.audit =~= s0.audit + change_events(t, s0.evaluation, nv, s0.now, s0.epoch));
            }
        }
        self.evaluation = next;
        proof {
            assert(ks.take(n as int) =~= ks);
        }
    }
    /// Accepts one observation, or rejects it and changes nothing.
    ///
    /// The checks, in order: the identifier names an evidence node; type, predicate
    /// and source are not blank; the observation is not from the future and does not
    /// expire before it was made; its version is above the stored one; its source,
    /// predicate and type are those stored; the epochs it needs fit. An accepted
    /// observation takes one epoch and an `EvidenceUpdated` entry; a VALID one whose
    /// deadline has already passed is expired at once under a second epoch; then the
    /// graph is evaluated afresh.
    pub fn update(&mut self, atom: EvidenceAtom) -> (r: Result<(), RuntimeError>)
        requires
            old(self).wf(),
        ensures
            final(self).wf(),
            match r {
                Ok(()) => update_fault(old(self)@, atom) is None && final(self)@ == update_spec(
                    old(self)@,
                    atom,
                ),
                Err(e) => update_fault(old(self)@, atom) == Some(e@) && *final(self) == *old(self),
            },
    {
        let ghost s0 = self@;
        let now = self.clock.now();
        let is_evidence = match self.graph.nodes().get(atom.evidence_id.as_str()) {
            Some(kind) => *kind == NodeKind::Evidence,
            None => false,
        };
        if !is_evidence {
            return Err(RuntimeError::NotEvidenceNode(atom.evidence_id));
        }
        if str_is_blank(atom.evidence_type.as_str()) || str_is_blank(atom.predicate.as_str())
            || str_is_blank(atom.source_id.as_str()) {
            return Err(RuntimeError::EmptyMetadata);
        }
        if now.lt(&atom.observed_at) || atom.expires_at.lt(&atom.observed_at) {
            return Err(RuntimeError::InvalidObservationTime);
        }
        match self.evidence.get(atom.evidence_id.as_str()) {
            Some(previous) => {
                if atom.version <= previous.version {
                    return Err(RuntimeError::NonIncreasingVersion(atom.evidence_id));
                }
                if !id_eq_str(atom.source_id.as_str(), previous.source_id.as_str()) || !id_eq_str(
                    atom.predicate.as_str(),
                    previous.predicate.as_str(),
                ) || !id_eq_str(atom.evidence_type.as_str(), previous.evidence_type.as_str()) {
                    return Err(RuntimeError::ChangedIdentity(atom.evidence_id));
                }
            },
            None => {},
        }
        let already_expired = atom.status == AssuranceStatus::Valid && atom.expires_at.le(&now);
        let needed: u64 = if already_expired {
            2
        } else {
            1
        };
        if self.epoch > u64::MAX - needed {
            return Err(RuntimeError::EpochOverflow);
        }
        proof {
            assert(update_fault(s0, atom) is None);
            lemma_update_wf(s0, atom);
            lemma_evaluate_dom(s0.graph, s0.evidence, s0.now);
        }
        self.epoch = self.epoch + 1;
        let id = copy_id(&atom.evidence_id);
        let previous = self.evidence.insert(copy_id(&atom.evidence_id), atom.clone());
        self.record(AuditEvent::EvidenceUpdated { previous, current: atom });
        if already_expired {
            self.expire(&id);
        }
        self.reevaluate();
        Ok(())
    }

    /// Advances the clock to `target`, or rejects the request and changes nothing.
    ///
    /// Due observations are expired at their own deadlines, in chronological order
    /// and, at a shared deadline, in identifier order, each under its own epoch; the
    /// graph is evaluated once per deadline, after all of its expiries. The clock then
    /// stands at `target`.
    #[verifier::rlimit(90)]
    pub fn advance_to(&mut self, target: Duration) -> (r: Result<(), RuntimeError>)
        requires
            old(self).wf(),
        ensures
            final(self).wf(),
            match r {
                Ok(()) => advance_fault(old(self)@, target@) is None && final(self)@
                    == advance_spec(old(self)@, target@),
                Err(e) => advance_fault(old(self)@, target@) == Some(e@) && *final(self) == *old(
                    self,
                ),
            },
    {
        let ghost s0 = self@;
        let now = self.clock.now();
        if target.lt(&now) {
            return Err(RuntimeError::TimeWentBackwards);
        }
        let due = count_due(&self.evidence, target);
        if due as u64 > u64::MAX - self.epoch {
            return Err(RuntimeError::EpochOverflow);
        }
        loop
            invariant
                self.wf(),
                self@.now <= target@,
                target@ <= MAX_NANOS,
                self@.epoch + due_ids(self@.evidence, target@).len() <= u64::MAX,
                advance_spec(self@, target@) == advance_spec(s0, target@),
            ensures
                self.wf(),
                self@.now <= target@,
                target@ <= MAX_NANOS,
                due_ids(self@.evidence, target@) == Set::<Seq<char>>::empty(),
                advance_spec(self@, target@) == advance_spec(s0, target@),
            decreases due_ids(self@.evidence, target@).len(),
        {
            let d = match earliest_due(&self.evidence, target) {
                Some(d) => d,
                None => break,
            };
            let ghost s1 = self@;
            proof {
                lemma_advance_step(s1, target@);
                lemma_advance_step_wf(s1, target@);
                lemma_sorted_ids_exist(deadline_group(s1.evidence, d@));
                lemma_sorted_no_duplicates(sorted_ids(deadline_group(s1.evidence, d@)));
                sorted_ids(deadline_group(s1.evidence, d@)).unique_seq_to_set();
            }
            let ids = deadline_ids(&self.evidence, d);
            let ghost q = ids_of(ids@);
            let now = self.clock.now();
            self.clock.advance(d.saturating_sub(now));
            let ghost sd = RuntimeView { now: d@, ..s1 };
            proof {
                assert(self@ == expire_all(sd, q.take(0)));
            }
            let n = ids.len();
            for j in 0..n
                invariant
                    n == q.len(),
                    q == ids_of(ids@),
                    q.no_duplicates(),
                    q.to_set() == deadline_group(s1.evidence, d@),
                    deadline_group(s1.evidence, d@).subset_of(s1.evidence.dom()),
                    sd == (RuntimeView { now: d@, ..s1 }),
                    s1.epoch + q.len() <= u64::MAX,
                    self@ == expire_all(sd, q.take(j as int)),
            {
                proof {
                    let p = q.take(j as int);
                    assert(p.no_duplicates());
                    assert forall|x: int| 0 <= x < p.len() implies sd.evidence.contains_key(#[trigger] p[x]) by {
                        assert(p[x] == q[x]);
                        assert(q.to_set().contains(q[x]));
                    }
                    lemma_expire_all(sd, p);
                    assert(q.to_set().contains(q[j as int]));
                    assert(expired_evidence(sd.evidence, p.to_set()).dom() =~= sd.evidence.dom());
                }
                self.expire(&ids[j]);
                proof {
                    assert(q.take(j + 1).drop_last() =~= q.take(j as int));
                }
            }
            proof {
                assert(q.take(n as int) =~= q);
                lemma_expire_all(sd, q);
                lemma_evaluate_dom(s1.graph, s1.evidence, s1.now);
            }
            self.reevaluate();
            proof {
                reveal(advance_step);
                assert(self@ == advance_step(s1, target@));
            }
        }
        let ghost s2 = self@;
        let now = self.clock.now();
        self.clock.advance(target.saturating_sub(now));
        proof {
            lemma_quiet_until(s2, target@);
            assert(self@ == advance_spec(s2, target@));
            lemma_advance_shape(s0, target@);
        }
        Ok(())
    }

    /// Advances the clock by `elapsed`, or rejects the request and changes nothing.
    pub fn advance(&mut self, elapsed: Duration) -> (r: Result<(), RuntimeError>)
        requires
            old(self).wf(),
        ensures
            final(self).wf(),
            match r {
                Ok(()) => advance_by_fault(old(self)@, elapsed@) is None && final(self)@
                    == advance_spec(old(self)@, old(self)@.now + elapsed@),
                Err(e) => advance_by_fault(old(self)@, elapsed@) == Some(e@) && *final(self)
                    == *old(self),
            },
    {
        let target = match self.clock.now().checked_add(elapsed) {
            Some(t) => t,
            None => {
                return Err(RuntimeError::TimeOverflow);
            },
        };
        self.advance_to(target)
    }
}

} // verus!

//! Action contracts, decisions, and full recomputation.
use vstd::prelude::*;

use crate::clock::Duration;
use crate::evidence::{record_status, AssuranceStatus, EvidenceRecord};
use crate::ids::{copy_id, ids_of, IdMap};

verus! {

/// A simple AND rule: every listed evidence item must currently be VALID.
#[derive(Debug)]
pub struct ActionContract {
    pub action_id: String,
    pub required_evidence: Vec<String>,
}

/// Why an action is blocked.
#[derive(Debug, PartialEq, Eq)]
pub enum BlockReason {
    /// Empty contracts are rejected to prevent accidental unconditional permission.
    NoRequirements,
    MissingEvidence(String),
    UnknownEvidence(String),
    InvalidEvidence(String),
}

/// Whether an action may run now, and if not, every reason why not.
#[derive(Debug, PartialEq, Eq)]
pub enum Permission {
    Allowed,
    Blocked(Vec<BlockReason>),
}

/// The decision for one action contract.
#[derive(Debug, PartialEq, Eq)]
pub struct ActionDecision {
    pub action_id: String,
    pub permission: Permission,
}

/// A block reason with identifiers as character sequences.
pub enum ReasonView {
    NoRequirements,
    MissingEvidence(Seq<char>),
    UnknownEvidence(Seq<char>),
    InvalidEvidence(Seq<char>),
}

/// A permission with its reasons as views.
pub enum PermissionView {
    Allowed,
    Blocked(Seq<ReasonView>),
}

/// A decision with identifiers as character sequences.
pub struct DecisionView {
    pub action_id: Seq<char>,
    pub permission: PermissionView,
}

impl View for BlockReason {
    type V = ReasonView;

    open spec fn view(&self) -> ReasonView {
        match self {
            BlockReason::NoRequirements => ReasonView::NoRequirements,
            BlockReason::MissingEvidence(id) => ReasonView::MissingEvidence(id@),
            BlockReason::UnknownEvidence(id) => ReasonView::UnknownEvidence(id@),
            BlockReason::InvalidEvidence(id) => ReasonView::InvalidEvidence(id@),
        }
    }
}

impl View for Permission {
    type V = PermissionView;

    open spec fn view(&self) -> PermissionView {
        match self {
            Permission::Allowed => PermissionView::Allowed,
            Permission::Blocked(reasons) => PermissionView::Blocked(
                reasons@.map_values(|r: BlockReason| r@),
            ),
        }
    }
}

impl View for ActionDecision {
    type V = DecisionView;

    open spec fn view(&self) -> DecisionView {
        DecisionView { action_id: self.action_id@, permission: self.permission@ }
    }
}

/// Why one required item blocks its action at `now`, if it does.
pub open spec fn requirement_reason(
    evidence: Map<Seq<char>, EvidenceRecord>,
    id: Seq<char>,
    now: nat,
) -> Option<ReasonView> {
    if !evidence.contains_key(id) {
        Some(ReasonView::MissingEvidence(id))
    } else {
        match record_status(evidence[id], now) {
            AssuranceStatus::Valid => None,
            AssuranceStatus::Unknown => Some(ReasonView::UnknownEvidence(id)),
            AssuranceStatus::Invalid => Some(ReasonView::InvalidEvidence(id)),
        }
    }
}

/// The reasons of the requirements, in requirement order.
pub open spec fn requirement_reasons(
    required: Seq<Seq<char>>,
    evidence: Map<Seq<char>, EvidenceRecord>,
    now: nat,
) -> Seq<ReasonView>
    decreases required.len(),
{
    if required.len() == 0 {
        Seq::empty()
    } else {
        let earlier = requirement_reasons(required.drop_last(), evidence, now);
        match requirement_reason(evidence, required.last(), now) {
            Some(r) => earlier.push(r),
            None => earlier,
        }
    }
}

/// All reasons that block a contract: an empty contract is blocked for having no
/// requirements; otherwise each requirement that is missing or not VALID blocks it.
pub open spec fn block_reasons(
    required: Seq<Seq<char>>,
    evidence: Map<Seq<char>, EvidenceRecord>,
    now: nat,
) -> Seq<ReasonView> {
    if required.len() == 0 {
        seq![ReasonView::NoRequirements]
    } else {
        requirement_reasons(required, evidence, now)
    }
}

/// The decision for one contract at `now`.
pub open spec fn decide(
    contract: ActionContract,
    evidence: Map<Seq<char>, EvidenceRecord>,
    now: nat,
) -> DecisionView {
    let reasons = block_reasons(ids_of(contract.required_evidence@), evidence, now);
    DecisionView {
        action_id: contract.action_id@,
        permission: if reasons.len() == 0 {
            PermissionView::Allowed
        } else {
            PermissionView::Blocked(reasons)
        },
    }
}

fn requirement_block(evidence: &IdMap<EvidenceRecord>, id: &String, now: Duration) -> (r: Option<
    BlockReason,
>)
    ensures
        match r {
            Some(b) => requirement_reason(evidence@, id@, now@) == Some(b@),
            None => requirement_reason(evidence@, id@, now@) is None,
        },
{
    match evidence.get(id.as_str()) {
        None => Some(BlockReason::MissingEvidence(copy_id(id))),
        Some(record) => match record.status_at(now) {
            AssuranceStatus::Valid => None,
            AssuranceStatus::Unknown => Some(BlockReason::UnknownEvidence(copy_id(id))),
            AssuranceStatus::Invalid => Some(BlockReason::InvalidEvidence(copy_id(id))),
        },
    }
}

fn decide_one(contract: &ActionContract, evidence: &IdMap<EvidenceRecord>, now: Duration) -> (d:
    ActionDecision)
    ensures
        d@ == decide(*contract, evidence@, now@),
{
    let ghost required = ids_of(contract.required_evidence@);
    let mut reasons: Vec<BlockReason> = Vec::new();
    if contract.required_evidence.len() == 0 {
        reasons.push(BlockReason::NoRequirements);
    }
    let n = contract.required_evidence.len();
    for i in 0..n
        invariant
            n == contract.required_evidence@.len(),
            required == ids_of(contract.required_evidence@),
            n > 0 ==> reasons@.map_values(|r: BlockReason| r@) == requirement_reasons(
                required.take(i as int),
                evidence@,
                now@,
            ),
            n == 0 ==> reasons@.map_values(|r: BlockReason| r@) == seq![ReasonView::NoRequirements],
    {
        let ghost before = reasons@;
        match requirement_block(evidence, &contract.required_evidence[i], now) {
            Some(b) => reasons.push(b),
            None => {},
        }
        proof {
            assert(required.take(i + 1).drop_last() =~= required.take(i as int));
            assert(required.take(i + 1).last() == required[i as int]);
            assert(reasons@.map_values(|r: BlockReason| r@) =~= requirement_reasons(
                required.take(i + 1),
                evidence@,
                now@,
            ));
        }
    }
    proof {
        assert(required.take(n as int) =~= required);
        if n == 0 {
            assert(reasons@.map_values(|r: BlockReason| r@) =~= seq![ReasonView::NoRequirements]);
        }
    }
    let permission = if reasons.len() == 0 {
        Permission::Allowed
    } else {
        Permission::Blocked(reasons)
    };
    ActionDecision { action_id: copy_id(&contract.action_id), permission }
}

/// Recomputes every contract from scratch at one snapshot of virtual time.
///
/// Results retain input contract order; reasons retain requirement order.
/// There is no cached permission, dispatch, or background expiry processing.
pub fn evaluate_all(
    contracts: &[ActionContract],
    evidence: &IdMap<EvidenceRecord>,
    now: Duration,
) -> (decisions: Vec<ActionDecision>)
    ensures
        decisions@.len() == contracts@.len(),
        forall|i: int|
            0 <= i < contracts@.len() ==> #[trigger] decisions@[i]@ == decide(
                contracts@[i],
                evidence@,
                now@,
            ),
{
    let mut decisions: Vec<ActionDecision> = Vec::new();
    for i in 0..contracts.len()
        invariant
            decisions@.len() == i,
            forall|j: int|
                0 <= j < i ==> #[trigger] decisions@[j]@ == decide(contracts@[j], evidence@, now@),
    {
        decisions.push(decide_one(&contracts[i], evidence, now));
    }
    decisions
}

proof fn lemma_requirement_reasons_empty(
    required: Seq<Seq<char>>,
    evidence: Map<Seq<char>, EvidenceRecord>,
    now: nat,
)
    ensures
        requirement_reasons(required, evidence, now).len() == 0 <==> forall|i: int|
            0 <= i < required.len() ==> (#[trigger] requirement_reason(evidence, required[i], now)) is None,
    decreases required.len(),
{
    if required.len() > 0 {
        let rest = required.drop_last();
        lemma_requirement_reasons_empty(rest, evidence, now);
        assert forall|i: int| 0 <= i < rest.len() implies rest[i] == required[i] by {}
        if requirement_reasons(required, evidence, now).len() == 0 {
            assert forall|i: int| 0 <= i < required.len() implies (#[trigger] requirement_reason(
                evidence,
                required[i],
                now,
            )) is None by {
                if i < rest.len() {
                    assert(rest[i] == required[i]);
                }
            }
        } else {
            if requirement_reasons(rest, evidence, now).len() != 0 {
                let j = choose|j: int|
                    0 <= j < rest.len() && !((#[trigger] requirement_reason(evidence, rest[j], now)) is None);
                assert(rest[j] == required[j]);
            }
        }
    }
}

/// An action is allowed exactly when its contract lists at least one requirement
/// and every listed evidence item is present and currently VALID.
pub proof fn lemma_allowed_iff_all_required_valid(
    contract: ActionContract,
    evidence: Map<Seq<char>, EvidenceRecord>,
    now: nat,
)
    ensures
        decide(contract, evidence, now).permission is Allowed <==> {
            &&& contract.required_evidence@.len() > 0
            &&& forall|i: int|
                0 <= i < contract.required_evidence@.len() ==> {
                    let id = #[trigger] contract.required_evidence@[i]@;
                    &&& evidence.contains_key(id)
                    &&& record_status(evidence[id], now) == AssuranceStatus::Valid
                }
        },
{
    let required = ids_of(contract.required_evidence@);
    lemma_requirement_reasons_empty(required, evidence, now);
    assert forall|i: int| 0 <= i < required.len() implies ((#[trigger] requirement_reason(
        evidence,
        required[i],
        now,
    )) is None <==> {
        let id = contract.required_evidence@[i]@;
        &&& evidence.contains_key(id)
        &&& record_status(evidence[id], now) == AssuranceStatus::Valid
    }) by {
        assert(required[i] == contract.required_evidence@[i]@);
    }
    if decide(contract, evidence, now).permission is Allowed {
        assert forall|i: int| 0 <= i < contract.required_evidence@.len() implies {
            let id = #[trigger] contract.required_evidence@[i]@;
            &&& evidence.contains_key(id)
            &&& record_status(evidence[id], now) == AssuranceStatus::Valid
        } by {
            assert(requirement_reason(evidence, required[i], now) is None);
        }
    }
}

proof fn lemma_requirement_reasons_local(
    required: Seq<Seq<char>>,
    e1: Map<Seq<char>, EvidenceRecord>,
    e2: Map<Seq<char>, EvidenceRecord>,
    now: nat,
)
    requires
        forall|i: int|
            0 <= i < required.len() ==> (e1.contains_key(#[trigger] required[i]) <==> e2.contains_key(
                required[i],
            )) && (e1.contains_key(required[i]) ==> e1[required[i]] == e2[required[i]]),
    ensures
        requirement_reasons(required, e1, now) == requirement_reasons(required, e2, now),
    decreases required.len(),
{
    if required.len() > 0 {
        let rest = required.drop_last();
        assert forall|i: int| 0 <= i < rest.len() implies rest[i] == required[i] by {}
        lemma_requirement_reasons_local(rest, e1, e2, now);
        assert(required.last() == required[required.len() - 1]);
    }
}

/// A decision depends only on the records that its contract lists: evidence maps
/// that agree on those identifiers give the same decision.
pub proof fn lemma_decision_is_local(
    contract: ActionContract,
    e1: Map<Seq<char>, EvidenceRecord>,
    e2: Map<Seq<char>, EvidenceRecord>,
    now: nat,
)
    requires
        forall|i: int|
            0 <= i < contract.required_evidence@.len() ==> {
                let id = #[trigger] contract.required_evidence@[i]@;
                &&& e1.contains_key(id) <==> e2.contains_key(id)
                &&& e1.contains_key(id) ==> e1[id] == e2[id]
            },
    ensures
        decide(contract, e1, now) == decide(contract, e2, now),
{
    let required = ids_of(contract.required_evidence@);
    assert forall|i: int| 0 <= i < required.len() implies (e1.contains_key(#[trigger] required[i])
        <==> e2.contains_key(required[i])) && (e1.contains_key(required[i]) ==> e1[required[i]]
        == e2[required[i]]) by {
        assert(required[i] == contract.required_evidence@[i]@);
    }
    lemma_requirement_reasons_local(required, e1, e2, now);
}

/// Without a new observation, permission can only be lost as time passes: an action
/// allowed at `later` is allowed at every earlier instant.
pub proof fn lemma_permission_only_expires(
    contract: ActionContract,
    evidence: Map<Seq<char>, EvidenceRecord>,
    earlier: nat,
    later: nat,
)
    requires
        earlier <= later,
        decide(contract, evidence, later).permission is Allowed,
    ensures
        decide(contract, evidence, earlier).permission is Allowed,
{
    lemma_allowed_iff_all_required_valid(contract, evidence, later);
    lemma_allowed_iff_all_required_valid(contract, evidence, earlier);
}

} // verus!

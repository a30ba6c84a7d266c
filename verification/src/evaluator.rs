//! Full evaluation from scratch: every node and every rule, with no cached or
//! incremental decisions.
use vstd::prelude::*;

use crate::clock::Duration;
use crate::evidence::{atom_value, AssuranceValue, EvidenceAtom};
use crate::graph::{AssuranceGraph, GraphView, Justification, NodeKind, RuleView};
use crate::ids::{assoc_view, copy_id, copy_ids, id_eq_str, id_lt, id_lt_str, ids_of, lemma_assoc_at, strictly_sorted, IdMap, IdSet};

verus! {

/// The evidence selected to support a VALID node, and until when it does.
#[derive(Debug, PartialEq, Eq)]
pub struct Witness {
    pub node_id: String,
    pub evidence_ids: IdSet,
    pub horizon: Duration,
    /// None for atomic evidence; otherwise identifies the selected rule.
    pub justification_id: Option<String>,
    pub premise_ids: Vec<String>,
}

/// A witness with identifiers as character sequences.
pub struct WitnessView {
    pub node_id: Seq<char>,
    pub evidence_ids: Set<Seq<char>>,
    pub horizon: Duration,
    pub justification_id: Option<Seq<char>>,
    pub premise_ids: Seq<Seq<char>>,
}

/// The view of an optional identifier.
pub open spec fn opt_id(s: Option<String>) -> Option<Seq<char>> {
    match s {
        Some(x) => Some(x@),
        None => None,
    }
}

impl View for Witness {
    type V = WitnessView;

    open spec fn view(&self) -> WitnessView {
        WitnessView {
            node_id: self.node_id@,
            evidence_ids: self.evidence_ids@,
            horizon: self.horizon,
            justification_id: opt_id(self.justification_id),
            premise_ids: ids_of(self.premise_ids@),
        }
    }
}

fn copy_opt_id(s: &Option<String>) -> (r: Option<String>)
    ensures
        opt_id(r) == opt_id(*s),
{
    match s {
        Some(x) => Some(copy_id(x)),
        None => None,
    }
}

impl Clone for Witness {
    fn clone(&self) -> (r: Self)
        ensures
            r@ == self@,
    {
        Witness {
            node_id: copy_id(&self.node_id),
            evidence_ids: self.evidence_ids.clone(),
            horizon: self.horizon,
            justification_id: copy_opt_id(&self.justification_id),
            premise_ids: copy_ids(&self.premise_ids),
        }
    }
}

/// The views of a sequence of witnesses.
pub open spec fn witness_views(s: Seq<Witness>) -> Seq<WitnessView> {
    s.map_values(|w: Witness| w@)
}

/// The order of optional identifiers: absent first, then by identifier.
pub open spec fn opt_id_lt(a: Option<Seq<char>>, b: Option<Seq<char>>) -> bool {
    match (a, b) {
        (None, Some(_)) => true,
        (Some(x), Some(y)) => id_lt(x, y),
        _ => false,
    }
}

/// Preference between two witnesses: the later horizon first, then fewer evidence
/// atoms, then the smaller node identifier (or, between alternative rules for one
/// node, the smaller rule identifier).
pub open spec fn ranks_before(a: WitnessView, b: WitnessView, by_rule: bool) -> bool {
    ||| a.horizon@ > b.horizon@
    ||| a.horizon@ == b.horizon@ && a.evidence_ids.len() < b.evidence_ids.len()
    ||| a.horizon@ == b.horizon@ && a.evidence_ids.len() == b.evidence_ids.len() && (if by_rule {
        opt_id_lt(a.justification_id, b.justification_id)
    } else {
        id_lt(a.node_id, b.node_id)
    })
}

/// Position of the first most preferred witness.
pub open spec fn best_index(s: Seq<WitnessView>, by_rule: bool) -> int
    decreases s.len(),
{
    if s.len() <= 1 {
        0
    } else {
        let i = best_index(s.drop_last(), by_rule);
        if ranks_before(s.last(), s[i], by_rule) {
            s.len() - 1
        } else {
            i
        }
    }
}

/// The most preferred position lies within a nonempty sequence.
pub proof fn lemma_best_index_range(s: Seq<WitnessView>, by_rule: bool)
    requires
        s.len() > 0,
    ensures
        0 <= best_index(s, by_rule) < s.len(),
    decreases s.len(),
{
    if s.len() > 1 {
        lemma_best_index_range(s.drop_last(), by_rule);
    }
}

/// The `k` most preferred witnesses, most preferred first.
pub open spec fn top_k(s: Seq<WitnessView>, k: nat) -> Seq<WitnessView>
    decreases k,
{
    if k == 0 || s.len() == 0 {
        Seq::empty()
    } else {
        let i = best_index(s, false);
        seq![s[i]] + top_k(s.remove(i), (k - 1) as nat)
    }
}

fn ranks_before_exec(a: &Witness, b: &Witness, by_rule: bool) -> (r: bool)
    ensures
        r == ranks_before(a@, b@, by_rule),
{
    if b.horizon.lt(&a.horizon) {
        return true;
    }
    if a.horizon.lt(&b.horizon) {
        return false;
    }
    let la = a.evidence_ids.len();
    let lb = b.evidence_ids.len();
    if la < lb {
        return true;
    }
    if la > lb {
        return false;
    }
    if by_rule {
        match (&a.justification_id, &b.justification_id) {
            (None, Some(_)) => true,
            (Some(x), Some(y)) => id_lt_str(x.as_str(), y.as_str()),
            _ => false,
        }
    } else {
        id_lt_str(a.node_id.as_str(), b.node_id.as_str())
    }
}

fn best_position(ws: &Vec<Witness>, by_rule: bool) -> (i: usize)
    requires
        ws@.len() > 0,
    ensures
        i == best_index(witness_views(ws@), by_rule),
        i < ws@.len(),
{
    let ghost vs = witness_views(ws@);
    let mut best: usize = 0;
    proof {
        assert(vs.take(1).len() == 1);
    }
    for i in 1..ws.len()
        invariant
            vs == witness_views(ws@),
            0 <= best < i,
            i <= ws@.len(),
            best == best_index(vs.take(i as int), by_rule),
    {
        proof {
            assert(vs.take(i + 1).drop_last() =~= vs.take(i as int));
            assert(vs.take(i + 1).last() == vs[i as int]);
            assert(vs.take(i + 1)[best as int] == vs[best as int]);
        }
        if ranks_before_exec(&ws[i], &ws[best], by_rule) {
            best = i;
        }
    }
    proof {
        assert(vs.take(ws@.len() as int) =~= vs);
    }
    best
}

/// Takes the `k` most preferred witnesses, most preferred first.
fn select_top(ws: Vec<Witness>, k: usize) -> (r: Vec<Witness>)
    ensures
        witness_views(r@) == top_k(witness_views(ws@), k as nat),
{
    let ghost all = witness_views(ws@);
    let mut rest = ws;
    let mut selected: Vec<Witness> = Vec::new();
    let mut j: usize = 0;
    proof {
        assert(witness_views(selected@) + top_k(witness_views(rest@), k as nat) =~= top_k(all, k as nat));
    }
    while j < k && rest.len() > 0
        invariant
            j <= k,
            witness_views(selected@) + top_k(witness_views(rest@), (k - j) as nat) == top_k(all, k as nat),
        decreases k - j,
    {
        let ghost before = witness_views(rest@);
        let ghost sel = witness_views(selected@);
        let i = best_position(&rest, false);
        let w = rest.remove(i);
        selected.push(w);
        j = j + 1;
        proof {
            assert(witness_views(rest@) =~= before.remove(i as int));
            assert(witness_views(selected@) =~= sel.push(before[i as int]));
            assert(top_k(before, (k - j + 1) as nat) == seq![before[i as int]] + top_k(
                before.remove(i as int),
                (k - j) as nat,
            ));
            assert(witness_views(selected@) + top_k(witness_views(rest@), (k - j) as nat) =~= sel
                + top_k(before, (k - j + 1) as nat));
        }
    }
    proof {
        assert(top_k(witness_views(rest@), (k - j) as nat) =~= Seq::<WitnessView>::empty());
        assert(witness_views(selected@) =~= witness_views(selected@) + Seq::<WitnessView>::empty());
    }
    selected
}

/// Results of a full evaluation.
#[derive(Debug, Clone, PartialEq, Eq)]
pub struct Evaluation {
    pub assurance_by_node: IdMap<AssuranceValue>,
    pub assurance_by_justification: IdMap<AssuranceValue>,
    pub preferred_witness_by_node: IdMap<Witness>,
}

/// Evaluation results with witnesses as views.
pub struct EvaluationView {
    pub by_node: Map<Seq<char>, AssuranceValue>,
    pub by_rule: Map<Seq<char>, AssuranceValue>,
    pub witnesses: Map<Seq<char>, WitnessView>,
}

/// The views of a map of witnesses.
pub open spec fn witness_map_view(m: Map<Seq<char>, Witness>) -> Map<Seq<char>, WitnessView> {
    m.map_values(|w: Witness| w@)
}

impl View for Evaluation {
    type V = EvaluationView;

    open spec fn view(&self) -> EvaluationView {
        EvaluationView {
            by_node: self.assurance_by_node@,
            by_rule: self.assurance_by_justification@,
            witnesses: witness_map_view(self.preferred_witness_by_node@),
        }
    }
}

/// No results yet.
pub open spec fn empty_evaluation() -> EvaluationView {
    EvaluationView { by_node: Map::empty(), by_rule: Map::empty(), witnesses: Map::empty() }
}

impl Default for Evaluation {
    fn default() -> (e: Self)
        ensures
            e@ == empty_evaluation(),
    {
        let e = Evaluation {
            assurance_by_node: IdMap::new(),
            assurance_by_justification: IdMap::new(),
            preferred_witness_by_node: IdMap::new(),
        };
        assert(e@.witnesses =~= Map::<Seq<char>, WitnessView>::empty());
        e
    }
}

/// The witnesses of the premises that are VALID, in premise order.
pub open spec fn supports(acc: EvaluationView, premises: Seq<Seq<char>>) -> Seq<WitnessView>
    decreases premises.len(),
{
    if premises.len() == 0 {
        Seq::empty()
    } else {
        let s = supports(acc, premises.drop_last());
        if acc.witnesses.contains_key(premises.last()) {
            s.push(acc.witnesses[premises.last()])
        } else {
            s
        }
    }
}

/// How many premises are UNKNOWN.
pub open spec fn unknown_count(acc: EvaluationView, premises: Seq<Seq<char>>) -> nat
    decreases premises.len(),
{
    if premises.len() == 0 {
        0
    } else {
        unknown_count(acc, premises.drop_last()) + if acc.by_node[premises.last()]
            == AssuranceValue::Unknown {
            1nat
        } else {
            0nat
        }
    }
}

/// The union of the evidence of the witnesses.
pub open spec fn union_evidence(ws: Seq<WitnessView>) -> Set<Seq<char>>
    decreases ws.len(),
{
    if ws.len() == 0 {
        Set::empty()
    } else {
        union_evidence(ws.drop_last()).union(ws.last().evidence_ids)
    }
}

/// The earliest horizon of the witnesses.
pub open spec fn min_horizon(ws: Seq<WitnessView>) -> Duration
    decreases ws.len(),
{
    if ws.len() <= 1 {
        ws[0].horizon
    } else {
        let h = min_horizon(ws.drop_last());
        if ws.last().horizon@ < h@ {
            ws.last().horizon
        } else {
            h
        }
    }
}

/// The value of a threshold rule for `node`, and its witness when VALID.
///
/// VALID when at least `threshold` premises are VALID: the witness joins the
/// `threshold` most preferred premise witnesses, and its horizon is the earliest of
/// theirs. Otherwise UNKNOWN when the UNKNOWN premises could still make up the
/// difference, and INVALID when even they could not.
pub open spec fn rule_result(acc: EvaluationView, r: RuleView, node: Seq<char>) -> (
    AssuranceValue,
    Option<WitnessView>,
) {
    let sup = supports(acc, r.premises);
    if sup.len() >= r.threshold {
        let sel = top_k(sup, r.threshold);
        let h = min_horizon(sel);
        (
            AssuranceValue::Valid { horizon: h },
            Some(
                WitnessView {
                    node_id: node,
                    evidence_ids: union_evidence(sel),
                    horizon: h,
                    justification_id: Some(r.id),
                    premise_ids: sel.map_values(|w: WitnessView| w.node_id),
                },
            ),
        )
    } else if sup.len() + unknown_count(acc, r.premises) >= r.threshold {
        (AssuranceValue::Unknown, None)
    } else {
        (AssuranceValue::Invalid, None)
    }
}

fn evaluate_rule(result: &Evaluation, rule: &Justification, node: &String) -> (r: (
    AssuranceValue,
    Option<Witness>,
))
    requires
        forall|i: int|
            0 <= i < rule@.premises.len() ==> result@.by_node.contains_key(
                #[trigger] rule@.premises[i],
            ),
        forall|k: Seq<char>| #[trigger]
            result@.witnesses.contains_key(k) ==> result@.by_node.contains_key(k)
                && result@.by_node[k] is Valid,
        rule.threshold > 0,
    ensures
        r.0 == rule_result(result@, rule@, node@).0,
        match r.1 {
            Some(w) => rule_result(result@, rule@, node@).1 == Some(w@),
            None => rule_result(result@, rule@, node@).1 is None,
        },
{
    let ghost acc = result@;
    let ghost ps = rule@.premises;
    let n = rule.premises.len();
    let mut sup: Vec<Witness> = Vec::new();
    let mut unknown: usize = 0;
    for i in 0..n
        invariant
            n == ps.len(),
            acc == result@,
            ps == rule@.premises,
            forall|k: int| 0 <= k < ps.len() ==> acc.by_node.contains_key(#[trigger] ps[k]),
            forall|k: Seq<char>| #[trigger]
                acc.witnesses.contains_key(k) ==> acc.by_node.contains_key(k) && acc.by_node[k] is Valid,
            witness_views(sup@) == supports(acc, ps.take(i as int)),
            unknown == unknown_count(acc, ps.take(i as int)),
            sup@.len() + unknown <= i,
    {
        proof {
            assert(ps.take(i + 1).drop_last() =~= ps.take(i as int));
            assert(ps.take(i + 1).last() == ps[i as int]);
        }
        let p = rule.premises[i].as_str();
        let wopt = result.preferred_witness_by_node.get(p);
        match wopt {
            Some(w) => {
                sup.push(w.clone());
                proof {
                    assert(witness_views(sup@) =~= supports(acc, ps.take(i as int)).push(acc.witnesses[p@]));
                }
            },
            None => {
                proof {
                    assert(witness_views(sup@) =~= supports(acc, ps.take(i as int)));
                }
            },
        }
        let is_unknown = match result.assurance_by_node.get(p) {
            Some(v) => match v {
                AssuranceValue::Unknown => true,
                _ => false,
            },
            None => false,
        };
        proof {
            assert(acc.by_node.contains_key(p@));
            assert(is_unknown == (acc.by_node[p@] == AssuranceValue::Unknown));
            if wopt is Some {
                assert(acc.witnesses.contains_key(p@));
                assert(acc.by_node[p@] is Valid);
            }
        }
        if is_unknown {
            unknown = unknown + 1;
        }
    }
    proof {
        assert(ps.take(n as int) =~= ps);
    }
    let threshold = rule.threshold;
    if sup.len() >= threshold {
        let sel = select_top(sup, threshold);
        let ghost sv = witness_views(sel@);
        proof {
            lemma_top_k_len(witness_views(sup@), threshold as nat);
        }
        let mut horizon = sel[0].horizon;
        let mut evidence = sel[0].evidence_ids.clone();
        let mut premise_ids: Vec<String> = Vec::new();
        premise_ids.push(copy_id(&sel[0].node_id));
        proof {
            assert(sv.take(1).drop_last() =~= Seq::<WitnessView>::empty());
            assert(sv.take(1).last() == sv[0]);
            assert(union_evidence(Seq::<WitnessView>::empty()) == Set::<Seq<char>>::empty());
            assert(union_evidence(sv.take(1)) == union_evidence(sv.take(1).drop_last()).union(sv[0].evidence_ids));
            assert(union_evidence(sv.take(1)) =~= sv[0].evidence_ids);
            assert(ids_of(premise_ids@) =~= sv.take(1).map_values(|w: WitnessView| w.node_id));
        }
        for j in 1..sel.len()
            invariant
                sv == witness_views(sel@),
                sel@.len() == threshold,
                threshold > 0,
                horizon == min_horizon(sv.take(j as int)),
                evidence@ == union_evidence(sv.take(j as int)),
                ids_of(premise_ids@) == sv.take(j as int).map_values(|w: WitnessView| w.node_id),
        {
            proof {
                assert(sv.take(j + 1).drop_last() =~= sv.take(j as int));
                assert(sv.take(j + 1).last() == sv[j as int]);
            }
            if sel[j].horizon.lt(&horizon) {
                horizon = sel[j].horizon;
            }
            evidence.union_with(&sel[j].evidence_ids);
            let ghost before = ids_of(premise_ids@);
            premise_ids.push(copy_id(&sel[j].node_id));
            proof {
                assert(sv[j as int].node_id == sel@[j as int].node_id@);
                assert(ids_of(premise_ids@) =~= before.push(sv[j as int].node_id));
                assert(sv.take(j + 1).map_values(|w: WitnessView| w.node_id) =~= sv.take(j as int).map_values(
                    |w: WitnessView| w.node_id,
                ).push(sv[j as int].node_id));
                assert(ids_of(premise_ids@) =~= sv.take(j + 1).map_values(|w: WitnessView| w.node_id));
            }
        }
        proof {
            assert(sv.take(threshold as int) =~= sv);
        }
        let w = Witness {
            node_id: copy_id(node),
            evidence_ids: evidence,
            horizon,
            justification_id: Some(copy_id(&rule.justification_id)),
            premise_ids,
        };
        (AssuranceValue::Valid { horizon }, Some(w))
    } else if unknown >= threshold - sup.len() {
        (AssuranceValue::Unknown, None)
    } else {
        (AssuranceValue::Invalid, None)
    }
}

/// Selecting `k` witnesses out of at least `k` yields `k` witnesses.
pub proof fn lemma_top_k_len(s: Seq<WitnessView>, k: nat)
    requires
        k <= s.len(),
    ensures
        top_k(s, k).len() == k,
    decreases k,
{
    if k > 0 {
        lemma_best_index_range(s, false);
        let i = best_index(s, false);
        lemma_top_k_len(s.remove(i), (k - 1) as nat);
    }
}

/// The value of an evidence node: its observation's value at `now`, or UNKNOWN when
/// it is missing or filed under another identity.
pub open spec fn evidence_value(ev: Map<Seq<char>, EvidenceAtom>, id: Seq<char>, now: nat) -> AssuranceValue {
    if ev.contains_key(id) && ev[id].evidence_id@ == id {
        atom_value(ev[id], now)
    } else {
        AssuranceValue::Unknown
    }
}

/// The witness of a VALID evidence node: itself, until its expiry.
pub open spec fn atomic_witness(id: Seq<char>, horizon: Duration) -> WitnessView {
    WitnessView {
        node_id: id,
        evidence_ids: Set::empty().insert(id),
        horizon,
        justification_id: None,
        premise_ids: Seq::empty(),
    }
}

/// The results of the rules `rids` for `node`.
pub open spec fn rule_outcomes(
    g: GraphView,
    acc: EvaluationView,
    rids: Seq<Seq<char>>,
    node: Seq<char>,
) -> Seq<(AssuranceValue, Option<WitnessView>)> {
    rids.map_values(|rid: Seq<char>| rule_result(acc, g.rules[rid], node))
}

/// The witnesses of the VALID outcomes, in order.
pub open spec fn candidates(outs: Seq<(AssuranceValue, Option<WitnessView>)>) -> Seq<WitnessView>
    decreases outs.len(),
{
    if outs.len() == 0 {
        Seq::empty()
    } else {
        let c = candidates(outs.drop_last());
        match outs.last().1 {
            Some(w) => c.push(w),
            None => c,
        }
    }
}

/// Whether some outcome is UNKNOWN.
pub open spec fn any_unknown(outs: Seq<(AssuranceValue, Option<WitnessView>)>) -> bool {
    exists|j: int| 0 <= j < outs.len() && (#[trigger] outs[j]).0 == AssuranceValue::Unknown
}

/// The values of the rules `rids` for `node`, by rule identifier.
pub open spec fn rule_values(
    g: GraphView,
    acc: EvaluationView,
    rids: Seq<Seq<char>>,
    node: Seq<char>,
) -> Map<Seq<char>, AssuranceValue> {
    Map::new(|rid: Seq<char>| rids.contains(rid), |rid: Seq<char>| rule_result(acc, g.rules[rid], node).0)
}

/// Evaluates a node that is not evidence, from the rules that conclude it.
pub open spec fn eval_derived(g: GraphView, acc: EvaluationView, id: Seq<char>) -> EvaluationView {
    let rids = g.by_conclusion[id];
    let outs = rule_outcomes(g, acc, rids, id);
    let cands = candidates(outs);
    let by_rule = acc.by_rule.union_prefer_right(rule_values(g, acc, rids, id));
    if cands.len() > 0 {
        let w = cands[best_index(cands, true)];
        EvaluationView {
            by_node: acc.by_node.insert(id, AssuranceValue::Valid { horizon: w.horizon }),
            by_rule,
            witnesses: acc.witnesses.insert(id, w),
        }
    } else {
        EvaluationView {
            by_node: acc.by_node.insert(
                id,
                if any_unknown(outs) {
                    AssuranceValue::Unknown
                } else {
                    AssuranceValue::Invalid
                },
            ),
            by_rule,
            witnesses: acc.witnesses,
        }
    }
}

/// Evaluates node `id` given the results `acc` of the nodes before it.
///
/// An evidence node takes its observation's value. Any other node evaluates every
/// rule that concludes it; several rules behave as OR: the most preferred VALID
/// rule supplies its witness, otherwise any UNKNOWN rule makes it UNKNOWN,
/// otherwise it is INVALID.
pub open spec fn eval_node(
    g: GraphView,
    ev: Map<Seq<char>, EvidenceAtom>,
    now: nat,
    acc: EvaluationView,
    id: Seq<char>,
) -> EvaluationView {
    if g.nodes[id] == NodeKind::Evidence {
        let v = evidence_value(ev, id, now);
        EvaluationView {
            by_node: acc.by_node.insert(id, v),
            by_rule: acc.by_rule,
            witnesses: match v {
                AssuranceValue::Valid { horizon } => acc.witnesses.insert(id, atomic_witness(id, horizon)),
                _ => acc.witnesses,
            },
        }
    } else {
        eval_derived(g, acc, id)
    }
}

/// The results after evaluating the first `k` nodes of the topological order.
pub open spec fn eval_upto(g: GraphView, ev: Map<Seq<char>, EvidenceAtom>, now: nat, k: nat) -> EvaluationView
    decreases k,
{
    if k == 0 {
        empty_evaluation()
    } else {
        eval_node(g, ev, now, eval_upto(g, ev, now, (k - 1) as nat), g.order[k - 1])
    }
}

/// The full evaluation: every node in topological order.
pub open spec fn evaluate(g: GraphView, ev: Map<Seq<char>, EvidenceAtom>, now: nat) -> EvaluationView {
    eval_upto(g, ev, now, g.order.len())
}

/// Every premise of every rule concluding `id` already has a value.
pub open spec fn premises_evaluated(g: GraphView, acc: EvaluationView, id: Seq<char>) -> bool {
    forall|rid: Seq<char>, i: int|
        #![trigger g.rules[rid].premises[i]]
        g.rules.contains_key(rid) && g.rules[rid].conclusion == id && 0 <= i
            < g.rules[rid].premises.len() ==> acc.by_node.contains_key(g.rules[rid].premises[i])
}

/// Only VALID nodes have witnesses.
pub open spec fn witnesses_valid(acc: EvaluationView) -> bool {
    forall|k: Seq<char>| #[trigger]
        acc.witnesses.contains_key(k) ==> acc.by_node.contains_key(k) && acc.by_node[k] is Valid
}

/// The rules listed for `id` are the rules that conclude it, in identifier order.
pub proof fn lemma_rules_for(g: GraphView, id: Seq<char>)
    requires
        crate::graph::graph_wf(g),
        g.by_conclusion.contains_key(id),
    ensures
        strictly_sorted(g.by_conclusion[id]),
        forall|j: int|
            0 <= j < g.by_conclusion[id].len() ==> g.rules.contains_key(#[trigger] g.by_conclusion[id][j])
                && g.rules[g.by_conclusion[id][j]].conclusion == id,
{
    let s = crate::graph::conclusion_index(g.rules)[id];
    assert(s.subset_of(g.rules.dom()));
    vstd::set_lib::lemma_set_subset_finite(g.rules.dom(), s);
    crate::graph::lemma_sorted_ids_exist(s);
    assert forall|j: int| 0 <= j < g.by_conclusion[id].len() implies g.rules.contains_key(
        #[trigger] g.by_conclusion[id][j],
    ) && g.rules[g.by_conclusion[id][j]].conclusion == id by {
        assert(g.by_conclusion[id].to_set().contains(g.by_conclusion[id][j]));
    }
}

/// Evaluates the rules listed for `id`, in order.
fn evaluate_rules_for(graph: &AssuranceGraph, acc: &Evaluation, rids: &Vec<String>, id: &String) -> (r: (
    Vec<AssuranceValue>,
    Vec<Witness>,
    bool,
))
    requires
        graph.wf(),
        graph@.by_conclusion.contains_key(id@),
        ids_of(rids@) == graph@.by_conclusion[id@],
        premises_evaluated(graph@, acc@, id@),
        witnesses_valid(acc@),
    ensures
        ({
            let outs = rule_outcomes(graph@, acc@, ids_of(rids@), id@);
            &&& r.0@ == outs.map_values(|o: (AssuranceValue, Option<WitnessView>)| o.0)
            &&& witness_views(r.1@) == candidates(outs)
            &&& r.2 == any_unknown(outs)
        }),
{
    let ghost g = graph@;
    let ghost rs = ids_of(rids@);
    let ghost outs = rule_outcomes(g, acc@, rs, id@);
    proof {
        lemma_rules_for(g, id@);
        assert forall|k: int| 0 <= k < rs.len() implies (#[trigger] g.rules[rs[k]]).threshold > 0 by {
            assert(crate::graph::rule_ok(g.nodes, rs[k], g.rules[rs[k]]));
        }
    }
    let mut values: Vec<AssuranceValue> = Vec::new();
    let mut cands: Vec<Witness> = Vec::new();
    let mut unknown = false;
    let n = rids.len();
    for j in 0..n
        invariant
            n == rs.len(),
            g == graph@,
            rs == ids_of(rids@),
            forall|k: int| 0 <= k < rs.len() ==> (#[trigger] g.rules[rs[k]]).threshold > 0,
            rs == g.by_conclusion[id@],
            outs == rule_outcomes(g, acc@, rs, id@),
            forall|k: int| 0 <= k < rs.len() ==> g.rules.contains_key(#[trigger] rs[k]) && g.rules[rs[k]].conclusion == id@,
            premises_evaluated(g, acc@, id@),
            witnesses_valid(acc@),
            values@ == outs.take(j as int).map_values(|o: (AssuranceValue, Option<WitnessView>)| o.0),
            witness_views(cands@) == candidates(outs.take(j as int)),
            unknown == any_unknown(outs.take(j as int)),
    {
        let rid = &rids[j];
        let rule = match graph.justifications().get(rid.as_str()) {
            Some(rule) => rule,
            None => {
                proof {
                    assert(g.rules.contains_key(rs[j as int]));
                }
                return (values, cands, unknown);
            },
        };
        proof {
            assert(rule@ == g.rules[rs[j as int]]);
            assert forall|i: int| 0 <= i < rule@.premises.len() implies acc@.by_node.contains_key(
                #[trigger] rule@.premises[i],
            ) by {
                assert(g.rules[rs[j as int]].premises[i] == rule@.premises[i]);
            }
        }
        let (v, w) = evaluate_rule(acc, rule, id);
        let ghost o = outs[j as int];
        proof {
            assert(o == rule_result(acc@, g.rules[rs[j as int]], id@));
            assert(outs.take(j + 1).drop_last() =~= outs.take(j as int));
            assert(outs.take(j + 1).last() == o);
        }
        values.push(v);
        match w {
            Some(w) => {
                cands.push(w);
            },
            None => {},
        }
        match v {
            AssuranceValue::Unknown => {
                unknown = true;
            },
            _ => {},
        }
        proof {
            assert(values@ =~= outs.take(j + 1).map_values(|o: (AssuranceValue, Option<WitnessView>)| o.0));
            assert(witness_views(cands@) =~= candidates(outs.take(j + 1)));
            let t = outs.take(j + 1);
            if v == AssuranceValue::Unknown {
                assert(t[j as int].0 == AssuranceValue::Unknown);
            }
            if any_unknown(t) {
                let k = choose|k: int| 0 <= k < t.len() && (#[trigger] t[k]).0 == AssuranceValue::Unknown;
                if k < j {
                    assert(outs.take(j as int)[k] == t[k]);
                }
            }
            if any_unknown(outs.take(j as int)) {
                let k = choose|k: int| 0 <= k < j && (#[trigger] outs.take(j as int)[k]).0 == AssuranceValue::Unknown;
                assert(t[k] == outs.take(j as int)[k]);
            }
        }
    }
    proof {
        assert(outs.take(n as int) =~= outs);
    }
    (values, cands, unknown)
}

/// Records the value of each listed rule.
fn record_rule_values(by_rule: &mut IdMap<AssuranceValue>, rids: &Vec<String>, values: &Vec<AssuranceValue>)
    requires
        values@.len() == rids@.len(),
        strictly_sorted(ids_of(rids@)),
    ensures
        final(by_rule)@ == old(by_rule)@.union_prefer_right(assoc_view(ids_of(rids@), values@)),
{
    let ghost rs = ids_of(rids@);
    let n = rids.len();
    for j in 0..n
        invariant
            n == rs.len(),
            n == values@.len(),
            rs == ids_of(rids@),
            strictly_sorted(rs),
            by_rule@ == old(by_rule)@.union_prefer_right(assoc_view(rs, values@).restrict(
                rs.take(j as int).to_set(),
            )),
    {
        by_rule.insert(copy_id(&rids[j]), values[j]);
        proof {
            lemma_assoc_at(rs, values@, j as int);
            let t = rs.take(j + 1);
            assert(t =~= rs.take(j as int).push(rs[j as int]));
            rs.take(j as int).lemma_push_to_set_commute(rs[j as int]);
            assert(by_rule@ =~= old(by_rule)@.union_prefer_right(assoc_view(rs, values@).restrict(
                t.to_set(),
            )));
        }
    }
    proof {
        assert(rs.take(n as int) =~= rs);
        assert(assoc_view(rs, values@).restrict(rs.to_set()) =~= assoc_view(rs, values@));
    }
}

/// Evaluates node `id` into `result`.
fn evaluate_node_into(
    graph: &AssuranceGraph,
    evidence: &IdMap<EvidenceAtom>,
    now: Duration,
    result: &mut Evaluation,
    id: &String,
)
    requires
        graph.wf(),
        graph@.nodes.contains_key(id@),
        !old(result)@.by_node.contains_key(id@),
        premises_evaluated(graph@, old(result)@, id@),
        witnesses_valid(old(result)@),
    ensures
        final(result)@ == eval_node(graph@, evidence@, now@, old(result)@, id@),
        final(result)@.by_node.dom() == old(result)@.by_node.dom().insert(id@),
        witnesses_valid(final(result)@),
{
    let ghost g = graph@;
    let ghost acc = result@;
    let kind = match graph.nodes().get(id.as_str()) {
        Some(k) => *k,
        None => NodeKind::Evidence,
    };
    if kind == NodeKind::Evidence {
        let v = match evidence.get(id.as_str()) {
            Some(atom) => if id_eq_str(atom.evidence_id.as_str(), id.as_str()) {
                atom.value_at(now)
            } else {
                AssuranceValue::Unknown
            },
            None => AssuranceValue::Unknown,
        };
        proof {
            assert(v == evidence_value(evidence@, id@, now@));
        }
        result.assurance_by_node.insert(copy_id(id), v);
        match v {
            AssuranceValue::Valid { horizon } => {
                let w = Witness {
                    node_id: copy_id(id),
                    evidence_ids: IdSet::singleton(copy_id(id)),
                    horizon,
                    justification_id: None,
                    premise_ids: Vec::new(),
                };
                proof {
                    assert(ids_of(w.premise_ids@) =~= Seq::<Seq<char>>::empty());
                    assert(w@ == atomic_witness(id@, horizon));
                }
                result.preferred_witness_by_node.insert(copy_id(id), w);
            },
            _ => {},
        }
        proof {
            assert(result@.witnesses =~= eval_node(g, evidence@, now@, acc, id@).witnesses);
        }
    } else {
        proof {
            assert(crate::graph::unsupported_nodes(g.nodes, crate::graph::conclusion_index(g.rules).dom()).contains(id@) == false);
            assert(crate::graph::conclusion_index(g.rules).contains_key(id@));
            assert(g.by_conclusion.contains_key(id@));
            lemma_rules_for(g, id@);
        }
        let rids = match graph.justifications_by_conclusion().get(id.as_str()) {
            Some(r) => r,
            None => {
                return;
            },
        };
        let (values, cands, unknown) = evaluate_rules_for(graph, &*result, rids, id);
        let ghost rs = ids_of(rids@);
        let ghost outs = rule_outcomes(g, acc, rs, id@);
        proof {
            assert(values@.len() == rs.len());
            assert(assoc_view(rs, values@) =~= rule_values(g, acc, rs, id@)) by {
                assert forall|r: Seq<char>| #[trigger] rs.contains(r) implies assoc_view(rs, values@)[r]
                    == rule_values(g, acc, rs, id@)[r] by {
                    let k = choose|k: int| 0 <= k < rs.len() && rs[k] == r;
                    lemma_assoc_at(rs, values@, k);
                    assert(values@[k] == outs[k].0);
                }
            }
        }
        record_rule_values(&mut result.assurance_by_justification, rids, &values);
        if cands.len() > 0 {
            let b = best_position(&cands, true);
            let w = cands[b].clone();
            result.assurance_by_node.insert(copy_id(id), AssuranceValue::Valid { horizon: w.horizon });
            result.preferred_witness_by_node.insert(copy_id(id), w);
        } else {
            result.assurance_by_node.insert(
                copy_id(id),
                if unknown {
                    AssuranceValue::Unknown
                } else {
                    AssuranceValue::Invalid
                },
            );
        }
        proof {
            assert(result@.witnesses =~= eval_node(g, evidence@, now@, acc, id@).witnesses);
        }
    }
}

/// Evaluates every node and every rule from scratch at `now`.
///
/// Missing observations are UNKNOWN. Inputs are keyed by evidence_id; mismatched
/// identities fail closed. A threshold is INVALID only when even all UNKNOWN premises
/// could not satisfy it.
pub fn evaluate_full(graph: &AssuranceGraph, evidence: &IdMap<EvidenceAtom>, now: Duration) -> (e:
    Evaluation)
    ensures
        e@ == evaluate(graph@, evidence@, now@),
{
    proof {
        use_type_invariant(graph);
    }
    let ghost g = graph@;
    let order = graph.topological_order();
    let mut result = Evaluation::default();
    let n = order.len();
    proof {
        assert(g.order.take(0).to_set() =~= Set::<Seq<char>>::empty());
        assert(result@.by_node.dom() =~= Set::<Seq<char>>::empty());
    }
    for i in 0..n
        invariant
            g == graph@,
            graph.wf(),
            n == g.order.len(),
            ids_of(order@) == g.order,
            result@ == eval_upto(g, evidence@, now@, i as nat),
            result@.by_node.dom() == g.order.take(i as int).to_set(),
            witnesses_valid(result@),
    {
        let id = &order[i];
        proof {
            let v = g.order[i as int];
            assert(id@ == v);
            assert(g.order.to_set().contains(v));
            assert(g.nodes.dom().contains(v));
            assert(!g.order.take(i as int).to_set().contains(v)) by {
                if g.order.take(i as int).contains(v) {
                    let k = choose|k: int| 0 <= k < i && g.order.take(i as int)[k] == v;
                    assert(g.order[k] == g.order[i as int]);
                }
            }
            assert forall|rid: Seq<char>, k: int|
                #![trigger g.rules[rid].premises[k]]
                g.rules.contains_key(rid) && g.rules[rid].conclusion == v && 0 <= k
                    < g.rules[rid].premises.len() implies result@.by_node.contains_key(g.rules[rid].premises[k]) by {
                let p = g.rules[rid].premises[k];
                let dm = crate::graph::dependency_map(g.rules);
                assert(dm.contains_key(v));
                assert(crate::graph::dependencies(g.rules, v).contains(p));
                assert(crate::graph::entry_or_empty(dm, v).contains(p));
                assert(g.order.take(i as int).to_set().contains(p));
            }
        }
        evaluate_node_into(graph, evidence, now, &mut result, id);
        proof {
            let t = g.order.take(i + 1);
            assert(t =~= g.order.take(i as int).push(g.order[i as int]));
            g.order.take(i as int).lemma_push_to_set_commute(g.order[i as int]);
        }
    }
    proof {
        assert(g.order.len() == n);
    }
    result
}

/// After `k` steps exactly the first `k` nodes of the order have values, and only
/// VALID nodes have witnesses.
pub proof fn lemma_eval_upto_dom(g: GraphView, ev: Map<Seq<char>, EvidenceAtom>, now: nat, k: nat)
    requires
        k <= g.order.len(),
        g.order.no_duplicates(),
    ensures
        eval_upto(g, ev, now, k).by_node.dom() == g.order.take(k as int).to_set(),
        witnesses_valid(eval_upto(g, ev, now, k)),
    decreases k,
{
    if k == 0 {
        assert(g.order.take(0).to_set() =~= Set::<Seq<char>>::empty());
        assert(empty_evaluation().by_node.dom() =~= Set::<Seq<char>>::empty());
    } else {
        lemma_eval_upto_dom(g, ev, now, (k - 1) as nat);
        let t = g.order.take(k as int);
        assert(t =~= g.order.take(k - 1).push(g.order[k - 1]));
        g.order.take(k - 1).lemma_push_to_set_commute(g.order[k - 1]);
        let acc = eval_upto(g, ev, now, (k - 1) as nat);
        let id = g.order[k - 1];
        assert(eval_upto(g, ev, now, k).by_node.dom() =~= acc.by_node.dom().insert(id));
        assert(!acc.by_node.contains_key(id)) by {
            if g.order.take(k - 1).contains(id) {
                let j = choose|j: int| 0 <= j < k - 1 && #[trigger] g.order.take(k - 1)[j] == id;
                assert(g.order[j] == g.order[k - 1]);
            }
        }
        assert(!acc.witnesses.contains_key(id));
    }
}

/// Every node of a consistent graph has a value, and only VALID nodes have witnesses.
pub proof fn lemma_evaluate_dom(g: GraphView, ev: Map<Seq<char>, EvidenceAtom>, now: nat)
    requires
        crate::graph::graph_wf(g),
    ensures
        evaluate(g, ev, now).by_node.dom() == g.nodes.dom(),
        witnesses_valid(evaluate(g, ev, now)),
{
    lemma_eval_upto_dom(g, ev, now, g.order.len());
    assert(g.order.take(g.order.len() as int) =~= g.order);
}

/// The evaluation reads the clock only through the values of the observations:
/// where every observation has the same value at two instants, so does everything.
pub proof fn lemma_evaluate_same_values(
    g: GraphView,
    ev: Map<Seq<char>, EvidenceAtom>,
    t1: nat,
    t2: nat,
    k: nat,
)
    requires
        forall|id: Seq<char>| #[trigger] ev.contains_key(id) ==> atom_value(ev[id], t1) == atom_value(ev[id], t2),
    ensures
        eval_upto(g, ev, t1, k) == eval_upto(g, ev, t2, k),
    decreases k,
{
    if k > 0 {
        lemma_evaluate_same_values(g, ev, t1, t2, (k - 1) as nat);
        let id = g.order[k - 1];
        assert(evidence_value(ev, id, t1) == evidence_value(ev, id, t2));
    }
}

/// Whether two witnesses are the same.
pub fn same_witness(a: &Witness, b: &Witness) -> (r: bool)
    ensures
        r == (a@ == b@),
{
    if !id_eq_str(a.node_id.as_str(), b.node_id.as_str()) {
        return false;
    }
    if !a.evidence_ids.same(&b.evidence_ids) {
        return false;
    }
    if !a.horizon.same(&b.horizon) {
        return false;
    }
    let same_rule = match (&a.justification_id, &b.justification_id) {
        (None, None) => true,
        (Some(x), Some(y)) => id_eq_str(x.as_str(), y.as_str()),
        _ => false,
    };
    if !same_rule {
        return false;
    }
    let n = a.premise_ids.len();
    if n != b.premise_ids.len() {
        proof {
            assert(ids_of(a.premise_ids@).len() != ids_of(b.premise_ids@).len());
        }
        return false;
    }
    for i in 0..n
        invariant
            n == a.premise_ids@.len(),
            n == b.premise_ids@.len(),
            forall|j: int| 0 <= j < i ==> a.premise_ids@[j]@ == b.premise_ids@[j]@,
    {
        if !id_eq_str(a.premise_ids[i].as_str(), b.premise_ids[i].as_str()) {
            proof {
                assert(ids_of(a.premise_ids@)[i as int] != ids_of(b.premise_ids@)[i as int]);
            }
            return false;
        }
    }
    proof {
        assert(ids_of(a.premise_ids@) =~= ids_of(b.premise_ids@));
    }
    true
}

/// Every VALID node has a witness, only VALID nodes have witnesses, a node's horizon
/// is its witness's horizon, and every horizon lies strictly after `now`.
pub open spec fn witnesses_match(acc: EvaluationView, now: nat) -> bool {
    &&& forall|k: Seq<char>|
        #[trigger] acc.by_node.contains_key(k) && acc.by_node[k] is Valid
            ==> acc.witnesses.contains_key(k)
    &&& forall|k: Seq<char>|
        #[trigger] acc.witnesses.contains_key(k) ==> acc.by_node.contains_key(k) && acc.by_node[k]
            == AssuranceValue::Valid { horizon: acc.witnesses[k].horizon } && now
            < acc.witnesses[k].horizon@
}

/// Every witness in the sequence has a horizon after `now`.
pub open spec fn all_after(ws: Seq<WitnessView>, now: nat) -> bool {
    forall|i: int| 0 <= i < ws.len() ==> now < (#[trigger] ws[i]).horizon@
}

/// The premise witnesses come from the results so far.
pub proof fn lemma_supports_after(acc: EvaluationView, premises: Seq<Seq<char>>, now: nat)
    requires
        witnesses_match(acc, now),
    ensures
        all_after(supports(acc, premises), now),
    decreases premises.len(),
{
    if premises.len() > 0 {
        lemma_supports_after(acc, premises.drop_last(), now);
    }
}

/// The selected witnesses are among those offered.
pub proof fn lemma_top_k_after(s: Seq<WitnessView>, k: nat, now: nat)
    requires
        all_after(s, now),
    ensures
        all_after(top_k(s, k), now),
    decreases k,
{
    if k > 0 && s.len() > 0 {
        lemma_best_index_range(s, false);
        let i = best_index(s, false);
        let rest = s.remove(i);
        assert(all_after(rest, now)) by {
            assert forall|j: int| 0 <= j < rest.len() implies now < (#[trigger] rest[j]).horizon@ by {
                if j < i {
                    assert(rest[j] == s[j]);
                } else {
                    assert(rest[j] == s[j + 1]);
                }
            }
        }
        lemma_top_k_after(rest, (k - 1) as nat, now);
        let t = top_k(s, k);
        assert forall|j: int| 0 <= j < t.len() implies now < (#[trigger] t[j]).horizon@ by {
            if j > 0 {
                assert(t[j] == top_k(rest, (k - 1) as nat)[j - 1]);
            }
        }
    }
}

/// The earliest horizon of witnesses that all end after `now` ends after `now`.
pub proof fn lemma_min_horizon_after(ws: Seq<WitnessView>, now: nat)
    requires
        ws.len() > 0,
        all_after(ws, now),
    ensures
        now < min_horizon(ws)@,
    decreases ws.len(),
{
    if ws.len() > 1 {
        let rest = ws.drop_last();
        assert(all_after(rest, now)) by {
            assert forall|j: int| 0 <= j < rest.len() implies now < (#[trigger] rest[j]).horizon@ by {
                assert(rest[j] == ws[j]);
            }
        }
        lemma_min_horizon_after(rest, now);
        assert(now < ws[ws.len() - 1].horizon@);
    } else {
        assert(now < ws[0].horizon@);
    }
}

/// A VALID rule result carries a witness that ends after `now` and whose horizon is
/// the result's.
pub proof fn lemma_rule_result_after(acc: EvaluationView, r: RuleView, node: Seq<char>, now: nat)
    requires
        witnesses_match(acc, now),
        1 <= r.threshold,
    ensures
        (rule_result(acc, r, node).1 is Some) ==> now < rule_result(acc, r, node).1->Some_0.horizon@,
        (rule_result(acc, r, node).1 is Some) <==> (rule_result(acc, r, node).0 is Valid),
        (rule_result(acc, r, node).1 is Some) ==> rule_result(acc, r, node).0 == (AssuranceValue::Valid {
            horizon: rule_result(acc, r, node).1->Some_0.horizon,
        }),
{
    let sup = supports(acc, r.premises);
    if sup.len() >= r.threshold {
        lemma_supports_after(acc, r.premises, now);
        lemma_top_k_after(sup, r.threshold, now);
        lemma_top_k_len(sup, r.threshold);
        lemma_min_horizon_after(top_k(sup, r.threshold), now);
    }
}

/// Every candidate witness is the witness of some VALID outcome.
pub proof fn lemma_candidates_from(outs: Seq<(AssuranceValue, Option<WitnessView>)>)
    ensures
        forall|i: int|
            0 <= i < candidates(outs).len() ==> exists|j: int|
                0 <= j < outs.len() && outs[j].1 == Some(#[trigger] candidates(outs)[i]),
    decreases outs.len(),
{
    if outs.len() > 0 {
        let rest = outs.drop_last();
        lemma_candidates_from(rest);
        let c = candidates(rest);
        let all = candidates(outs);
        assert forall|i: int| 0 <= i < all.len() implies exists|j: int|
            0 <= j < outs.len() && outs[j].1 == Some(#[trigger] all[i]) by {
            if i < c.len() {
                assert(all[i] == c[i]);
                let j = choose|j: int| 0 <= j < rest.len() && rest[j].1 == Some(c[i]);
                assert(outs[j] == rest[j]);
            } else {
                assert(outs[outs.len() - 1].1 == Some(all[i]));
            }
        }
    }
}

/// After evaluating a prefix of the topological order, witnesses match values.
pub proof fn lemma_eval_upto_witnesses(g: GraphView, ev: Map<Seq<char>, EvidenceAtom>, now: nat, k: nat)
    requires
        crate::graph::graph_wf(g),
        k <= g.order.len(),
    ensures
        witnesses_match(eval_upto(g, ev, now, k), now),
    decreases k,
{
    if k > 0 {
        lemma_eval_upto_witnesses(g, ev, now, (k - 1) as nat);
        lemma_eval_upto_dom(g, ev, now, (k - 1) as nat);
        let acc = eval_upto(g, ev, now, (k - 1) as nat);
        let id = g.order[k - 1];
        assert(!acc.by_node.contains_key(id)) by {
            if g.order.take(k - 1).contains(id) {
                let j = choose|j: int| 0 <= j < k - 1 && #[trigger] g.order.take(k - 1)[j] == id;
                assert(g.order[j] == g.order[k - 1]);
            }
        }
        assert(!acc.witnesses.contains_key(id));
        assert(g.order.to_set().contains(id));
        if g.nodes[id] != NodeKind::Evidence {
            let un = crate::graph::unsupported_nodes(g.nodes, crate::graph::conclusion_index(g.rules).dom());
            assert(!un.contains(id));
            assert(g.by_conclusion.contains_key(id));
            lemma_rules_for(g, id);
            let rids = g.by_conclusion[id];
            let outs = rule_outcomes(g, acc, rids, id);
            assert forall|j: int| 0 <= j < outs.len() && (#[trigger] outs[j]).1 is Some implies now
                < outs[j].1->Some_0.horizon@ by {
                assert(g.rules.contains_key(rids[j]));
                lemma_rule_result_after(acc, g.rules[rids[j]], id, now);
            }
            let cands = candidates(outs);
            if cands.len() > 0 {
                lemma_best_index_range(cands, true);
                lemma_candidates_from(outs);
                let b = best_index(cands, true);
                let j = choose|j: int| 0 <= j < outs.len() && outs[j].1 == Some(#[trigger] cands[b]);
                assert(now < cands[b].horizon@);
            }
        }
    }
}

/// The law of witnesses: after a full evaluation at `now`, a node has a witness exactly
/// when it is VALID, its horizon is its witness's horizon, and support is exclusive
/// of its horizon, so every VALID horizon lies strictly after `now`.
pub proof fn lemma_evaluate_witnesses(g: GraphView, ev: Map<Seq<char>, EvidenceAtom>, now: nat)
    requires
        crate::graph::graph_wf(g),
    ensures
        witnesses_match(evaluate(g, ev, now), now),
{
    lemma_eval_upto_witnesses(g, ev, now, g.order.len());
}

/// Every rule that concludes a node of `s` has all of its premises in `s`.
pub open spec fn dependency_closed(g: GraphView, s: Set<Seq<char>>) -> bool {
    forall|rid: Seq<char>, i: int|
        #![trigger s.contains(g.rules[rid].conclusion), g.rules[rid].premises[i]]
        g.rules.contains_key(rid) && s.contains(g.rules[rid].conclusion) && 0 <= i
            < g.rules[rid].premises.len() ==> s.contains(g.rules[rid].premises[i])
}

/// Two results agree on node `k`: both have a value for it or neither does, and the
/// same value; both have a witness for it or neither does, and the same witness.
pub open spec fn agree_at(a: EvaluationView, b: EvaluationView, k: Seq<char>) -> bool {
    &&& a.by_node.contains_key(k) == b.by_node.contains_key(k)
    &&& a.by_node.contains_key(k) ==> a.by_node[k] == b.by_node[k]
    &&& a.witnesses.contains_key(k) == b.witnesses.contains_key(k)
    &&& a.witnesses.contains_key(k) ==> a.witnesses[k] == b.witnesses[k]
}

/// A rule reads the results only at its premises.
pub proof fn lemma_premise_reads(a: EvaluationView, b: EvaluationView, premises: Seq<Seq<char>>)
    requires
        forall|i: int|
            0 <= i < premises.len() ==> a.by_node.contains_key(#[trigger] premises[i]) && agree_at(
                a,
                b,
                premises[i],
            ),
    ensures
        supports(a, premises) == supports(b, premises),
        unknown_count(a, premises) == unknown_count(b, premises),
    decreases premises.len(),
{
    if premises.len() > 0 {
        let rest = premises.drop_last();
        assert forall|i: int| 0 <= i < rest.len() implies a.by_node.contains_key(#[trigger] rest[i])
            && agree_at(a, b, rest[i]) by {
            assert(rest[i] == premises[i]);
        }
        lemma_premise_reads(a, b, rest);
        assert(agree_at(a, b, premises[premises.len() - 1]));
        assert(a.by_node.contains_key(premises[premises.len() - 1]));
    }
}

/// After each prefix of the topological order, two evaluations that read the same
/// evidence values on a dependency-closed set agree on it.
pub proof fn lemma_eval_upto_local(
    g: GraphView,
    ev1: Map<Seq<char>, EvidenceAtom>,
    ev2: Map<Seq<char>, EvidenceAtom>,
    now: nat,
    s: Set<Seq<char>>,
    k: nat,
)
    requires
        crate::graph::graph_wf(g),
        dependency_closed(g, s),
        forall|x: Seq<char>|
            #[trigger] s.contains(x) && g.nodes.contains_key(x) && g.nodes[x] == NodeKind::Evidence
                ==> evidence_value(ev1, x, now) == evidence_value(ev2, x, now),
        k <= g.order.len(),
    ensures
        forall|x: Seq<char>| #[trigger] s.contains(x) ==> agree_at(
            eval_upto(g, ev1, now, k),
            eval_upto(g, ev2, now, k),
            x,
        ),
    decreases k,
{
    if k > 0 {
        lemma_eval_upto_local(g, ev1, ev2, now, s, (k - 1) as nat);
        lemma_eval_upto_dom(g, ev1, now, (k - 1) as nat);
        lemma_eval_upto_dom(g, ev2, now, (k - 1) as nat);
        let a = eval_upto(g, ev1, now, (k - 1) as nat);
        let b = eval_upto(g, ev2, now, (k - 1) as nat);
        let id = g.order[k - 1];
        let a2 = eval_upto(g, ev1, now, k);
        let b2 = eval_upto(g, ev2, now, k);
        assert(g.order.to_set().contains(id));
        if s.contains(id) && g.nodes[id] != NodeKind::Evidence {
            let un = crate::graph::unsupported_nodes(g.nodes, crate::graph::conclusion_index(g.rules).dom());
            assert(!un.contains(id));
            assert(g.by_conclusion.contains_key(id));
            lemma_rules_for(g, id);
            let rids = g.by_conclusion[id];
            assert forall|j: int| 0 <= j < rids.len() implies #[trigger] rule_result(
                a,
                g.rules[rids[j]],
                id,
            ) == rule_result(b, g.rules[rids[j]], id) by {
                let r = g.rules[rids[j]];
                assert(g.rules.contains_key(rids[j]));
                assert forall|i: int| 0 <= i < r.premises.len() implies a.by_node.contains_key(
                    #[trigger] r.premises[i],
                ) && agree_at(a, b, r.premises[i]) by {
                    let p = r.premises[i];
                    assert(s.contains(g.rules[rids[j]].conclusion));
                    assert(s.contains(p));
                    let dm = crate::graph::dependency_map(g.rules);
                    assert(dm.contains_key(id));
                    assert(crate::graph::dependencies(g.rules, id).contains(p));
                    assert(crate::graph::entry_or_empty(dm, id).contains(p));
                    assert(g.order.take(k - 1).to_set().contains(p));
                }
                lemma_premise_reads(a, b, r.premises);
            }
            let o1 = rule_outcomes(g, a, rids, id);
            let o2 = rule_outcomes(g, b, rids, id);
            assert(o1 =~= o2);
        }
        assert forall|x: Seq<char>| #[trigger] s.contains(x) implies agree_at(a2, b2, x) by {
            assert(agree_at(a, b, x));
            if x == id {
                if g.nodes[id] == NodeKind::Evidence {
                    assert(evidence_value(ev1, id, now) == evidence_value(ev2, id, now));
                }
            }
        }
    }
}

/// Evaluation is local: on any set of nodes closed under dependencies, values and
/// witnesses depend only on the evidence values of the evidence nodes in that set.
/// Losing or changing evidence therefore leaves every node that does not depend on it
/// exactly as it was.
pub proof fn lemma_evaluation_local(
    g: GraphView,
    ev1: Map<Seq<char>, EvidenceAtom>,
    ev2: Map<Seq<char>, EvidenceAtom>,
    now: nat,
    s: Set<Seq<char>>,
)
    requires
        crate::graph::graph_wf(g),
        dependency_closed(g, s),
        forall|x: Seq<char>|
            #[trigger] s.contains(x) && g.nodes.contains_key(x) && g.nodes[x] == NodeKind::Evidence
                ==> evidence_value(ev1, x, now) == evidence_value(ev2, x, now),
    ensures
        forall|x: Seq<char>| #[trigger] s.contains(x) ==> agree_at(
            evaluate(g, ev1, now),
            evaluate(g, ev2, now),
            x,
        ),
{
    lemma_eval_upto_local(g, ev1, ev2, now, s, g.order.len());
}

/// How many premises are VALID.
pub open spec fn valid_count(acc: EvaluationView, premises: Seq<Seq<char>>) -> nat
    decreases premises.len(),
{
    if premises.len() == 0 {
        0
    } else {
        valid_count(acc, premises.drop_last()) + if acc.by_node[premises.last()] is Valid {
            1nat
        } else {
            0nat
        }
    }
}

/// Where witnesses match values, the premise witnesses are one per VALID premise.
pub proof fn lemma_supports_count(acc: EvaluationView, premises: Seq<Seq<char>>, now: nat)
    requires
        witnesses_match(acc, now),
        forall|i: int| 0 <= i < premises.len() ==> acc.by_node.contains_key(#[trigger] premises[i]),
    ensures
        supports(acc, premises).len() == valid_count(acc, premises),
    decreases premises.len(),
{
    if premises.len() > 0 {
        let rest = premises.drop_last();
        assert forall|i: int| 0 <= i < rest.len() implies acc.by_node.contains_key(#[trigger] rest[i]) by {
            assert(rest[i] == premises[i]);
        }
        lemma_supports_count(acc, rest, now);
        assert(acc.by_node.contains_key(premises[premises.len() - 1]));
    }
}

/// The threshold rule in strong three-valued logic: with `v` VALID and `u` UNKNOWN
/// premises, a rule with threshold `k` is VALID when `v >= k`, INVALID when even
/// `v + u < k`, and UNKNOWN otherwise.
pub proof fn lemma_threshold_rule(acc: EvaluationView, r: RuleView, node: Seq<char>, now: nat)
    requires
        witnesses_match(acc, now),
        forall|i: int| 0 <= i < r.premises.len() ==> acc.by_node.contains_key(#[trigger] r.premises[i]),
    ensures
        (rule_result(acc, r, node).0 is Valid) <==> valid_count(acc, r.premises) >= r.threshold,
        (rule_result(acc, r, node).0 == AssuranceValue::Invalid) <==> valid_count(acc, r.premises)
            + unknown_count(acc, r.premises) < r.threshold,
        (rule_result(acc, r, node).0 == AssuranceValue::Unknown) <==> (valid_count(acc, r.premises)
            < r.threshold && valid_count(acc, r.premises) + unknown_count(acc, r.premises)
            >= r.threshold),
{
    lemma_supports_count(acc, r.premises, now);
}

/// Once evaluated, an evidence node keeps the value of its observation.
pub proof fn lemma_eval_upto_evidence(
    g: GraphView,
    ev: Map<Seq<char>, EvidenceAtom>,
    now: nat,
    k: nat,
    id: Seq<char>,
)
    requires
        crate::graph::graph_wf(g),
        k <= g.order.len(),
        g.nodes.contains_key(id),
        g.nodes[id] == NodeKind::Evidence,
        g.order.take(k as int).contains(id),
    ensures
        eval_upto(g, ev, now, k).by_node[id] == evidence_value(ev, id, now),
    decreases k,
{
    let last = g.order[k - 1];
    if last != id {
        let j = choose|j: int| 0 <= j < k && #[trigger] g.order.take(k as int)[j] == id;
        assert(g.order.take(k - 1)[j] == id);
        lemma_eval_upto_evidence(g, ev, now, (k - 1) as nat, id);
    }
}

/// An evidence node evaluates to the value of its observation: UNKNOWN when it is
/// missing, filed under another identity, or from the future; otherwise its status,
/// with VALID lasting only until its deadline.
pub proof fn lemma_evidence_node_value(
    g: GraphView,
    ev: Map<Seq<char>, EvidenceAtom>,
    now: nat,
    id: Seq<char>,
)
    requires
        crate::graph::graph_wf(g),
        g.nodes.contains_key(id),
        g.nodes[id] == NodeKind::Evidence,
    ensures
        evaluate(g, ev, now).by_node[id] == evidence_value(ev, id, now),
{
    assert(g.order.to_set().contains(id));
    assert(g.order.take(g.order.len() as int) =~= g.order);
    lemma_eval_upto_evidence(g, ev, now, g.order.len(), id);
}

/// Until when a value supports its node: its horizon when VALID, else zero.
pub open spec fn support_end(v: AssuranceValue) -> nat {
    match v {
        AssuranceValue::Valid { horizon } => horizon@,
        _ => 0,
    }
}

/// A witness is explained by current evidence: every evidence node it cites is VALID
/// now and supported until no earlier than the witness's horizon, and one of them is
/// supported until exactly that horizon.
pub open spec fn witness_sound(ev: Map<Seq<char>, EvidenceAtom>, now: nat, w: WitnessView) -> bool {
    &&& forall|e: Seq<char>|
        #[trigger] w.evidence_ids.contains(e) ==> evidence_value(ev, e, now) is Valid && w.horizon@
            <= support_end(evidence_value(ev, e, now))
    &&& exists|e: Seq<char>|
        #[trigger] w.evidence_ids.contains(e) && support_end(evidence_value(ev, e, now))
            == w.horizon@
}

/// Every witness in the results is explained by current evidence.
pub open spec fn witnesses_sound(acc: EvaluationView, ev: Map<Seq<char>, EvidenceAtom>, now: nat) -> bool {
    forall|k: Seq<char>| #[trigger] acc.witnesses.contains_key(k) ==> witness_sound(ev, now, acc.witnesses[k])
}

/// `w` is the witness of some node in the results.
pub open spec fn is_result_witness(acc: EvaluationView, w: WitnessView) -> bool {
    exists|k: Seq<char>| acc.witnesses.contains_key(k) && acc.witnesses[k] == w
}

/// Every premise witness is a witness of the results.
pub proof fn lemma_supports_members(acc: EvaluationView, premises: Seq<Seq<char>>)
    ensures
        forall|i: int|
            0 <= i < supports(acc, premises).len() ==> is_result_witness(
                acc,
                #[trigger] supports(acc, premises)[i],
            ),
    decreases premises.len(),
{
    if premises.len() > 0 {
        let rest = premises.drop_last();
        lemma_supports_members(acc, rest);
        let s0 = supports(acc, rest);
        let s1 = supports(acc, premises);
        assert forall|i: int| 0 <= i < s1.len() implies is_result_witness(acc, #[trigger] s1[i]) by {
            if i < s0.len() {
                assert(s1[i] == s0[i]);
                assert(is_result_witness(acc, s0[i]));
            } else {
                let k = premises.last();
                assert(acc.witnesses.contains_key(k));
                assert(s1 == s0.push(acc.witnesses[k]));
                assert(acc.witnesses.contains_key(k) && acc.witnesses[k] == s1[i]);
            }
        }
    }
}

/// The selected witnesses are among those offered.
pub proof fn lemma_top_k_members(s: Seq<WitnessView>, k: nat)
    ensures
        forall|i: int| 0 <= i < top_k(s, k).len() ==> s.contains(#[trigger] top_k(s, k)[i]),
    decreases k,
{
    if k > 0 && s.len() > 0 {
        lemma_best_index_range(s, false);
        let i = best_index(s, false);
        let rest = s.remove(i);
        lemma_top_k_members(rest, (k - 1) as nat);
        let t = top_k(s, k);
        assert forall|j: int| 0 <= j < t.len() implies s.contains(#[trigger] t[j]) by {
            if j == 0 {
                assert(t[0] == s[i]);
            } else {
                let x = t[j];
                assert(x == top_k(rest, (k - 1) as nat)[j - 1]);
                assert(rest.contains(x));
                let m = choose|m: int| 0 <= m < rest.len() && rest[m] == x;
                if m < i {
                    assert(s[m] == x);
                } else {
                    assert(s[m + 1] == x);
                }
            }
        }
    }
}

/// The evidence of a union of witnesses is the evidence of its members.
pub proof fn lemma_union_evidence(ws: Seq<WitnessView>)
    ensures
        forall|e: Seq<char>|
            #[trigger] union_evidence(ws).contains(e) ==> exists|j: int|
                0 <= j < ws.len() && ws[j].evidence_ids.contains(e),
        forall|j: int, e: Seq<char>|
            0 <= j < ws.len() && #[trigger] ws[j].evidence_ids.contains(e) ==> union_evidence(
                ws,
            ).contains(e),
    decreases ws.len(),
{
    if ws.len() > 0 {
        let rest = ws.drop_last();
        lemma_union_evidence(rest);
        assert forall|e: Seq<char>| #[trigger] union_evidence(ws).contains(e) implies exists|j: int|
            0 <= j < ws.len() && ws[j].evidence_ids.contains(e) by {
            if union_evidence(rest).contains(e) {
                let j = choose|j: int| 0 <= j < rest.len() && rest[j].evidence_ids.contains(e);
                assert(ws[j] == rest[j]);
            } else {
                assert(ws[ws.len() - 1].evidence_ids.contains(e));
            }
        }
        assert forall|j: int, e: Seq<char>|
            0 <= j < ws.len() && #[trigger] ws[j].evidence_ids.contains(e) implies union_evidence(
            ws,
        ).contains(e) by {
            if j < ws.len() - 1 {
                assert(rest[j] == ws[j]);
            }
        }
    }
}

/// The earliest horizon is one of the horizons and no later than any of them.
pub proof fn lemma_min_horizon(ws: Seq<WitnessView>)
    requires
        ws.len() > 0,
    ensures
        forall|j: int| 0 <= j < ws.len() ==> min_horizon(ws)@ <= (#[trigger] ws[j]).horizon@,
        exists|j: int| 0 <= j < ws.len() && min_horizon(ws) == (#[trigger] ws[j]).horizon,
    decreases ws.len(),
{
    if ws.len() > 1 {
        let rest = ws.drop_last();
        lemma_min_horizon(rest);
        assert forall|j: int| 0 <= j < ws.len() implies min_horizon(ws)@ <= (#[trigger] ws[j]).horizon@ by {
            if j < ws.len() - 1 {
                assert(rest[j] == ws[j]);
            }
        }
        if ws.last().horizon@ < min_horizon(rest)@ {
            assert(min_horizon(ws) == ws[ws.len() - 1].horizon);
        } else {
            let j = choose|j: int| 0 <= j < rest.len() && min_horizon(rest) == (#[trigger] rest[j]).horizon;
            assert(min_horizon(ws) == ws[j].horizon);
        }
    } else {
        assert(min_horizon(ws) == ws[0].horizon);
    }
}

/// A VALID rule result's witness is explained by current evidence.
pub proof fn lemma_rule_result_sound(
    ev: Map<Seq<char>, EvidenceAtom>,
    now: nat,
    acc: EvaluationView,
    r: RuleView,
    node: Seq<char>,
)
    requires
        witnesses_sound(acc, ev, now),
        1 <= r.threshold,
    ensures
        (rule_result(acc, r, node).1 is Some) ==> witness_sound(ev, now, rule_result(acc, r, node).1->Some_0),
{
    let sup = supports(acc, r.premises);
    if sup.len() >= r.threshold {
        let sel = top_k(sup, r.threshold);
        lemma_top_k_len(sup, r.threshold);
        lemma_top_k_members(sup, r.threshold);
        lemma_supports_members(acc, r.premises);
        lemma_union_evidence(sel);
        lemma_min_horizon(sel);
        assert forall|j: int| 0 <= j < sel.len() implies witness_sound(ev, now, #[trigger] sel[j]) by {
            assert(sup.contains(sel[j]));
            let i = choose|i: int| 0 <= i < sup.len() && sup[i] == sel[j];
            assert(is_result_witness(acc, sup[i]));
            let k = choose|k: Seq<char>| acc.witnesses.contains_key(k) && acc.witnesses[k] == sup[i];
        }
        let w = rule_result(acc, r, node).1->Some_0;
        let h = min_horizon(sel);
        assert forall|e: Seq<char>| #[trigger] w.evidence_ids.contains(e) implies evidence_value(
            ev,
            e,
            now,
        ) is Valid && w.horizon@ <= support_end(evidence_value(ev, e, now)) by {
            let j = choose|j: int| 0 <= j < sel.len() && sel[j].evidence_ids.contains(e);
            assert(witness_sound(ev, now, sel[j]));
            assert(h@ <= sel[j].horizon@);
        }
        let jm = choose|j: int| 0 <= j < sel.len() && min_horizon(sel) == (#[trigger] sel[j]).horizon;
        assert(witness_sound(ev, now, sel[jm]));
        let em = choose|e: Seq<char>| #[trigger] sel[jm].evidence_ids.contains(e) && support_end(
            evidence_value(ev, e, now),
        ) == sel[jm].horizon@;
        assert(w.evidence_ids.contains(em));
    }
}

/// After evaluating a prefix of the topological order, every witness is explained by
/// current evidence.
pub proof fn lemma_eval_upto_sound(g: GraphView, ev: Map<Seq<char>, EvidenceAtom>, now: nat, k: nat)
    requires
        crate::graph::graph_wf(g),
        k <= g.order.len(),
    ensures
        witnesses_sound(eval_upto(g, ev, now, k), ev, now),
    decreases k,
{
    if k > 0 {
        lemma_eval_upto_sound(g, ev, now, (k - 1) as nat);
        let acc = eval_upto(g, ev, now, (k - 1) as nat);
        let id = g.order[k - 1];
        assert(g.order.to_set().contains(id));
        if g.nodes[id] == NodeKind::Evidence {
            let v = evidence_value(ev, id, now);
            if v is Valid {
                let w = atomic_witness(id, v->horizon);
                assert(w.evidence_ids.contains(id));
                assert forall|e: Seq<char>| #[trigger] w.evidence_ids.contains(e) implies e == id by {}
                assert(witness_sound(ev, now, w));
            }
        } else {
            let un = crate::graph::unsupported_nodes(g.nodes, crate::graph::conclusion_index(g.rules).dom());
            assert(!un.contains(id));
            assert(g.by_conclusion.contains_key(id));
            lemma_rules_for(g, id);
            let rids = g.by_conclusion[id];
            let outs = rule_outcomes(g, acc, rids, id);
            let cands = candidates(outs);
            if cands.len() > 0 {
                lemma_best_index_range(cands, true);
                lemma_candidates_from(outs);
                let b = best_index(cands, true);
                let j = choose|j: int| 0 <= j < outs.len() && outs[j].1 == Some(#[trigger] cands[b]);
                assert(g.rules.contains_key(rids[j]));
                lemma_rule_result_sound(ev, now, acc, g.rules[rids[j]], id);
                assert(outs[j] == rule_result(acc, g.rules[rids[j]], id));
            }
        }
    }
}

/// Witnesses explain their horizons from current evidence: after a full evaluation,
/// every evidence node a witness cites is VALID now and supported at least until the
/// witness's horizon, and the horizon is exactly when the first of them expires.
pub proof fn lemma_evaluate_witnesses_sound(g: GraphView, ev: Map<Seq<char>, EvidenceAtom>, now: nat)
    requires
        crate::graph::graph_wf(g),
    ensures
        witnesses_sound(evaluate(g, ev, now), ev, now),
{
    lemma_eval_upto_sound(g, ev, now, g.order.len());
}

/// How many of the witnesses last beyond `t`.
pub open spec fn count_after(ws: Seq<WitnessView>, t: nat) -> nat
    decreases ws.len(),
{
    if ws.len() == 0 {
        0
    } else {
        count_after(ws.drop_last(), t) + if t < ws.last().horizon@ {
            1nat
        } else {
            0nat
        }
    }
}

/// Removing one witness removes it from the count.
pub proof fn lemma_count_after_remove(s: Seq<WitnessView>, i: int, t: nat)
    requires
        0 <= i < s.len(),
    ensures
        count_after(s, t) == count_after(s.remove(i), t) + if t < s[i].horizon@ {
            1int
        } else {
            0int
        },
    decreases s.len(),
{
    if i < s.len() - 1 {
        let d = s.drop_last();
        lemma_count_after_remove(d, i, t);
        assert(s.remove(i).drop_last() =~= d.remove(i));
        assert(s.remove(i).last() == s.last());
    } else {
        assert(s.remove(i) =~= s.drop_last());
    }
}

/// If the `k` selected witnesses all last beyond `t`, at least `k` offered ones do.
pub proof fn lemma_top_k_count(s: Seq<WitnessView>, k: nat, t: nat)
    requires
        k <= s.len(),
        all_after(top_k(s, k), t),
    ensures
        k <= count_after(s, t),
    decreases k,
{
    if k > 0 {
        lemma_best_index_range(s, false);
        let i = best_index(s, false);
        let rest = s.remove(i);
        let top = top_k(s, k);
        assert(top[0] == s[i]);
        assert(all_after(top_k(rest, (k - 1) as nat), t)) by {
            let r = top_k(rest, (k - 1) as nat);
            assert forall|j: int| 0 <= j < r.len() implies t < (#[trigger] r[j]).horizon@ by {
                assert(top[j + 1] == r[j]);
            }
        }
        lemma_top_k_count(rest, (k - 1) as nat, t);
        lemma_count_after_remove(s, i, t);
    }
}

/// How many premises have a witness that lasts beyond `t`.
pub open spec fn lasting_count(acc: EvaluationView, premises: Seq<Seq<char>>, t: nat) -> nat
    decreases premises.len(),
{
    if premises.len() == 0 {
        0
    } else {
        lasting_count(acc, premises.drop_last(), t) + if acc.witnesses.contains_key(premises.last())
            && t < acc.witnesses[premises.last()].horizon@ {
            1nat
        } else {
            0nat
        }
    }
}

/// The premise witnesses that last beyond `t` are those of the premises that do.
pub proof fn lemma_supports_lasting(acc: EvaluationView, premises: Seq<Seq<char>>, t: nat)
    ensures
        count_after(supports(acc, premises), t) == lasting_count(acc, premises, t),
    decreases premises.len(),
{
    if premises.len() > 0 {
        lemma_supports_lasting(acc, premises.drop_last(), t);
        let s0 = supports(acc, premises.drop_last());
        if acc.witnesses.contains_key(premises.last()) {
            assert(s0.push(acc.witnesses[premises.last()]).drop_last() =~= s0);
        }
    }
}

/// Premises whose witnesses last beyond `t` in `a` and are VALID in `b` give `b` at
/// least as many premise witnesses.
pub proof fn lemma_lasting_supported(
    a: EvaluationView,
    b: EvaluationView,
    premises: Seq<Seq<char>>,
    t: nat,
)
    requires
        forall|i: int|
            0 <= i < premises.len() && a.witnesses.contains_key(#[trigger] premises[i]) && t
                < a.witnesses[premises[i]].horizon@ ==> b.witnesses.contains_key(premises[i]),
    ensures
        lasting_count(a, premises, t) <= supports(b, premises).len(),
    decreases premises.len(),
{
    if premises.len() > 0 {
        let rest = premises.drop_last();
        assert forall|i: int|
            0 <= i < rest.len() && a.witnesses.contains_key(#[trigger] rest[i]) && t
                < a.witnesses[rest[i]].horizon@ implies b.witnesses.contains_key(rest[i]) by {
            assert(rest[i] == premises[i]);
        }
        lemma_lasting_supported(a, b, rest, t);
        let x = premises[premises.len() - 1];
        assert(x == premises.last());
    }
}

/// A VALID rule stays VALID at a later instant before its horizon when every premise
/// whose witness lasts that long is still VALID then.
pub proof fn lemma_rule_result_lasts(
    a: EvaluationView,
    b: EvaluationView,
    r: RuleView,
    node: Seq<char>,
    t: nat,
)
    requires
        1 <= r.threshold,
        rule_result(a, r, node).1 is Some,
        t < rule_result(a, r, node).1->Some_0.horizon@,
        forall|i: int|
            0 <= i < r.premises.len() && a.witnesses.contains_key(#[trigger] r.premises[i]) && t
                < a.witnesses[r.premises[i]].horizon@ ==> b.witnesses.contains_key(r.premises[i]),
    ensures
        rule_result(b, r, node).1 is Some,
{
    let sup = supports(a, r.premises);
    let sel = top_k(sup, r.threshold);
    lemma_top_k_len(sup, r.threshold);
    lemma_min_horizon(sel);
    assert(all_after(sel, t)) by {
        assert forall|j: int| 0 <= j < sel.len() implies t < (#[trigger] sel[j]).horizon@ by {
            assert(min_horizon(sel)@ <= sel[j].horizon@);
        }
    }
    lemma_top_k_count(sup, r.threshold, t);
    lemma_supports_lasting(a, r.premises, t);
    lemma_lasting_supported(a, b, r.premises, t);
}

/// After each prefix of the topological order, every witness found at `now` whose
/// horizon lies beyond `t` is found again at `t`.
pub proof fn lemma_eval_upto_lasts(
    g: GraphView,
    ev: Map<Seq<char>, EvidenceAtom>,
    now: nat,
    t: nat,
    k: nat,
)
    requires
        crate::graph::graph_wf(g),
        now <= t,
        k <= g.order.len(),
    ensures
        forall|x: Seq<char>|
            #[trigger] eval_upto(g, ev, now, k).witnesses.contains_key(x) && t < eval_upto(
                g,
                ev,
                now,
                k,
            ).witnesses[x].horizon@ ==> eval_upto(g, ev, t, k).witnesses.contains_key(x),
    decreases k,
{
    if k > 0 {
        lemma_eval_upto_lasts(g, ev, now, t, (k - 1) as nat);
        lemma_eval_upto_witnesses(g, ev, now, (k - 1) as nat);
        let a = eval_upto(g, ev, now, (k - 1) as nat);
        let b = eval_upto(g, ev, t, (k - 1) as nat);
        let a2 = eval_upto(g, ev, now, k);
        let b2 = eval_upto(g, ev, t, k);
        let id = g.order[k - 1];
        assert(g.order.to_set().contains(id));
        if g.nodes[id] == NodeKind::Evidence {
            assert(a2.witnesses.contains_key(id) && t < a2.witnesses[id].horizon@ ==> b2.witnesses.contains_key(id));
        } else {
            let un = crate::graph::unsupported_nodes(g.nodes, crate::graph::conclusion_index(g.rules).dom());
            assert(!un.contains(id));
            assert(g.by_conclusion.contains_key(id));
            lemma_rules_for(g, id);
            let rids = g.by_conclusion[id];
            let oa = rule_outcomes(g, a, rids, id);
            let ob = rule_outcomes(g, b, rids, id);
            let ca = candidates(oa);
            if ca.len() > 0 && t < ca[best_index(ca, true)].horizon@ {
                lemma_best_index_range(ca, true);
                lemma_candidates_from(oa);
                let bi = best_index(ca, true);
                let j = choose|j: int| 0 <= j < oa.len() && oa[j].1 == Some(#[trigger] ca[bi]);
                let r = g.rules[rids[j]];
                assert(g.rules.contains_key(rids[j]));
                assert(oa[j] == rule_result(a, r, id));
                lemma_rule_result_lasts(a, b, r, id, t);
                assert(ob[j] == rule_result(b, r, id));
                lemma_candidates_nonempty(ob, j);
            }
        }
    }
}

/// An outcome with a witness makes the candidates nonempty.
pub proof fn lemma_candidates_nonempty(outs: Seq<(AssuranceValue, Option<WitnessView>)>, j: int)
    requires
        0 <= j < outs.len(),
        outs[j].1 is Some,
    ensures
        candidates(outs).len() > 0,
    decreases outs.len(),
{
    if j < outs.len() - 1 {
        assert(outs.drop_last()[j] == outs[j]);
        lemma_candidates_nonempty(outs.drop_last(), j);
    }
}

/// Support lasts until its horizon: absent new observations, a node that is VALID at
/// `now` with horizon `h` is still VALID at every instant from `now` up to, but not
/// including, `h`.
pub proof fn lemma_support_lasts(
    g: GraphView,
    ev: Map<Seq<char>, EvidenceAtom>,
    now: nat,
    t: nat,
    x: Seq<char>,
)
    requires
        crate::graph::graph_wf(g),
        now <= t,
        evaluate(g, ev, now).by_node.contains_key(x),
        evaluate(g, ev, now).by_node[x] is Valid,
        t < support_end(evaluate(g, ev, now).by_node[x]),
    ensures
        evaluate(g, ev, t).by_node[x] is Valid,
{
    lemma_evaluate_witnesses(g, ev, now);
    lemma_evaluate_witnesses(g, ev, t);
    lemma_eval_upto_lasts(g, ev, now, t, g.order.len());
}

/// The witnesses that last beyond `t`, in order.
pub open spec fn keep_after(ws: Seq<WitnessView>, t: nat) -> Seq<WitnessView>
    decreases ws.len(),
{
    if ws.len() == 0 {
        Seq::empty()
    } else {
        let d = keep_after(ws.drop_last(), t);
        if t < ws.last().horizon@ {
            d.push(ws.last())
        } else {
            d
        }
    }
}

/// The most preferred witness has the latest horizon.
pub proof fn lemma_best_max_horizon(s: Seq<WitnessView>, by_rule: bool)
    requires
        s.len() > 0,
    ensures
        forall|j: int| 0 <= j < s.len() ==> (#[trigger] s[j]).horizon@ <= s[best_index(s, by_rule)].horizon@,
    decreases s.len(),
{
    lemma_best_index_range(s, by_rule);
    if s.len() > 1 {
        let d = s.drop_last();
        lemma_best_max_horizon(d, by_rule);
        lemma_best_index_range(d, by_rule);
        let i0 = best_index(d, by_rule);
        assert forall|j: int| 0 <= j < s.len() implies (#[trigger] s[j]).horizon@ <= s[best_index(
            s,
            by_rule,
        )].horizon@ by {
            if j < s.len() - 1 {
                assert(s[j] == d[j]);
            }
            assert(s[i0] == d[i0]);
        }
    }
}

/// The kept witnesses last beyond `t`, are among those given, and are no more.
pub proof fn lemma_keep_members(s: Seq<WitnessView>, t: nat)
    ensures
        keep_after(s, t).len() == count_after(s, t),
        keep_after(s, t).len() <= s.len(),
        forall|a: int|
            0 <= a < keep_after(s, t).len() ==> t < (#[trigger] keep_after(s, t)[a]).horizon@
                && s.contains(keep_after(s, t)[a]),
    decreases s.len(),
{
    if s.len() > 0 {
        let d = s.drop_last();
        lemma_keep_members(d, t);
        let k = keep_after(s, t);
        let kd = keep_after(d, t);
        assert forall|a: int| 0 <= a < k.len() implies t < (#[trigger] k[a]).horizon@ && s.contains(k[a]) by {
            if a < kd.len() {
                assert(k[a] == kd[a]);
                let j = choose|j: int| 0 <= j < d.len() && d[j] == kd[a];
                assert(s[j] == d[j]);
            } else {
                assert(k[a] == s[s.len() - 1]);
            }
        }
    }
}

/// A kept witness sits in the kept sequence after the kept witnesses before it.
pub proof fn lemma_keep_index(s: Seq<WitnessView>, t: nat, i: int)
    requires
        0 <= i < s.len(),
        t < s[i].horizon@,
    ensures
        keep_after(s.take(i), t).len() < keep_after(s, t).len(),
        keep_after(s, t)[keep_after(s.take(i), t).len() as int] == s[i],
    decreases s.len(),
{
    let d = s.drop_last();
    if i == s.len() - 1 {
        assert(s.take(i) =~= d);
    } else {
        assert(s.take(i) =~= d.take(i));
        assert(d[i] == s[i]);
        lemma_keep_index(d, t, i);
    }
}

/// Removing a kept witness and then keeping is keeping and then removing it.
pub proof fn lemma_keep_remove(s: Seq<WitnessView>, t: nat, i: int)
    requires
        0 <= i < s.len(),
        t < s[i].horizon@,
    ensures
        keep_after(s.remove(i), t) == keep_after(s, t).remove(keep_after(s.take(i), t).len() as int),
    decreases s.len(),
{
    let d = s.drop_last();
    let x = s.last();
    if i == s.len() - 1 {
        assert(s.remove(i) =~= d);
        assert(s.take(i) =~= d);
        assert(keep_after(s, t) == keep_after(d, t).push(x));
        assert(keep_after(s, t).remove(keep_after(d, t).len() as int) =~= keep_after(d, t));
    } else {
        assert(d[i] == s[i]);
        lemma_keep_remove(d, t, i);
        lemma_keep_index(d, t, i);
        assert(s.take(i) =~= d.take(i));
        let j = keep_after(d.take(i), t).len() as int;
        assert(s.remove(i).drop_last() =~= d.remove(i));
        assert(s.remove(i).last() == x);
        if t < x.horizon@ {
            assert(keep_after(s, t).remove(j) =~= keep_after(d, t).remove(j).push(x));
        } else {
            assert(keep_after(s, t).remove(j) =~= keep_after(d, t).remove(j));
        }
    }
}

/// When the most preferred witness lasts beyond `t`, it stays the most preferred
/// among the witnesses that do.
pub proof fn lemma_best_keep(s: Seq<WitnessView>, t: nat, by_rule: bool)
    requires
        s.len() > 0,
        t < s[best_index(s, by_rule)].horizon@,
    ensures
        best_index(keep_after(s, t), by_rule) == keep_after(s.take(best_index(s, by_rule)), t).len(),
    decreases s.len(),
{
    lemma_best_index_range(s, by_rule);
    let i = best_index(s, by_rule);
    if s.len() == 1 {
        assert(s.take(0) =~= Seq::<WitnessView>::empty());
        assert(keep_after(s.take(0), t) == Seq::<WitnessView>::empty());
        assert(s.drop_last() =~= Seq::<WitnessView>::empty());
        assert(keep_after(s.drop_last(), t) == Seq::<WitnessView>::empty());
        assert(s.last() == s[0]);
        assert(keep_after(s, t) =~= Seq::<WitnessView>::empty().push(s[0]));
    } else {
        let d = s.drop_last();
        let x = s.last();
        lemma_best_index_range(d, by_rule);
        let i0 = best_index(d, by_rule);
        let kd = keep_after(d, t);
        if ranks_before(x, d[i0], by_rule) {
            assert(i == s.len() - 1);
            assert(s.take(i) =~= d);
            assert(keep_after(s, t) == kd.push(x));
            if kd.len() > 0 {
                lemma_best_index_range(kd, by_rule);
                let b = best_index(kd, by_rule);
                if t < d[i0].horizon@ {
                    lemma_best_keep(d, t, by_rule);
                    lemma_keep_index(d, t, i0);
                    assert(kd.push(x).drop_last() =~= kd);
                } else {
                    lemma_keep_members(d, t);
                    lemma_best_max_horizon(d, by_rule);
                    let y = kd[0];
                    let j = choose|j: int| 0 <= j < d.len() && d[j] == y;
                    assert(false);
                }
            }
        } else {
            assert(i == i0);
            assert(s.take(i) =~= d.take(i));
            assert(d[i0] == s[i]);
            lemma_best_keep(d, t, by_rule);
            lemma_keep_index(d, t, i0);
            if t < x.horizon@ {
                assert(keep_after(s, t).drop_last() =~= kd);
            }
        }
    }
}

/// Selecting among the witnesses that last beyond `t` selects the same witnesses when
/// all the selected ones last beyond `t`.
pub proof fn lemma_top_k_keep(s: Seq<WitnessView>, k: nat, t: nat)
    requires
        all_after(top_k(s, k), t),
    ensures
        top_k(keep_after(s, t), k) == top_k(s, k),
    decreases k,
{
    if k == 0 {
    } else if s.len() == 0 {
        assert(keep_after(s, t) =~= Seq::<WitnessView>::empty());
    } else {
        lemma_best_index_range(s, false);
        let i = best_index(s, false);
        let top = top_k(s, k);
        assert(top[0] == s[i]);
        let rest = s.remove(i);
        assert(all_after(top_k(rest, (k - 1) as nat), t)) by {
            let r = top_k(rest, (k - 1) as nat);
            assert forall|j: int| 0 <= j < r.len() implies t < (#[trigger] r[j]).horizon@ by {
                assert(top[j + 1] == r[j]);
            }
        }
        lemma_top_k_keep(rest, (k - 1) as nat, t);
        lemma_keep_index(s, t, i);
        lemma_best_keep(s, t, false);
        lemma_keep_remove(s, t, i);
        let ks = keep_after(s, t);
        assert(top_k(ks, k) =~= top);
    }
}

/// Some witness lasts beyond `t` when any is counted.
pub proof fn lemma_count_after_some(s: Seq<WitnessView>, t: nat)
    requires
        0 < count_after(s, t),
    ensures
        exists|j: int| 0 <= j < s.len() && t < (#[trigger] s[j]).horizon@,
    decreases s.len(),
{
    let d = s.drop_last();
    if t < s.last().horizon@ {
        assert(t < s[s.len() - 1].horizon@);
    } else {
        lemma_count_after_some(d, t);
        let j = choose|j: int| 0 <= j < d.len() && t < (#[trigger] d[j]).horizon@;
        assert(s[j] == d[j]);
    }
}

/// When at least `k` witnesses last beyond `t`, so do the `k` selected.
pub proof fn lemma_top_k_after_count(s: Seq<WitnessView>, k: nat, t: nat)
    requires
        k <= count_after(s, t),
    ensures
        all_after(top_k(s, k), t),
    decreases k,
{
    if k > 0 && s.len() > 0 {
        lemma_best_index_range(s, false);
        let i = best_index(s, false);
        lemma_best_max_horizon(s, false);
        lemma_count_after_some(s, t);
        let j = choose|j: int| 0 <= j < s.len() && t < (#[trigger] s[j]).horizon@;
        assert(t < s[i].horizon@);
        let rest = s.remove(i);
        lemma_count_after_remove(s, i, t);
        lemma_top_k_after_count(rest, (k - 1) as nat, t);
        let top = top_k(s, k);
        assert forall|a: int| 0 <= a < top.len() implies t < (#[trigger] top[a]).horizon@ by {
            if a > 0 {
                assert(top[a] == top_k(rest, (k - 1) as nat)[a - 1]);
            }
        }
    }
}

/// What a value becomes later, at `t`, without new observations: VALID support turns
/// UNKNOWN once its horizon is reached; every other value stays.
pub open spec fn later_value(v: AssuranceValue, t: nat) -> AssuranceValue {
    match v {
        AssuranceValue::Valid { horizon } => if t < horizon@ {
            v
        } else {
            AssuranceValue::Unknown
        },
        _ => v,
    }
}

/// Node `x` of `a` is found in `b` as it stands later, at `t`: with the later value,
/// and with the same witness while its support lasts.
pub open spec fn later_at(a: EvaluationView, b: EvaluationView, x: Seq<char>, t: nat) -> bool {
    &&& b.by_node.contains_key(x)
    &&& b.by_node[x] == later_value(a.by_node[x], t)
    &&& (a.by_node[x] is Valid && t < support_end(a.by_node[x])) ==> b.witnesses[x] == a.witnesses[x]
}

/// The premise witnesses later are those earlier that last, and every premise that
/// loses its support counts as UNKNOWN instead.
pub proof fn lemma_supports_later(
    a: EvaluationView,
    b: EvaluationView,
    premises: Seq<Seq<char>>,
    t1: nat,
    t2: nat,
)
    requires
        witnesses_match(a, t1),
        witnesses_match(b, t2),
        forall|i: int|
            0 <= i < premises.len() ==> a.by_node.contains_key(#[trigger] premises[i]) && later_at(
                a,
                b,
                premises[i],
                t2,
            ),
    ensures
        supports(b, premises) == keep_after(supports(a, premises), t2),
        supports(b, premises).len() + unknown_count(b, premises) == supports(a, premises).len()
            + unknown_count(a, premises),
    decreases premises.len(),
{
    if premises.len() > 0 {
        let rest = premises.drop_last();
        assert forall|i: int| 0 <= i < rest.len() implies a.by_node.contains_key(#[trigger] rest[i])
            && later_at(a, b, rest[i], t2) by {
            assert(rest[i] == premises[i]);
        }
        lemma_supports_later(a, b, rest, t1, t2);
        let p = premises.last();
        assert(premises[premises.len() - 1] == p);
        assert(a.by_node.contains_key(p) && later_at(a, b, p, t2));
        let sa = supports(a, rest);
        if a.witnesses.contains_key(p) {
            assert(sa.push(a.witnesses[p]).drop_last() =~= sa);
        }
    }
}

/// A rule's value later is its earlier value as it stands then, and while its support
/// lasts it keeps the same witness.
pub proof fn lemma_rule_later(
    a: EvaluationView,
    b: EvaluationView,
    r: RuleView,
    node: Seq<char>,
    t1: nat,
    t2: nat,
)
    requires
        witnesses_match(a, t1),
        witnesses_match(b, t2),
        1 <= r.threshold,
        forall|i: int|
            0 <= i < r.premises.len() ==> a.by_node.contains_key(#[trigger] r.premises[i]) && later_at(
                a,
                b,
                r.premises[i],
                t2,
            ),
    ensures
        rule_result(b, r, node).0 == later_value(rule_result(a, r, node).0, t2),
        (rule_result(a, r, node).0 is Valid && t2 < support_end(rule_result(a, r, node).0))
            ==> rule_result(b, r, node).1 == rule_result(a, r, node).1,
{
    lemma_supports_later(a, b, r.premises, t1, t2);
    let sa = supports(a, r.premises);
    let sb = supports(b, r.premises);
    lemma_keep_members(sa, t2);
    let k = r.threshold;
    if sa.len() >= k {
        let sel = top_k(sa, k);
        lemma_top_k_len(sa, k);
        lemma_min_horizon(sel);
        let h = min_horizon(sel);
        if t2 < h@ {
            assert(all_after(sel, t2)) by {
                assert forall|j: int| 0 <= j < sel.len() implies t2 < (#[trigger] sel[j]).horizon@ by {
                    assert(h@ <= sel[j].horizon@);
                }
            }
            lemma_top_k_count(sa, k, t2);
            lemma_top_k_keep(sa, k, t2);
        } else {
            if k <= count_after(sa, t2) {
                lemma_top_k_after_count(sa, k, t2);
                let j = choose|j: int| 0 <= j < sel.len() && min_horizon(sel) == (#[trigger] sel[j]).horizon;
                assert(t2 < sel[j].horizon@);
            }
        }
    }
}

/// The candidate witnesses later are those earlier that last.
pub proof fn lemma_candidates_later(
    oa: Seq<(AssuranceValue, Option<WitnessView>)>,
    ob: Seq<(AssuranceValue, Option<WitnessView>)>,
    t: nat,
)
    requires
        oa.len() == ob.len(),
        forall|j: int|
            0 <= j < oa.len() ==> {
                &&& (#[trigger] ob[j]).0 == later_value(oa[j].0, t)
                &&& (oa[j].0 is Valid && t < support_end(oa[j].0)) ==> ob[j].1 == oa[j].1
                &&& (oa[j].1 is Some) <==> (oa[j].0 is Valid)
                &&& (ob[j].1 is Some) <==> (ob[j].0 is Valid)
                &&& (oa[j].1 is Some) ==> oa[j].0 == (AssuranceValue::Valid { horizon: oa[j].1->Some_0.horizon })
            },
    ensures
        candidates(ob) == keep_after(candidates(oa), t),
    decreases oa.len(),
{
    if oa.len() > 0 {
        let da = oa.drop_last();
        let db = ob.drop_last();
        assert forall|j: int| 0 <= j < da.len() implies {
            &&& (#[trigger] db[j]).0 == later_value(da[j].0, t)
            &&& (da[j].0 is Valid && t < support_end(da[j].0)) ==> db[j].1 == da[j].1
            &&& (da[j].1 is Some) <==> (da[j].0 is Valid)
            &&& (db[j].1 is Some) <==> (db[j].0 is Valid)
            &&& (da[j].1 is Some) ==> da[j].0 == (AssuranceValue::Valid { horizon: da[j].1->Some_0.horizon })
        } by {
            assert(da[j] == oa[j]);
            assert(db[j] == ob[j]);
        }
        lemma_candidates_later(da, db, t);
        let n = oa.len() - 1;
        assert(ob[n] == ob.last());
        assert(oa[n] == oa.last());
        let ca = candidates(da);
        if oa.last().1 is Some {
            assert(ca.push(oa.last().1->Some_0).drop_last() =~= ca);
        }
    }
}

/// Whether some outcome is UNKNOWN later: as earlier where no outcome was VALID, and
/// surely where a VALID outcome has reached its horizon.
pub proof fn lemma_any_unknown_later(
    oa: Seq<(AssuranceValue, Option<WitnessView>)>,
    ob: Seq<(AssuranceValue, Option<WitnessView>)>,
    t: nat,
)
    requires
        oa.len() == ob.len(),
        forall|j: int| 0 <= j < oa.len() ==> (#[trigger] ob[j]).0 == later_value(oa[j].0, t),
    ensures
        (forall|j: int| 0 <= j < oa.len() ==> !((#[trigger] oa[j]).0 is Valid)) ==> any_unknown(ob)
            == any_unknown(oa),
        (exists|j: int| 0 <= j < oa.len() && (#[trigger] oa[j]).0 is Valid && support_end(oa[j].0) <= t)
            ==> any_unknown(ob),
{
    if forall|j: int| 0 <= j < oa.len() ==> !((#[trigger] oa[j]).0 is Valid) {
        assert forall|j: int| 0 <= j < oa.len() implies (#[trigger] ob[j]).0 == oa[j].0 by {
            assert(!(oa[j].0 is Valid));
        }
        if any_unknown(oa) {
            let j = choose|j: int| 0 <= j < oa.len() && (#[trigger] oa[j]).0 == AssuranceValue::Unknown;
            assert(ob[j].0 == AssuranceValue::Unknown);
        }
        if any_unknown(ob) {
            let j = choose|j: int| 0 <= j < ob.len() && (#[trigger] ob[j]).0 == AssuranceValue::Unknown;
            assert(oa[j].0 == AssuranceValue::Unknown);
        }
    }
    if exists|j: int| 0 <= j < oa.len() && (#[trigger] oa[j]).0 is Valid && support_end(oa[j].0) <= t {
        let j = choose|j: int| 0 <= j < oa.len() && (#[trigger] oa[j]).0 is Valid && support_end(oa[j].0) <= t;
        assert(ob[j].0 == AssuranceValue::Unknown);
    }
}

/// After each prefix of the topological order, evaluating later without new
/// observations finds every node as it stands later.
pub proof fn lemma_eval_upto_later(
    g: GraphView,
    ev: Map<Seq<char>, EvidenceAtom>,
    t1: nat,
    t2: nat,
    k: nat,
)
    requires
        crate::graph::graph_wf(g),
        t1 <= t2,
        forall|x: Seq<char>| #[trigger] ev.contains_key(x) ==> ev[x].observed_at@ <= t1,
        k <= g.order.len(),
    ensures
        forall|x: Seq<char>|
            #[trigger] eval_upto(g, ev, t1, k).by_node.contains_key(x) ==> later_at(
                eval_upto(g, ev, t1, k),
                eval_upto(g, ev, t2, k),
                x,
                t2,
            ),
    decreases k,
{
    if k > 0 {
        lemma_eval_upto_later(g, ev, t1, t2, (k - 1) as nat);
        lemma_eval_upto_witnesses(g, ev, t1, (k - 1) as nat);
        lemma_eval_upto_witnesses(g, ev, t2, (k - 1) as nat);
        lemma_eval_upto_dom(g, ev, t1, (k - 1) as nat);
        lemma_eval_upto_dom(g, ev, t2, (k - 1) as nat);
        let a = eval_upto(g, ev, t1, (k - 1) as nat);
        let b = eval_upto(g, ev, t2, (k - 1) as nat);
        let a2 = eval_upto(g, ev, t1, k);
        let b2 = eval_upto(g, ev, t2, k);
        let id = g.order[k - 1];
        assert(g.order.to_set().contains(id));
        if g.nodes[id] == NodeKind::Evidence {
            assert(evidence_value(ev, id, t2) == later_value(evidence_value(ev, id, t1), t2)) by {
                if ev.contains_key(id) {
                    assert(ev[id].observed_at@ <= t1);
                }
            }
        } else {
            let un = crate::graph::unsupported_nodes(g.nodes, crate::graph::conclusion_index(g.rules).dom());
            assert(!un.contains(id));
            assert(g.by_conclusion.contains_key(id));
            lemma_rules_for(g, id);
            let rids = g.by_conclusion[id];
            let oa = rule_outcomes(g, a, rids, id);
            let ob = rule_outcomes(g, b, rids, id);
            assert forall|j: int| 0 <= j < oa.len() implies {
                &&& (#[trigger] ob[j]).0 == later_value(oa[j].0, t2)
                &&& (oa[j].0 is Valid && t2 < support_end(oa[j].0)) ==> ob[j].1 == oa[j].1
                &&& (oa[j].1 is Some) <==> (oa[j].0 is Valid)
                &&& (ob[j].1 is Some) <==> (ob[j].0 is Valid)
                &&& (oa[j].1 is Some) ==> oa[j].0 == (AssuranceValue::Valid { horizon: oa[j].1->Some_0.horizon })
            } by {
                let r = g.rules[rids[j]];
                assert(g.rules.contains_key(rids[j]));
                assert forall|i: int| 0 <= i < r.premises.len() implies a.by_node.contains_key(
                    #[trigger] r.premises[i],
                ) && later_at(a, b, r.premises[i], t2) by {
                    let p = r.premises[i];
                    let dm = crate::graph::dependency_map(g.rules);
                    assert(dm.contains_key(id));
                    assert(crate::graph::dependencies(g.rules, id).contains(p));
                    assert(crate::graph::entry_or_empty(dm, id).contains(p));
                    assert(g.order.take(k - 1).to_set().contains(p));
                }
                lemma_rule_later(a, b, r, id, t1, t2);
                lemma_rule_result_after(a, r, id, t1);
                lemma_rule_result_after(b, r, id, t2);
            }
            lemma_candidates_later(oa, ob, t2);
            lemma_any_unknown_later(oa, ob, t2);
            let ca = candidates(oa);
            let cb = candidates(ob);
            if ca.len() > 0 {
                lemma_best_index_range(ca, true);
                lemma_candidates_from(oa);
                let bi = best_index(ca, true);
                let w = ca[bi];
                let j = choose|j: int| 0 <= j < oa.len() && oa[j].1 == Some(#[trigger] ca[bi]);
                assert(oa[j].0 == AssuranceValue::Valid { horizon: w.horizon });
                if t2 < w.horizon@ {
                    lemma_best_keep(ca, t2, true);
                    lemma_keep_index(ca, t2, bi);
                    assert(cb[best_index(cb, true)] == w);
                } else {
                    lemma_best_max_horizon(ca, true);
                    lemma_keep_members(ca, t2);
                    if cb.len() > 0 {
                        let y = cb[0];
                        let m = choose|m: int| 0 <= m < ca.len() && ca[m] == y;
                        assert(false);
                    }
                    assert(oa[j].0 is Valid && support_end(oa[j].0) <= t2);
                }
            } else {
                assert forall|j: int| 0 <= j < oa.len() implies !((#[trigger] oa[j]).0 is Valid) by {
                    if oa[j].0 is Valid {
                        lemma_candidates_nonempty(oa, j);
                    }
                }
                assert(cb =~= Seq::<WitnessView>::empty());
            }
        }
        assert forall|x: Seq<char>| #[trigger] a2.by_node.contains_key(x) implies later_at(a2, b2, x, t2) by {
            if x != id {
                assert(a.by_node.contains_key(x));
                assert(later_at(a, b, x, t2));
            }
        }
    }
}

/// Time alone changes support only at horizons: where every observation was made by
/// `t1`, evaluating at a later `t2` finds each node VALID with the same horizon and
/// the same witness while `t2` is before its horizon, UNKNOWN once the horizon is
/// reached, and every value that was not VALID unchanged.
pub proof fn lemma_values_over_time(g: GraphView, ev: Map<Seq<char>, EvidenceAtom>, t1: nat, t2: nat)
    requires
        crate::graph::graph_wf(g),
        t1 <= t2,
        forall|x: Seq<char>| #[trigger] ev.contains_key(x) ==> ev[x].observed_at@ <= t1,
    ensures
        forall|x: Seq<char>|
            #[trigger] evaluate(g, ev, t1).by_node.contains_key(x) ==> later_at(
                evaluate(g, ev, t1),
                evaluate(g, ev, t2),
                x,
                t2,
            ),
{
    lemma_eval_upto_later(g, ev, t1, t2, g.order.len());
}

/// The rules listed for a concluded node are exactly the rules that conclude it.
pub proof fn lemma_rules_for_exact(g: GraphView, id: Seq<char>)
    requires
        crate::graph::graph_wf(g),
        g.by_conclusion.contains_key(id),
    ensures
        forall|r: Seq<char>|
            #[trigger] g.by_conclusion[id].contains(r) <==> g.rules.contains_key(r) && g.rules[r].conclusion
                == id,
{
    let s = crate::graph::conclusion_index(g.rules)[id];
    assert(s.subset_of(g.rules.dom()));
    vstd::set_lib::lemma_set_subset_finite(g.rules.dom(), s);
    crate::graph::lemma_sorted_ids_exist(s);
    assert forall|r: Seq<char>| #[trigger] g.by_conclusion[id].contains(r) <==> g.rules.contains_key(r)
        && g.rules[r].conclusion == id by {
        assert(g.by_conclusion[id].contains(r) <==> g.by_conclusion[id].to_set().contains(r));
    }
}

/// The counts of VALID and UNKNOWN premises read the results only at the premises.
pub proof fn lemma_counts_agree(a: EvaluationView, b: EvaluationView, premises: Seq<Seq<char>>)
    requires
        forall|i: int|
            0 <= i < premises.len() ==> b.by_node[#[trigger] premises[i]] == a.by_node[premises[i]],
    ensures
        valid_count(b, premises) == valid_count(a, premises),
        unknown_count(b, premises) == unknown_count(a, premises),
    decreases premises.len(),
{
    if premises.len() > 0 {
        let rest = premises.drop_last();
        assert forall|i: int| 0 <= i < rest.len() implies b.by_node[#[trigger] rest[i]] == a.by_node[rest[i]] by {
            assert(rest[i] == premises[i]);
        }
        lemma_counts_agree(a, b, rest);
        assert(premises[premises.len() - 1] == premises.last());
    }
}

/// A rule value obeys the threshold rule in strong three-valued logic over the
/// results: with `v` VALID and `u` UNKNOWN premises and threshold `k`, it is VALID
/// exactly when `v >= k`, INVALID exactly when `v + u < k`, and UNKNOWN otherwise.
pub open spec fn obeys_threshold(acc: EvaluationView, r: RuleView, value: AssuranceValue) -> bool {
    let v = valid_count(acc, r.premises);
    let u = unknown_count(acc, r.premises);
    &&& (value is Valid) <==> v >= r.threshold
    &&& (value == AssuranceValue::Invalid) <==> v + u < r.threshold
    &&& (value == AssuranceValue::Unknown) <==> (v < r.threshold && v + u >= r.threshold)
}

/// After each prefix of the topological order, the rules with a value are those whose
/// conclusion has one, and each value obeys the threshold rule over its premises.
pub proof fn lemma_eval_upto_rule_values(g: GraphView, ev: Map<Seq<char>, EvidenceAtom>, now: nat, k: nat)
    requires
        crate::graph::graph_wf(g),
        k <= g.order.len(),
    ensures
        forall|r: Seq<char>|
            #[trigger] eval_upto(g, ev, now, k).by_rule.contains_key(r) <==> g.rules.contains_key(r)
                && eval_upto(g, ev, now, k).by_node.contains_key(g.rules[r].conclusion),
        forall|r: Seq<char>|
            #[trigger] eval_upto(g, ev, now, k).by_rule.contains_key(r) ==> (forall|i: int|
                0 <= i < g.rules[r].premises.len() ==> eval_upto(g, ev, now, k).by_node.contains_key(
                    #[trigger] g.rules[r].premises[i],
                )) && obeys_threshold(
                eval_upto(g, ev, now, k),
                g.rules[r],
                eval_upto(g, ev, now, k).by_rule[r],
            ),
    decreases k,
{
    if k > 0 {
        lemma_eval_upto_rule_values(g, ev, now, (k - 1) as nat);
        lemma_eval_upto_dom(g, ev, now, (k - 1) as nat);
        lemma_eval_upto_witnesses(g, ev, now, (k - 1) as nat);
        let a = eval_upto(g, ev, now, (k - 1) as nat);
        let a2 = eval_upto(g, ev, now, k);
        let id = g.order[k - 1];
        assert(g.order.to_set().contains(id));
        assert(!a.by_node.contains_key(id)) by {
            if g.order.take(k - 1).contains(id) {
                let j = choose|j: int| 0 <= j < k - 1 && #[trigger] g.order.take(k - 1)[j] == id;
                assert(g.order[j] == g.order[k - 1]);
            }
        }
        assert(a2.by_node.dom() =~= a.by_node.dom().insert(id));
        // Premises of a rule whose conclusion has a value already have values, other than `id`.
        assert forall|r: Seq<char>| #[trigger] a.by_rule.contains_key(r) implies (forall|i: int|
            0 <= i < g.rules[r].premises.len() ==> a2.by_node[#[trigger] g.rules[r].premises[i]]
                == a.by_node[g.rules[r].premises[i]]) by {
            assert forall|i: int| 0 <= i < g.rules[r].premises.len() implies a2.by_node[
                #[trigger] g.rules[r].premises[i]] == a.by_node[g.rules[r].premises[i]] by {
                assert(a.by_node.contains_key(g.rules[r].premises[i]));
            }
        }
        if g.nodes[id] == NodeKind::Evidence {
            assert forall|r: Seq<char>| #[trigger] a2.by_rule.contains_key(r) implies (forall|i: int|
                0 <= i < g.rules[r].premises.len() ==> a2.by_node.contains_key(
                    #[trigger] g.rules[r].premises[i],
                )) && obeys_threshold(a2, g.rules[r], a2.by_rule[r]) by {
                lemma_counts_agree(a, a2, g.rules[r].premises);
            }
            assert forall|r: Seq<char>| #[trigger] a2.by_rule.contains_key(r) <==> g.rules.contains_key(r)
                && a2.by_node.contains_key(g.rules[r].conclusion) by {
                if g.rules.contains_key(r) && g.rules[r].conclusion == id {
                    assert(crate::graph::rule_ok(g.nodes, r, g.rules[r]));
                }
            }
        } else {
            let un = crate::graph::unsupported_nodes(g.nodes, crate::graph::conclusion_index(g.rules).dom());
            assert(!un.contains(id));
            assert(g.by_conclusion.contains_key(id));
            lemma_rules_for(g, id);
            lemma_rules_for_exact(g, id);
            let rids = g.by_conclusion[id];
            let rv = rule_values(g, a, rids, id);
            assert(a2.by_rule == a.by_rule.union_prefer_right(rv));
            assert forall|r: Seq<char>| #[trigger] a2.by_rule.contains_key(r) <==> g.rules.contains_key(r)
                && a2.by_node.contains_key(g.rules[r].conclusion) by {
            }
            assert forall|r: Seq<char>| #[trigger] a2.by_rule.contains_key(r) implies (forall|i: int|
                0 <= i < g.rules[r].premises.len() ==> a2.by_node.contains_key(
                    #[trigger] g.rules[r].premises[i],
                )) && obeys_threshold(a2, g.rules[r], a2.by_rule[r]) by {
                if rids.contains(r) {
                    let rule = g.rules[r];
                    assert forall|i: int| 0 <= i < rule.premises.len() implies a.by_node.contains_key(
                        #[trigger] rule.premises[i],
                    ) by {
                        let p = rule.premises[i];
                        let dm = crate::graph::dependency_map(g.rules);
                        assert(dm.contains_key(id));
                        assert(crate::graph::dependencies(g.rules, id).contains(p));
                        assert(crate::graph::entry_or_empty(dm, id).contains(p));
                        assert(g.order.take(k - 1).to_set().contains(p));
                    }
                    assert(crate::graph::rule_ok(g.nodes, r, rule));
                    lemma_threshold_rule(a, rule, id, now);
                    assert forall|i: int| 0 <= i < rule.premises.len() implies a2.by_node[
                        #[trigger] rule.premises[i]] == a.by_node[rule.premises[i]] by {
                        assert(a.by_node.contains_key(rule.premises[i]));
                    }
                    lemma_counts_agree(a, a2, rule.premises);
                    assert(a2.by_rule[r] == rule_result(a, rule, id).0);
                } else {
                    assert(a.by_rule.contains_key(r));
                    lemma_counts_agree(a, a2, g.rules[r].premises);
                }
            }
        }
    }
}

/// The law of rule values: after a full evaluation, every rule has a value, and it
/// obeys the threshold rule in strong three-valued logic over the values of its
/// premises.
pub proof fn lemma_rule_values_obey_threshold(g: GraphView, ev: Map<Seq<char>, EvidenceAtom>, now: nat)
    requires
        crate::graph::graph_wf(g),
    ensures
        forall|r: Seq<char>|
            #[trigger] g.rules.contains_key(r) ==> evaluate(g, ev, now).by_rule.contains_key(r)
                && obeys_threshold(evaluate(g, ev, now), g.rules[r], evaluate(g, ev, now).by_rule[r]),
{
    lemma_eval_upto_rule_values(g, ev, now, g.order.len());
    lemma_evaluate_dom(g, ev, now);
    assert forall|r: Seq<char>| #[trigger] g.rules.contains_key(r) implies evaluate(g, ev, now).by_rule.contains_key(r)
        && obeys_threshold(evaluate(g, ev, now), g.rules[r], evaluate(g, ev, now).by_rule[r]) by {
        assert(crate::graph::rule_ok(g.nodes, r, g.rules[r]));
    }
}

/// The node identifiers of witnesses, in order.
pub open spec fn witness_nodes(ws: Seq<WitnessView>) -> Seq<Seq<char>> {
    ws.map_values(|w: WitnessView| w.node_id)
}

/// `w` is the witness of one of `premises` in the results.
pub open spec fn premise_witness(acc: EvaluationView, premises: Seq<Seq<char>>, w: WitnessView) -> bool {
    exists|m: int| 0 <= m < premises.len() && acc.witnesses.contains_key(premises[m]) && w == acc.witnesses[premises[m]]
}

/// Some cited premise's witness holds evidence `e`.
pub open spec fn cited_evidence(acc: EvaluationView, ids: Seq<Seq<char>>, e: Seq<char>) -> bool {
    exists|i: int| 0 <= i < ids.len() && acc.witnesses[ids[i]].evidence_ids.contains(e)
}

/// Some cited premise's witness ends exactly at `h`.
pub open spec fn cited_horizon(acc: EvaluationView, ids: Seq<Seq<char>>, h: Duration) -> bool {
    exists|i: int| 0 <= i < ids.len() && acc.witnesses[ids[i]].horizon == h
}

/// The witness of node `x` names `x`, and a rule witness cites its selected premises:
/// as many distinct premises of the cited rule as its threshold, each VALID with a
/// witness; its evidence is the union of theirs and its horizon the earliest of
/// theirs. A witness without a rule is the node's own observation.
pub open spec fn cites_premises(g: GraphView, acc: EvaluationView, x: Seq<char>) -> bool {
    let w = acc.witnesses[x];
    &&& w.node_id == x
    &&& w.justification_id is None ==> {
        &&& g.nodes.contains_key(x) && g.nodes[x] == NodeKind::Evidence
        &&& w.premise_ids.len() == 0
        &&& w.evidence_ids == Set::<Seq<char>>::empty().insert(x)
    }
    &&& w.justification_id is Some ==> {
        let rid = w.justification_id->Some_0;
        &&& g.rules.contains_key(rid)
        &&& g.rules[rid].conclusion == x
        &&& w.premise_ids.len() == g.rules[rid].threshold
        &&& w.premise_ids.no_duplicates()
        &&& forall|i: int|
            0 <= i < w.premise_ids.len() ==> g.rules[rid].premises.contains(#[trigger] w.premise_ids[i])
                && acc.witnesses.contains_key(w.premise_ids[i]) && w.horizon@
                <= acc.witnesses[w.premise_ids[i]].horizon@
        &&& forall|e: Seq<char>| #[trigger] w.evidence_ids.contains(e) <==> cited_evidence(acc, w.premise_ids, e)
        &&& cited_horizon(acc, w.premise_ids, w.horizon)
    }
}

/// The premise witnesses are witnesses of distinct premises.
pub proof fn lemma_supports_from_premises(acc: EvaluationView, premises: Seq<Seq<char>>)
    requires
        premises.no_duplicates(),
        forall|k: Seq<char>| #[trigger] acc.witnesses.contains_key(k) ==> acc.witnesses[k].node_id == k,
    ensures
        forall|i: int|
            0 <= i < supports(acc, premises).len() ==> premise_witness(acc, premises, #[trigger] supports(acc, premises)[i]),
        witness_nodes(supports(acc, premises)).no_duplicates(),
    decreases premises.len(),
{
    if premises.len() > 0 {
        let rest = premises.drop_last();
        let x = premises.last();
        assert(rest.no_duplicates()) by {
            assert forall|i: int, j: int| 0 <= i < rest.len() && 0 <= j < rest.len() && i != j implies rest[i] != rest[j] by {
                assert(rest[i] == premises[i]);
                assert(rest[j] == premises[j]);
            }
        }
        lemma_supports_from_premises(acc, rest);
        let s0 = supports(acc, rest);
        let s1 = supports(acc, premises);
        assert forall|i: int| 0 <= i < s1.len() implies premise_witness(acc, premises, #[trigger] s1[i]) by {
            if i < s0.len() {
                assert(s1[i] == s0[i]);
                assert(premise_witness(acc, rest, s0[i]));
                let m = choose|m: int| 0 <= m < rest.len() && acc.witnesses.contains_key(rest[m]) && s0[i] == acc.witnesses[rest[m]];
                assert(premises[m] == rest[m]);
            } else {
                assert(premises[premises.len() - 1] == x);
            }
        }
        if acc.witnesses.contains_key(x) {
            let n0 = witness_nodes(s0);
            assert(witness_nodes(s1) =~= n0.push(x));
            assert(!n0.contains(x)) by {
                if n0.contains(x) {
                    let a = choose|a: int| 0 <= a < n0.len() && n0[a] == x;
                    assert(premise_witness(acc, rest, s0[a]));
                    let m = choose|m: int| 0 <= m < rest.len() && acc.witnesses.contains_key(rest[m]) && s0[a] == acc.witnesses[rest[m]];
                    assert(premises[m] == premises[premises.len() - 1]);
                }
            }
        } else {
            assert(s1 == s0);
        }
    }
}

/// Selecting witnesses of distinct nodes selects witnesses of distinct nodes.
pub proof fn lemma_top_k_distinct(s: Seq<WitnessView>, k: nat)
    requires
        witness_nodes(s).no_duplicates(),
    ensures
        witness_nodes(top_k(s, k)).no_duplicates(),
    decreases k,
{
    if k > 0 && s.len() > 0 {
        lemma_best_index_range(s, false);
        let i = best_index(s, false);
        let rest = s.remove(i);
        assert(witness_nodes(rest).no_duplicates()) by {
            assert forall|a: int, b: int| 0 <= a < rest.len() && 0 <= b < rest.len() && a != b implies witness_nodes(rest)[a] != witness_nodes(rest)[b] by {
                let a1 = if a < i { a } else { a + 1 };
                let b1 = if b < i { b } else { b + 1 };
                assert(rest[a] == s[a1]);
                assert(rest[b] == s[b1]);
                assert(witness_nodes(s)[a1] != witness_nodes(s)[b1]);
            }
        }
        lemma_top_k_distinct(rest, (k - 1) as nat);
        lemma_top_k_members(rest, (k - 1) as nat);
        let t = top_k(rest, (k - 1) as nat);
        let top = top_k(s, k);
        assert(witness_nodes(top) =~= seq![s[i].node_id] + witness_nodes(t));
        assert(!witness_nodes(t).contains(s[i].node_id)) by {
            if witness_nodes(t).contains(s[i].node_id) {
                let a = choose|a: int| 0 <= a < witness_nodes(t).len() && witness_nodes(t)[a] == s[i].node_id;
                assert(rest.contains(t[a]));
                let m = choose|m: int| 0 <= m < rest.len() && rest[m] == t[a];
                let m1 = if m < i { m } else { m + 1 };
                assert(rest[m] == s[m1]);
                assert(witness_nodes(s)[m1] == witness_nodes(s)[i]);
            }
        }
    }
}

/// Adding the witness of a new node keeps what existing witnesses cite.
pub proof fn lemma_cites_grow(g: GraphView, a: EvaluationView, b: EvaluationView, x: Seq<char>)
    requires
        a.witnesses.contains_key(x),
        cites_premises(g, a, x),
        forall|k: Seq<char>| #[trigger] a.witnesses.contains_key(k) ==> b.witnesses.contains_key(k) && b.witnesses[k] == a.witnesses[k],
    ensures
        cites_premises(g, b, x),
{
    let w = a.witnesses[x];
    assert(b.witnesses[x] == w);
    if w.justification_id is Some {
        let ids = w.premise_ids;
        assert forall|i: int| 0 <= i < ids.len() implies b.witnesses[#[trigger] ids[i]] == a.witnesses[ids[i]] by {
            assert(a.witnesses.contains_key(ids[i]));
        }
        assert forall|e: Seq<char>| #[trigger] w.evidence_ids.contains(e) <==> cited_evidence(b, ids, e) by {
            if cited_evidence(b, ids, e) {
                let i = choose|i: int| 0 <= i < ids.len() && b.witnesses[ids[i]].evidence_ids.contains(e);
                assert(b.witnesses[ids[i]] == a.witnesses[ids[i]]);
            }
            if w.evidence_ids.contains(e) {
                assert(cited_evidence(a, ids, e));
                let i = choose|i: int| 0 <= i < ids.len() && a.witnesses[ids[i]].evidence_ids.contains(e);
                assert(b.witnesses[ids[i]] == a.witnesses[ids[i]]);
            }
        }
        let i = choose|i: int| 0 <= i < ids.len() && a.witnesses[ids[i]].horizon == w.horizon;
        assert(b.witnesses[ids[i]] == a.witnesses[ids[i]]);
    }
}

/// A VALID rule result's witness cites the rule's selected premises.
pub proof fn lemma_rule_result_cites(
    g: GraphView,
    acc: EvaluationView,
    rid: Seq<char>,
    node: Seq<char>,
    b: EvaluationView,
)
    requires
        g.rules.contains_key(rid),
        crate::graph::rule_ok(g.nodes, rid, g.rules[rid]),
        g.rules[rid].conclusion == node,
        rule_result(acc, g.rules[rid], node).1 is Some,
        forall|k: Seq<char>| #[trigger] acc.witnesses.contains_key(k) ==> acc.witnesses[k].node_id == k,
        forall|k: Seq<char>| #[trigger] acc.witnesses.contains_key(k) ==> b.witnesses.contains_key(k) && b.witnesses[k] == acc.witnesses[k],
        b.witnesses.contains_key(node),
        b.witnesses[node] == rule_result(acc, g.rules[rid], node).1->Some_0,
    ensures
        cites_premises(g, b, node),
{
    let r = g.rules[rid];
    let w = b.witnesses[node];
    let sup = supports(acc, r.premises);
    let sel = top_k(sup, r.threshold);
    crate::ids::lemma_sorted_no_duplicates(r.premises);
    lemma_supports_from_premises(acc, r.premises);
    lemma_top_k_len(sup, r.threshold);
    lemma_top_k_members(sup, r.threshold);
    lemma_top_k_distinct(sup, r.threshold);
    lemma_union_evidence(sel);
    lemma_min_horizon(sel);
    let ids = w.premise_ids;
    assert(ids =~= witness_nodes(sel));
    assert forall|i: int| 0 <= i < ids.len() implies acc.witnesses.contains_key(#[trigger] ids[i])
        && acc.witnesses[ids[i]] == sel[i] && r.premises.contains(ids[i]) by {
        assert(sup.contains(sel[i]));
        let m0 = choose|m0: int| 0 <= m0 < sup.len() && sup[m0] == sel[i];
        assert(premise_witness(acc, r.premises, sup[m0]));
        let m = choose|m: int| 0 <= m < r.premises.len() && acc.witnesses.contains_key(r.premises[m]) && sup[m0] == acc.witnesses[r.premises[m]];
        assert(ids[i] == sel[i].node_id);
    }
    assert forall|i: int| 0 <= i < ids.len() implies r.premises.contains(#[trigger] ids[i])
        && b.witnesses.contains_key(ids[i]) && w.horizon@ <= b.witnesses[ids[i]].horizon@ by {
        assert(acc.witnesses.contains_key(ids[i]));
        assert(min_horizon(sel)@ <= sel[i].horizon@);
    }
    assert forall|e: Seq<char>| #[trigger] w.evidence_ids.contains(e) <==> cited_evidence(b, ids, e) by {
        if w.evidence_ids.contains(e) {
            let j = choose|j: int| 0 <= j < sel.len() && sel[j].evidence_ids.contains(e);
            assert(acc.witnesses.contains_key(ids[j]));
            assert(b.witnesses[ids[j]].evidence_ids.contains(e));
        }
        if cited_evidence(b, ids, e) {
            let j = choose|j: int| 0 <= j < ids.len() && b.witnesses[ids[j]].evidence_ids.contains(e);
            assert(acc.witnesses.contains_key(ids[j]));
            assert(sel[j].evidence_ids.contains(e));
        }
    }
    let jm = choose|j: int| 0 <= j < sel.len() && min_horizon(sel) == (#[trigger] sel[j]).horizon;
    assert(acc.witnesses.contains_key(ids[jm]));
    assert(b.witnesses[ids[jm]].horizon == w.horizon);
}

/// After each prefix of the topological order, every witness cites what it should.
pub proof fn lemma_eval_upto_cites(g: GraphView, ev: Map<Seq<char>, EvidenceAtom>, now: nat, k: nat)
    requires
        crate::graph::graph_wf(g),
        k <= g.order.len(),
    ensures
        forall|x: Seq<char>|
            #[trigger] eval_upto(g, ev, now, k).witnesses.contains_key(x) ==> cites_premises(
                g,
                eval_upto(g, ev, now, k),
                x,
            ),
    decreases k,
{
    if k > 0 {
        lemma_eval_upto_cites(g, ev, now, (k - 1) as nat);
        lemma_eval_upto_dom(g, ev, now, (k - 1) as nat);
        let a = eval_upto(g, ev, now, (k - 1) as nat);
        let a2 = eval_upto(g, ev, now, k);
        let id = g.order[k - 1];
        assert(g.order.to_set().contains(id));
        assert(!a.by_node.contains_key(id)) by {
            if g.order.take(k - 1).contains(id) {
                let j = choose|j: int| 0 <= j < k - 1 && #[trigger] g.order.take(k - 1)[j] == id;
                assert(g.order[j] == g.order[k - 1]);
            }
        }
        assert(!a.witnesses.contains_key(id));
        assert forall|x: Seq<char>| #[trigger] a.witnesses.contains_key(x) implies a.witnesses[x].node_id == x by {
            assert(cites_premises(g, a, x));
        }
        assert forall|x: Seq<char>| #[trigger] a.witnesses.contains_key(x) implies a2.witnesses.contains_key(x)
            && a2.witnesses[x] == a.witnesses[x] by {
        }
        if g.nodes[id] != NodeKind::Evidence {
            let un = crate::graph::unsupported_nodes(g.nodes, crate::graph::conclusion_index(g.rules).dom());
            assert(!un.contains(id));
            assert(g.by_conclusion.contains_key(id));
            lemma_rules_for(g, id);
            let rids = g.by_conclusion[id];
            let outs = rule_outcomes(g, a, rids, id);
            let cands = candidates(outs);
            if cands.len() > 0 {
                lemma_best_index_range(cands, true);
                lemma_candidates_from(outs);
                let bi = best_index(cands, true);
                let j = choose|j: int| 0 <= j < outs.len() && outs[j].1 == Some(#[trigger] cands[bi]);
                assert(g.rules.contains_key(rids[j]));
                assert(outs[j] == rule_result(a, g.rules[rids[j]], id));
                lemma_rule_result_cites(g, a, rids[j], id, a2);
            }
        }
        assert forall|x: Seq<char>| #[trigger] a2.witnesses.contains_key(x) implies cites_premises(g, a2, x) by {
            if x != id {
                lemma_cites_grow(g, a, a2, x);
            }
        }
    }
}

/// The law of rule witnesses: after a full evaluation, every witness names its node;
/// a rule witness cites exactly as many distinct premises of its rule as the rule's
/// threshold, each VALID, and joins their evidence, ending at the earliest of their
/// horizons; a witness without a rule is an evidence node's own observation.
pub proof fn lemma_witnesses_cite_premises(g: GraphView, ev: Map<Seq<char>, EvidenceAtom>, now: nat)
    requires
        crate::graph::graph_wf(g),
    ensures
        forall|x: Seq<char>|
            #[trigger] evaluate(g, ev, now).witnesses.contains_key(x) ==> cites_premises(g, evaluate(g, ev, now), x),
{
    lemma_eval_upto_cites(g, ev, now, g.order.len());
}

} // verus!

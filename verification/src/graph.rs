//! Validated, immutable assurance DAG and its lookup indexes.
use vstd::prelude::*;
use std::ops::Deref;
use vstd::string::StrSliceExecFns;

use crate::ids::{copy_id, copy_ids, id_lt, ids_of, lemma_id_order, lemma_sorted_unique, strictly_sorted, IdMap, IdSet};

verus! {

/// The role of a node; action phases are separate roots, not state machines.
#[derive(Debug, Clone, Copy, PartialEq, Eq, Structural, Hash)]
pub enum NodeKind {
    Evidence,
    Derived,
    ActionStart,
    ActionRun,
    ActionCommit,
    ActionOutcome,
    PhysicalSafety,
}

/// A declared node of the graph.
#[derive(Debug, PartialEq, Eq)]
pub struct Node {
    pub node_id: String,
    pub kind: NodeKind,
}

impl Node {
    /// A node with the given identifier and kind.
    pub fn new(id: &str, kind: NodeKind) -> (n: Node)
        ensures
            n.node_id@ == id@,
            n.kind == kind,
    {
        Node { node_id: id.to_owned(), kind }
    }
}

impl Clone for Node {
    fn clone(&self) -> (r: Self)
        ensures
            r == *self,
    {
        Node { node_id: self.node_id.clone(), kind: self.kind }
    }
}

/// AND is threshold = premises.len(); OR is threshold = 1.
#[derive(Debug, PartialEq, Eq)]
pub struct Justification {
    pub justification_id: String,
    pub premises: Vec<String>,
    pub threshold: usize,
    pub conclusion: String,
}

/// A rule with identifiers as character sequences.
pub struct RuleView {
    pub id: Seq<char>,
    pub premises: Seq<Seq<char>>,
    pub threshold: nat,
    pub conclusion: Seq<char>,
}

impl View for Justification {
    type V = RuleView;

    open spec fn view(&self) -> RuleView {
        RuleView {
            id: self.justification_id@,
            premises: ids_of(self.premises@),
            threshold: self.threshold as nat,
            conclusion: self.conclusion@,
        }
    }
}

impl Clone for Justification {
    fn clone(&self) -> (r: Self)
        ensures
            r@ == self@,
    {
        Justification {
            justification_id: self.justification_id.clone(),
            premises: copy_ids(&self.premises),
            threshold: self.threshold,
            conclusion: self.conclusion.clone(),
        }
    }
}

/// Why a graph configuration is rejected.
#[derive(Debug, Clone, PartialEq, Eq)]
pub enum GraphError {
    EmptyId,
    DuplicateNode(String),
    DuplicateJustification(String),
    UnknownNode(String),
    InvalidThreshold(String),
    DuplicatePremise(String),
    EvidenceConclusion(String),
    UnsupportedConclusion(String),
    Cycle,
}

/// A configuration error with identifiers as character sequences.
pub enum GraphErrorView {
    EmptyId,
    DuplicateNode(Seq<char>),
    DuplicateJustification(Seq<char>),
    UnknownNode(Seq<char>),
    InvalidThreshold(Seq<char>),
    DuplicatePremise(Seq<char>),
    EvidenceConclusion(Seq<char>),
    UnsupportedConclusion(Seq<char>),
    Cycle,
}

impl View for GraphError {
    type V = GraphErrorView;

    open spec fn view(&self) -> GraphErrorView {
        match self {
            GraphError::EmptyId => GraphErrorView::EmptyId,
            GraphError::DuplicateNode(s) => GraphErrorView::DuplicateNode(s@),
            GraphError::DuplicateJustification(s) => GraphErrorView::DuplicateJustification(s@),
            GraphError::UnknownNode(s) => GraphErrorView::UnknownNode(s@),
            GraphError::InvalidThreshold(s) => GraphErrorView::InvalidThreshold(s@),
            GraphError::DuplicatePremise(s) => GraphErrorView::DuplicatePremise(s@),
            GraphError::EvidenceConclusion(s) => GraphErrorView::EvidenceConclusion(s@),
            GraphError::UnsupportedConclusion(s) => GraphErrorView::UnsupportedConclusion(s@),
            GraphError::Cycle => GraphErrorView::Cycle,
        }
    }
}

/// Unicode `White_Space`, the characters that `str::trim` removes.
pub open spec fn is_white_space(c: char) -> bool {
    let u = c as u32;
    ||| 0x09 <= u <= 0x0d
    ||| u == 0x20
    ||| u == 0x85
    ||| u == 0xa0
    ||| u == 0x1680
    ||| 0x2000 <= u <= 0x200a
    ||| u == 0x2028
    ||| u == 0x2029
    ||| u == 0x202f
    ||| u == 0x205f
    ||| u == 0x3000
}

/// An identifier that is empty once surrounding white space is trimmed.
pub open spec fn is_blank(s: Seq<char>) -> bool {
    forall|i: int| 0 <= i < s.len() ==> is_white_space(#[trigger] s[i])
}

fn char_is_white_space(c: char) -> (b: bool)
    ensures
        b == is_white_space(c),
{
    let u = c as u32;
    (0x09 <= u && u <= 0x0d) || u == 0x20 || u == 0x85 || u == 0xa0 || u == 0x1680 || (0x2000 <= u
        && u <= 0x200a) || u == 0x2028 || u == 0x2029 || u == 0x202f || u == 0x205f || u == 0x3000
}

/// Whether `s` holds nothing but white space.
pub fn str_is_blank(s: &str) -> (b: bool)
    ensures
        b == is_blank(s@),
{
    let n = s.unicode_len();
    let mut i: usize = 0;
    while i < n
        invariant
            n == s@.len(),
            0 <= i <= n,
            forall|j: int| 0 <= j < i ==> is_white_space(#[trigger] s@[j]),
        decreases n - i,
    {
        if !char_is_white_space(s.get_char(i)) {
            return false;
        }
        i = i + 1;
    }
    true
}

/// The least element of a set in identifier order.
pub open spec fn least_id(s: Set<Seq<char>>) -> Seq<char> {
    choose|x: Seq<char>| s.contains(x) && forall|y: Seq<char>| #[trigger]
        s.contains(y) && y != x ==> id_lt(x, y)
}

/// The strictly increasing enumeration of a set of identifiers.
pub open spec fn sorted_ids(s: Set<Seq<char>>) -> Seq<Seq<char>> {
    choose|q: Seq<Seq<char>>| strictly_sorted(q) && q.to_set() == s
}

/// A strictly increasing sequence is the enumeration of its own elements.
pub proof fn lemma_sorted_ids(q: Seq<Seq<char>>)
    requires
        strictly_sorted(q),
    ensures
        sorted_ids(q.to_set()) == q,
{
    let s = q.to_set();
    assert(strictly_sorted(q) && q.to_set() == s);
    let r = sorted_ids(s);
    lemma_sorted_unique(r, q);
}

/// `x` inserted into an increasing sequence at its place.
pub open spec fn insert_sorted(q: Seq<Seq<char>>, x: Seq<char>) -> Seq<Seq<char>>
    decreases q.len(),
{
    if q.len() == 0 {
        seq![x]
    } else if id_lt(x, q[0]) {
        seq![x] + q
    } else {
        seq![q[0]] + insert_sorted(q.drop_first(), x)
    }
}

/// Inserting a new identifier at its place keeps the sequence strictly increasing.
pub proof fn lemma_insert_sorted(q: Seq<Seq<char>>, x: Seq<char>)
    requires
        strictly_sorted(q),
        !q.contains(x),
    ensures
        strictly_sorted(insert_sorted(q, x)),
        insert_sorted(q, x).to_set() == q.to_set().insert(x),
        insert_sorted(q, x).len() == q.len() + 1,
        insert_sorted(q, x).len() > 0 && (insert_sorted(q, x)[0] == x || (q.len() > 0
            && insert_sorted(q, x)[0] == q[0])),
    decreases q.len(),
{
    lemma_id_order();
    let r = insert_sorted(q, x);
    if q.len() == 0 {
        assert(r.to_set() =~= q.to_set().insert(x)) by {
            assert forall|y: Seq<char>| r.to_set().contains(y) implies y == x by {
                let i = choose|i: int| 0 <= i < r.len() && r[i] == y;
            }
            assert(r[0] == x);
        }
    } else if id_lt(x, q[0]) {
        assert forall|i: int, j: int| 0 <= i < j < r.len() implies id_lt(#[trigger] r[i], #[trigger] r[j]) by {
            if i == 0 {
                if j > 1 {
                    assert(id_lt(q[0], q[j - 1]));
                }
            } else {
                assert(r[i] == q[i - 1] && r[j] == q[j - 1]);
            }
        }
        assert(r.to_set() =~= q.to_set().insert(x)) by {
            assert forall|y: Seq<char>| r.to_set().contains(y) implies q.to_set().insert(x).contains(y) by {
                let i = choose|i: int| 0 <= i < r.len() && r[i] == y;
                if i > 0 {
                    assert(q[i - 1] == y);
                }
            }
            assert forall|y: Seq<char>| q.to_set().insert(x).contains(y) implies r.to_set().contains(y) by {
                if y == x {
                    assert(r[0] == y);
                } else {
                    let i = choose|i: int| 0 <= i < q.len() && q[i] == y;
                    assert(r[i + 1] == y);
                }
            }
        }
    } else {
        let rest = q.drop_first();
        assert(x != q[0]);
        assert(id_lt(q[0], x));
        assert(!rest.contains(x)) by {
            if rest.contains(x) {
                let i = choose|i: int| 0 <= i < rest.len() && rest[i] == x;
                assert(q[i + 1] == x);
            }
        }
        assert(strictly_sorted(rest)) by {
            assert forall|i: int, j: int| 0 <= i < j < rest.len() implies id_lt(#[trigger] rest[i], #[trigger] rest[j]) by {
                assert(rest[i] == q[i + 1] && rest[j] == q[j + 1]);
            }
        }
        lemma_insert_sorted(rest, x);
        let t = insert_sorted(rest, x);
        assert(r =~= seq![q[0]] + t);
        assert forall|i: int, j: int| 0 <= i < j < r.len() implies id_lt(#[trigger] r[i], #[trigger] r[j]) by {
            if i == 0 {
                assert(r[j] == t[j - 1]);
                assert(t.to_set().contains(t[j - 1]));
                assert(rest.to_set().insert(x).contains(t[j - 1]));
                if t[j - 1] != x {
                    let k = choose|k: int| 0 <= k < rest.len() && rest[k] == t[j - 1];
                    assert(id_lt(q[0], q[k + 1]));
                }
            } else {
                assert(r[i] == t[i - 1] && r[j] == t[j - 1]);
            }
        }
        assert(r.to_set() =~= q.to_set().insert(x)) by {
            assert forall|y: Seq<char>| r.to_set().contains(y) implies q.to_set().insert(x).contains(y) by {
                let i = choose|i: int| 0 <= i < r.len() && r[i] == y;
                if i > 0 {
                    assert(t[i - 1] == y);
                    assert(t.to_set().contains(y));
                    if y != x {
                        let k = choose|k: int| 0 <= k < rest.len() && rest[k] == y;
                        assert(q[k + 1] == y);
                    }
                }
            }
            assert forall|y: Seq<char>| q.to_set().insert(x).contains(y) implies r.to_set().contains(y) by {
                if y == q[0] {
                    assert(r[0] == y);
                } else if y == x {
                    assert(t.to_set().contains(y));
                    let k = choose|k: int| 0 <= k < t.len() && t[k] == y;
                    assert(r[k + 1] == y);
                } else {
                    let i = choose|i: int| 0 <= i < q.len() && q[i] == y;
                    assert(i > 0);
                    assert(rest[i - 1] == y);
                    assert(t.to_set().contains(y));
                    let k = choose|k: int| 0 <= k < t.len() && t[k] == y;
                    assert(r[k + 1] == y);
                }
            }
        }
    }
}

/// Every finite set of identifiers has its increasing enumeration.
pub proof fn lemma_sorted_ids_exist(s: Set<Seq<char>>)
    requires
        s.finite(),
    ensures
        strictly_sorted(sorted_ids(s)),
        sorted_ids(s).to_set() == s,
    decreases s.len(),
{
    if s.len() == 0 {
        let q = Seq::<Seq<char>>::empty();
        assert(q.to_set() =~= s);
        assert(strictly_sorted(q) && q.to_set() == s);
    } else {
        let x = s.choose();
        let rest = s.remove(x);
        lemma_sorted_ids_exist(rest);
        let q = sorted_ids(rest);
        assert(!q.contains(x)) by {
            if q.contains(x) {
                assert(q.to_set().contains(x));
            }
        }
        lemma_insert_sorted(q, x);
        let r = insert_sorted(q, x);
        assert(r.to_set() =~= s);
        assert(strictly_sorted(r) && r.to_set() == s);
    }
}

/// The first element of an increasing enumeration that belongs to `s` is the least of `s`.
pub proof fn lemma_least_of_sorted(q: Seq<Seq<char>>, i: int, s: Set<Seq<char>>)
    requires
        strictly_sorted(q),
        0 <= i < q.len(),
        s.contains(q[i]),
        forall|x: Seq<char>| #[trigger] s.contains(x) ==> q.contains(x),
        forall|j: int| 0 <= j < i ==> !s.contains(#[trigger] q[j]),
    ensures
        least_id(s) == q[i],
        forall|y: Seq<char>| #[trigger] s.contains(y) && y != q[i] ==> id_lt(q[i], y),
{
    lemma_id_order();
    assert forall|y: Seq<char>| #[trigger] s.contains(y) && y != q[i] implies id_lt(q[i], y) by {
        let k = choose|k: int| 0 <= k < q.len() && q[k] == y;
        if k < i {
            assert(!s.contains(q[k]));
        } else {
            assert(k != i);
        }
    }
    let x = least_id(s);
    assert(s.contains(x) && forall|y: Seq<char>| #[trigger] s.contains(y) && y != x ==> id_lt(x, y));
    if x != q[i] {
        assert(id_lt(x, q[i]));
        assert(id_lt(q[i], x));
    }
}

/// Identifiers of a sequence of nodes.
pub open spec fn node_ids(nodes: Seq<Node>) -> Seq<Seq<char>> {
    nodes.map_values(|n: Node| n.node_id@)
}

/// The first node that is blank or repeats an earlier identifier, as an error.
pub open spec fn node_fault(nodes: Seq<Node>) -> Option<GraphErrorView>
    decreases nodes.len(),
{
    if nodes.len() == 0 {
        None
    } else {
        match node_fault(nodes.drop_last()) {
            Some(e) => Some(e),
            None => {
                let id = nodes.last().node_id@;
                if is_blank(id) {
                    Some(GraphErrorView::EmptyId)
                } else if node_ids(nodes.drop_last()).contains(id) {
                    Some(GraphErrorView::DuplicateNode(id))
                } else {
                    None
                }
            },
        }
    }
}

/// The kind of each declared node.
pub open spec fn node_map(nodes: Seq<Node>) -> Map<Seq<char>, NodeKind>
    decreases nodes.len(),
{
    if nodes.len() == 0 {
        Map::empty()
    } else {
        node_map(nodes.drop_last()).insert(nodes.last().node_id@, nodes.last().kind)
    }
}

/// The declared identifiers are exactly those with a kind.
pub proof fn lemma_node_map_dom(nodes: Seq<Node>)
    ensures
        node_map(nodes).dom() == node_ids(nodes).to_set(),
    decreases nodes.len(),
{
    if nodes.len() > 0 {
        lemma_node_map_dom(nodes.drop_last());
        assert(node_ids(nodes) =~= node_ids(nodes.drop_last()).push(nodes.last().node_id@));
        node_ids(nodes.drop_last()).lemma_push_to_set_commute(nodes.last().node_id@);
    }
    assert(node_map(nodes).dom() =~= node_ids(nodes).to_set());
}

/// Once a prefix of the nodes is faulty, the whole sequence has that fault.
pub proof fn lemma_node_fault_prefix(nodes: Seq<Node>, k: int)
    requires
        0 <= k <= nodes.len(),
        node_fault(nodes.take(k)) is Some,
    ensures
        node_fault(nodes) == node_fault(nodes.take(k)),
    decreases nodes.len(),
{
    if k == nodes.len() {
        assert(nodes.take(k) =~= nodes);
    } else {
        assert(nodes.drop_last().take(k) =~= nodes.take(k));
        lemma_node_fault_prefix(nodes.drop_last(), k);
    }
}

/// Checks the nodes in order and records their kinds.
fn build_nodes(nodes: &Vec<Node>) -> (r: Result<IdMap<NodeKind>, GraphError>)
    ensures
        match r {
            Ok(t) => node_fault(nodes@) is None && t@ == node_map(nodes@),
            Err(e) => node_fault(nodes@) == Some(e@),
        },
{
    let mut table: IdMap<NodeKind> = IdMap::new();
    proof {
        assert(nodes@.take(0) =~= Seq::<Node>::empty());
    }
    for i in 0..nodes.len()
        invariant
            node_fault(nodes@.take(i as int)) is None,
            table@ == node_map(nodes@.take(i as int)),
    {
        proof {
            assert(nodes@.take(i + 1).drop_last() =~= nodes@.take(i as int));
            assert(nodes@.take(i + 1).last() == nodes@[i as int]);
            lemma_node_map_dom(nodes@.take(i as int));
        }
        let node = &nodes[i];
        if str_is_blank(node.node_id.as_str()) {
            proof {
                lemma_node_fault_prefix(nodes@, i + 1);
            }
            return Err(GraphError::EmptyId);
        }
        if table.contains_key(node.node_id.as_str()) {
            proof {
                lemma_node_fault_prefix(nodes@, i + 1);
            }
            return Err(GraphError::DuplicateNode(copy_id(&node.node_id)));
        }
        table.insert(copy_id(&node.node_id), node.kind);
    }
    proof {
        assert(nodes@.take(nodes@.len() as int) =~= nodes@);
    }
    Ok(table)
}

/// Identifiers of a sequence of rules.
pub open spec fn rule_ids(rules: Seq<Justification>) -> Seq<Seq<char>> {
    rules.map_values(|r: Justification| r.justification_id@)
}

/// Premises of a rule that are not declared nodes.
pub open spec fn missing_premises(kinds: Map<Seq<char>, NodeKind>, r: RuleView) -> Set<
    Seq<char>,
> {
    r.premises.to_set().filter(|p: Seq<char>| !kinds.contains_key(p))
}

/// What is wrong with one rule, given the declared nodes and the identifiers of the
/// rules before it, in the order the checks are made.
pub open spec fn rule_fault(
    kinds: Map<Seq<char>, NodeKind>,
    earlier: Set<Seq<char>>,
    r: RuleView,
) -> Option<GraphErrorView> {
    if is_blank(r.id) {
        Some(GraphErrorView::EmptyId)
    } else if earlier.contains(r.id) {
        Some(GraphErrorView::DuplicateJustification(r.id))
    } else if r.threshold == 0 || r.threshold > r.premises.len() {
        Some(GraphErrorView::InvalidThreshold(r.id))
    } else if !kinds.contains_key(r.conclusion) {
        Some(GraphErrorView::UnknownNode(r.conclusion))
    } else if kinds[r.conclusion] == NodeKind::Evidence {
        Some(GraphErrorView::EvidenceConclusion(r.conclusion))
    } else if !r.premises.no_duplicates() {
        Some(GraphErrorView::DuplicatePremise(r.id))
    } else if missing_premises(kinds, r) != Set::<Seq<char>>::empty() {
        Some(GraphErrorView::UnknownNode(least_id(missing_premises(kinds, r))))
    } else {
        None
    }
}

/// The fault of the first faulty rule, checking rules in order.
pub open spec fn rules_fault(kinds: Map<Seq<char>, NodeKind>, rules: Seq<Justification>) -> Option<
    GraphErrorView,
>
    decreases rules.len(),
{
    if rules.len() == 0 {
        None
    } else {
        match rules_fault(kinds, rules.drop_last()) {
            Some(e) => Some(e),
            None => rule_fault(kinds, rule_ids(rules.drop_last()).to_set(), rules.last()@),
        }
    }
}

/// Once a prefix of the rules is faulty, the whole sequence has that fault.
pub proof fn lemma_rules_fault_prefix(kinds: Map<Seq<char>, NodeKind>, rules: Seq<Justification>, k: int)
    requires
        0 <= k <= rules.len(),
        rules_fault(kinds, rules.take(k)) is Some,
    ensures
        rules_fault(kinds, rules) == rules_fault(kinds, rules.take(k)),
    decreases rules.len(),
{
    if k == rules.len() {
        assert(rules.take(k) =~= rules);
    } else {
        assert(rules.drop_last().take(k) =~= rules.take(k));
        lemma_rules_fault_prefix(kinds, rules.drop_last(), k);
    }
}

/// Checks one rule; on success returns its premises as an ordered set.
fn check_rule(kinds: &IdMap<NodeKind>, earlier: &IdMap<Justification>, rule: &Justification) -> (r:
    Result<IdSet, GraphError>)
    ensures
        match r {
            Ok(ps) => rule_fault(kinds@, earlier@.dom(), rule@) is None && ps@ == rule@.premises.to_set()
                && ps@.len() == rule@.premises.len(),
            Err(e) => rule_fault(kinds@, earlier@.dom(), rule@) == Some(e@),
        },
{
    let ghost rv = rule@;
    if str_is_blank(rule.justification_id.as_str()) {
        return Err(GraphError::EmptyId);
    }
    if earlier.contains_key(rule.justification_id.as_str()) {
        return Err(GraphError::DuplicateJustification(copy_id(&rule.justification_id)));
    }
    if rule.threshold == 0 || rule.threshold > rule.premises.len() {
        return Err(GraphError::InvalidThreshold(copy_id(&rule.justification_id)));
    }
    match kinds.get(rule.conclusion.as_str()) {
        None => {
            return Err(GraphError::UnknownNode(copy_id(&rule.conclusion)));
        },
        Some(kind) => {
            if *kind == NodeKind::Evidence {
                return Err(GraphError::EvidenceConclusion(copy_id(&rule.conclusion)));
            }
        },
    }
    let mut ps = IdSet::new();
    let n = rule.premises.len();
    for i in 0..n
        invariant
            n == rule.premises@.len(),
            rv == rule@,
            ps@ == rv.premises.take(i as int).to_set(),
    {
        ps.insert(copy_id(&rule.premises[i]));
        proof {
            assert(rv.premises.take(i + 1) =~= rv.premises.take(i as int).push(rv.premises[i as int]));
            rv.premises.take(i as int).lemma_push_to_set_commute(rv.premises[i as int]);
        }
    }
    proof {
        assert(rv.premises.take(n as int) =~= rv.premises);
        assert(rv.premises.len() == n);
    }
    if ps.len() != n {
        proof {
            if rv.premises.no_duplicates() {
                rv.premises.unique_seq_to_set();
            }
        }
        return Err(GraphError::DuplicatePremise(copy_id(&rule.justification_id)));
    }
    proof {
        rv.premises.lemma_no_dup_set_cardinality();
        use_type_invariant(&ps);
        ps.lemma_view();
    }
    let m = ps.len();
    for j in 0..m
        invariant
            m == ps.seq().len(),
            rv == rule@,
            ps@ == rv.premises.to_set(),
            ps@ == ps.seq().to_set(),
            strictly_sorted(ps.seq()),
            !is_blank(rv.id),
            !earlier@.dom().contains(rv.id),
            0 < rv.threshold <= rv.premises.len(),
            kinds@.contains_key(rv.conclusion),
            kinds@[rv.conclusion] != NodeKind::Evidence,
            rv.premises.no_duplicates(),
            forall|k: int| 0 <= k < j ==> kinds@.contains_key(#[trigger] ps.seq()[k]),
    {
        let p = ps.id_at(j);
        if !kinds.contains_key(p.as_str()) {
            proof {
                let miss = missing_premises(kinds@, rv);
                assert(miss.contains(ps.seq()[j as int]));
                assert forall|x: Seq<char>| #[trigger] miss.contains(x) implies ps.seq().contains(x) by {
                    assert(ps@.contains(x));
                }
                assert forall|k: int| 0 <= k < j implies !miss.contains(#[trigger] ps.seq()[k]) by {}
                lemma_least_of_sorted(ps.seq(), j as int, miss);
                assert(miss != Set::<Seq<char>>::empty());
            }
            return Err(GraphError::UnknownNode(copy_id(p)));
        }
    }
    proof {
        let miss = missing_premises(kinds@, rv);
        assert forall|x: Seq<char>| !miss.contains(x) by {
            if miss.contains(x) {
                assert(ps@.contains(x));
                let k = choose|k: int| 0 <= k < m && ps.seq()[k] == x;
            }
        }
        assert(miss =~= Set::<Seq<char>>::empty());
        rv.premises.unique_seq_to_set();
    }
    Ok(ps)
}

/// A rule as stored: premises in increasing order.
pub open spec fn normalized(r: RuleView) -> RuleView {
    RuleView {
        id: r.id,
        premises: sorted_ids(r.premises.to_set()),
        threshold: r.threshold,
        conclusion: r.conclusion,
    }
}

/// The views of a sequence of rules.
pub open spec fn rule_views(rules: Seq<Justification>) -> Seq<RuleView> {
    rules.map_values(|r: Justification| r@)
}

/// The stored rules by identifier.
pub open spec fn rule_map(rules: Seq<RuleView>) -> Map<Seq<char>, RuleView>
    decreases rules.len(),
{
    if rules.len() == 0 {
        Map::empty()
    } else {
        rule_map(rules.drop_last()).insert(rules.last().id, normalized(rules.last()))
    }
}

/// For each premise, the identifiers of the rules that use it.
pub open spec fn premise_index(rm: Map<Seq<char>, RuleView>) -> Map<Seq<char>, Set<Seq<char>>> {
    Map::new(
        |p: Seq<char>| exists|rid: Seq<char>| rm.contains_key(rid) && rm[rid].premises.contains(p),
        |p: Seq<char>|
            Set::new(|rid: Seq<char>| rm.contains_key(rid) && rm[rid].premises.contains(p)),
    )
}

/// For each conclusion, the identifiers of the rules that conclude it.
pub open spec fn conclusion_index(rm: Map<Seq<char>, RuleView>) -> Map<Seq<char>, Set<Seq<char>>> {
    Map::new(
        |c: Seq<char>| exists|rid: Seq<char>| rm.contains_key(rid) && rm[rid].conclusion == c,
        |c: Seq<char>| Set::new(|rid: Seq<char>| rm.contains_key(rid) && rm[rid].conclusion == c),
    )
}

/// Everything that `n` depends on: the premises of every rule that concludes it.
pub open spec fn dependencies(rm: Map<Seq<char>, RuleView>, n: Seq<char>) -> Set<Seq<char>> {
    Set::new(
        |p: Seq<char>|
            exists|rid: Seq<char>|
                rm.contains_key(rid) && rm[rid].conclusion == n && rm[rid].premises.contains(p),
    )
}

/// The dependencies of every concluded node.
pub open spec fn dependency_map(rm: Map<Seq<char>, RuleView>) -> Map<Seq<char>, Set<Seq<char>>> {
    Map::new(
        |c: Seq<char>| exists|rid: Seq<char>| rm.contains_key(rid) && rm[rid].conclusion == c,
        |c: Seq<char>| dependencies(rm, c),
    )
}

/// The element sets of a map of identifier sets.
pub open spec fn sets_view(m: Map<Seq<char>, IdSet>) -> Map<Seq<char>, Set<Seq<char>>> {
    m.map_values(|s: IdSet| s@)
}

/// The stored rule views of a map of rules.
pub open spec fn rules_view(m: Map<Seq<char>, Justification>) -> Map<Seq<char>, RuleView> {
    m.map_values(|j: Justification| j@)
}

/// The set stored for `k`, or the empty set.
pub open spec fn entry_or_empty(m: Map<Seq<char>, Set<Seq<char>>>, k: Seq<char>) -> Set<Seq<char>> {
    if m.contains_key(k) {
        m[k]
    } else {
        Set::empty()
    }
}

/// Adds every element of `ids` to the set stored for `key`.
fn add_ids(m: &mut IdMap<IdSet>, key: &String, ids: &IdSet)
    ensures
        sets_view(final(m)@) == sets_view(old(m)@).insert(
            key@,
            entry_or_empty(sets_view(old(m)@), key@).union(ids@),
        ),
{
    let ghost before = sets_view(m@);
    let mut s = match m.remove(key.as_str()) {
        Some(s) => s,
        None => IdSet::new(),
    };
    proof {
        assert(s@ == entry_or_empty(before, key@));
    }
    s.union_with(ids);
    m.insert(copy_id(key), s);
    proof {
        assert(sets_view(m@) =~= before.insert(key@, entry_or_empty(before, key@).union(ids@)));
    }
}

/// The stored rule identifiers are those of the rules given.
pub proof fn lemma_rule_map_dom(rules: Seq<RuleView>)
    ensures
        rule_map(rules).dom() == rules.map_values(|r: RuleView| r.id).to_set(),
    decreases rules.len(),
{
    let ids = rules.map_values(|r: RuleView| r.id);
    if rules.len() > 0 {
        let rest = rules.drop_last();
        lemma_rule_map_dom(rest);
        assert(ids =~= rest.map_values(|r: RuleView| r.id).push(rules.last().id));
        rest.map_values(|r: RuleView| r.id).lemma_push_to_set_commute(rules.last().id);
    }
    assert(rule_map(rules).dom() =~= ids.to_set());
}

/// The premise index after recording that rule `id` uses each premise in `ps`.
pub open spec fn premise_update(
    pi: Map<Seq<char>, Set<Seq<char>>>,
    ps: Seq<Seq<char>>,
    id: Seq<char>,
) -> Map<Seq<char>, Set<Seq<char>>> {
    Map::new(
        |p: Seq<char>| pi.contains_key(p) || ps.contains(p),
        |p: Seq<char>|
            if ps.contains(p) {
                entry_or_empty(pi, p).insert(id)
            } else {
                pi[p]
            },
    )
}

/// How the indexes grow when a rule with a fresh identifier is added.
pub proof fn lemma_indexes_insert(rm: Map<Seq<char>, RuleView>, nr: RuleView)
    requires
        !rm.contains_key(nr.id),
    ensures
        ({
            let rm2 = rm.insert(nr.id, nr);
            &&& conclusion_index(rm2) == conclusion_index(rm).insert(
                nr.conclusion,
                entry_or_empty(conclusion_index(rm), nr.conclusion).insert(nr.id),
            )
            &&& dependency_map(rm2) == dependency_map(rm).insert(
                nr.conclusion,
                entry_or_empty(dependency_map(rm), nr.conclusion).union(nr.premises.to_set()),
            )
            &&& premise_index(rm2) == premise_update(premise_index(rm), nr.premises, nr.id)
        }),
{
    let rm2 = rm.insert(nr.id, nr);
    let c = nr.conclusion;
    let ci = conclusion_index(rm);
    let ci2 = conclusion_index(rm2);
    let expect_ci = ci.insert(c, entry_or_empty(ci, c).insert(nr.id));
    assert forall|k: Seq<char>| #[trigger] ci2.contains_key(k) <==> expect_ci.contains_key(k) by {
        if ci.contains_key(k) {
            let rid = choose|rid: Seq<char>| rm.contains_key(rid) && rm[rid].conclusion == k;
            assert(rm2.contains_key(rid) && rm2[rid].conclusion == k);
        }
        if k == c {
            assert(rm2.contains_key(nr.id) && rm2[nr.id].conclusion == k);
        }
        if ci2.contains_key(k) && k != c {
            let rid = choose|rid: Seq<char>| rm2.contains_key(rid) && rm2[rid].conclusion == k;
            assert(rm.contains_key(rid) && rm[rid].conclusion == k);
        }
    }
    assert forall|k: Seq<char>| #[trigger] ci2.contains_key(k) implies ci2[k] =~= expect_ci[k] by {
        if k == c && ci.contains_key(k) {
            assert(ci2[k] =~= ci[k].insert(nr.id));
        } else if k == c {
            assert(ci2[k] =~= Set::<Seq<char>>::empty().insert(nr.id));
        } else {
            assert(ci2[k] =~= ci[k]);
        }
    }
    assert(ci2 =~= expect_ci);
    let dm = dependency_map(rm);
    let dm2 = dependency_map(rm2);
    let expect_dm = dm.insert(c, entry_or_empty(dm, c).union(nr.premises.to_set()));
    assert forall|k: Seq<char>| #[trigger] dm2.contains_key(k) <==> expect_dm.contains_key(k) by {
        if dm.contains_key(k) {
            let rid = choose|rid: Seq<char>| rm.contains_key(rid) && rm[rid].conclusion == k;
            assert(rm2.contains_key(rid) && rm2[rid].conclusion == k);
        }
        if k == c {
            assert(rm2.contains_key(nr.id) && rm2[nr.id].conclusion == k);
        }
        if dm2.contains_key(k) && k != c {
            let rid = choose|rid: Seq<char>| rm2.contains_key(rid) && rm2[rid].conclusion == k;
            assert(rm.contains_key(rid) && rm[rid].conclusion == k);
        }
    }
    assert forall|k: Seq<char>| #[trigger] dm2.contains_key(k) implies dm2[k] =~= expect_dm[k] by {
        assert forall|p: Seq<char>| #[trigger] dm2[k].contains(p) <==> expect_dm[k].contains(p) by {
            if dm2[k].contains(p) {
                let rid = choose|rid: Seq<char>|
                    rm2.contains_key(rid) && rm2[rid].conclusion == k && rm2[rid].premises.contains(p);
                if rid != nr.id {
                    assert(rm.contains_key(rid) && rm[rid].conclusion == k);
                    assert(dm.contains_key(k));
                    assert(dependencies(rm, k).contains(p));
                }
            }
            if expect_dm[k].contains(p) {
                if k == c && nr.premises.to_set().contains(p) {
                    assert(rm2.contains_key(nr.id) && rm2[nr.id].conclusion == k
                        && rm2[nr.id].premises.contains(p));
                } else {
                    assert(dm.contains_key(k) && dm[k].contains(p));
                    let rid = choose|rid: Seq<char>|
                        rm.contains_key(rid) && rm[rid].conclusion == k && rm[rid].premises.contains(p);
                    assert(rm2.contains_key(rid) && rm2[rid].conclusion == k && rm2[rid].premises.contains(p));
                }
            }
        }
    }
    assert(dm2 =~= expect_dm);
    let pi = premise_index(rm);
    let pi2 = premise_index(rm2);
    let expect_pi = premise_update(pi, nr.premises, nr.id);
    assert forall|k: Seq<char>| #[trigger] pi2.contains_key(k) <==> expect_pi.contains_key(k) by {
        if pi.contains_key(k) {
            let rid = choose|rid: Seq<char>| rm.contains_key(rid) && rm[rid].premises.contains(k);
            assert(rm2.contains_key(rid) && rm2[rid].premises.contains(k));
        }
        if nr.premises.contains(k) {
            assert(rm2.contains_key(nr.id) && rm2[nr.id].premises.contains(k));
        }
        if pi2.contains_key(k) && !nr.premises.contains(k) {
            let rid = choose|rid: Seq<char>| rm2.contains_key(rid) && rm2[rid].premises.contains(k);
            assert(rm.contains_key(rid) && rm[rid].premises.contains(k));
        }
    }
    assert forall|k: Seq<char>| #[trigger] pi2.contains_key(k) implies pi2[k] =~= expect_pi[k] by {
        if nr.premises.contains(k) && !pi.contains_key(k) {
            assert forall|rid: Seq<char>| #[trigger] pi2[k].contains(rid) implies rid == nr.id by {
                if rid != nr.id {
                    assert(rm.contains_key(rid) && rm[rid].premises.contains(k));
                }
            }
        }
    }
    assert(pi2 =~= expect_pi);
}

/// Adding one premise of a rule to the premise index.
pub proof fn lemma_premise_update_step(
    pi: Map<Seq<char>, Set<Seq<char>>>,
    ps: Seq<Seq<char>>,
    id: Seq<char>,
    j: int,
)
    requires
        0 <= j < ps.len(),
        ps.no_duplicates(),
    ensures
        premise_update(pi, ps.take(j + 1), id) == premise_update(pi, ps.take(j), id).insert(
            ps[j],
            entry_or_empty(premise_update(pi, ps.take(j), id), ps[j]).union(
                Set::<Seq<char>>::empty().insert(id),
            ),
        ),
{
    let a = premise_update(pi, ps.take(j), id);
    let b = premise_update(pi, ps.take(j + 1), id);
    assert(ps.take(j + 1) =~= ps.take(j).push(ps[j]));
    assert(!ps.take(j).contains(ps[j]));
    assert forall|k: Seq<char>| #[trigger] ps.take(j + 1).contains(k) <==> ps.take(j).contains(k)
        || k == ps[j] by {
        if ps.take(j + 1).contains(k) {
            let x = choose|x: int| 0 <= x < j + 1 && #[trigger] ps.take(j + 1)[x] == k;
            if x < j {
                assert(ps.take(j)[x] == k);
            }
        }
        if ps.take(j).contains(k) {
            let x = choose|x: int| 0 <= x < j && #[trigger] ps.take(j)[x] == k;
            assert(ps.take(j + 1)[x] == k);
        }
        if k == ps[j] {
            assert(ps.take(j + 1)[j] == k);
        }
    }
    let e = a.insert(ps[j], entry_or_empty(a, ps[j]).union(Set::<Seq<char>>::empty().insert(id)));
    assert forall|k: Seq<char>| #[trigger] b.contains_key(k) implies b[k] =~= e[k] by {}
    assert(b =~= e);
}

/// A stored rule is consistent with the declared nodes.
pub open spec fn rule_ok(kinds: Map<Seq<char>, NodeKind>, rid: Seq<char>, r: RuleView) -> bool {
    &&& r.id == rid
    &&& 1 <= r.threshold <= r.premises.len()
    &&& strictly_sorted(r.premises)
    &&& forall|i: int| 0 <= i < r.premises.len() ==> kinds.contains_key(#[trigger] r.premises[i])
    &&& kinds.contains_key(r.conclusion)
    &&& kinds[r.conclusion] != NodeKind::Evidence
}

/// Checks the rules in order and builds the rule table and its indexes.
fn build_rules(kinds: &IdMap<NodeKind>, rules: &Vec<Justification>) -> (r: Result<
    (IdMap<Justification>, IdMap<IdSet>, IdMap<IdSet>, IdMap<IdSet>),
    GraphError,
>)
    ensures
        match r {
            Ok((table, by_premise, by_conclusion, deps)) => {
                let rm = rule_map(rule_views(rules@));
                &&& rules_fault(kinds@, rules@) is None
                &&& rules_view(table@) == rm
                &&& sets_view(by_premise@) == premise_index(rm)
                &&& sets_view(by_conclusion@) == conclusion_index(rm)
                &&& sets_view(deps@) == dependency_map(rm)
                &&& forall|rid: Seq<char>| #[trigger] rm.contains_key(rid) ==> rule_ok(kinds@, rid, rm[rid])
            },
            Err(e) => rules_fault(kinds@, rules@) == Some(e@),
        },
{
    let mut table: IdMap<Justification> = IdMap::new();
    let mut by_premise: IdMap<IdSet> = IdMap::new();
    let mut by_conclusion: IdMap<IdSet> = IdMap::new();
    let mut deps: IdMap<IdSet> = IdMap::new();
    proof {
        assert(rules@.take(0) =~= Seq::<Justification>::empty());
        assert(rule_views(rules@.take(0)) =~= Seq::<RuleView>::empty());
        assert(rules_view(table@) =~= Map::<Seq<char>, RuleView>::empty());
        assert(sets_view(by_premise@) =~= premise_index(Map::<Seq<char>, RuleView>::empty()));
        assert(sets_view(by_conclusion@) =~= conclusion_index(Map::<Seq<char>, RuleView>::empty()));
        assert(sets_view(deps@) =~= dependency_map(Map::<Seq<char>, RuleView>::empty()));
    }
    for i in 0..rules.len()
        invariant
            rules_fault(kinds@, rules@.take(i as int)) is None,
            rules_view(table@) == rule_map(rule_views(rules@.take(i as int))),
            sets_view(by_premise@) == premise_index(rules_view(table@)),
            sets_view(by_conclusion@) == conclusion_index(rules_view(table@)),
            sets_view(deps@) == dependency_map(rules_view(table@)),
            forall|rid: Seq<char>| #[trigger] rules_view(table@).contains_key(rid) ==> rule_ok(
                kinds@,
                rid,
                rules_view(table@)[rid],
            ),
    {
        let rule = &rules[i];
        let ghost rm = rules_view(table@);
        let ghost rv = rule@;
        proof {
            assert(rules@.take(i + 1).drop_last() =~= rules@.take(i as int));
            assert(rules@.take(i + 1).last() == rules@[i as int]);
            assert(rule_views(rules@.take(i + 1)).drop_last() =~= rule_views(rules@.take(i as int)));
            assert(rule_views(rules@.take(i + 1)).last() == rv);
            lemma_rule_map_dom(rule_views(rules@.take(i as int)));
            assert(rule_views(rules@.take(i as int)).map_values(|r: RuleView| r.id) =~= rule_ids(
                rules@.take(i as int),
            ));
            assert(table@.dom() =~= rm.dom());
        }
        let ps = match check_rule(kinds, &table, rule) {
            Ok(ps) => ps,
            Err(e) => {
                proof {
                    lemma_rules_fault_prefix(kinds@, rules@, i + 1);
                }
                return Err(e);
            },
        };
        proof {
            use_type_invariant(&ps);
            ps.lemma_view();
            lemma_sorted_ids(ps.seq());
        }
        let ghost nr = normalized(rv);
        let ghost id = rv.id;
        let id_set = IdSet::singleton(copy_id(&rule.justification_id));
        // Every premise is used by this rule.
        let m = ps.len();
        for j in 0..m
            invariant
                m == ps.seq().len(),
                ps.seq().no_duplicates(),
                id_set@ == Set::<Seq<char>>::empty().insert(id),
                sets_view(by_premise@) == premise_update(premise_index(rm), ps.seq().take(j as int), id),
        {
            proof {
                lemma_premise_update_step(premise_index(rm), ps.seq(), id, j as int);
            }
            add_ids(&mut by_premise, ps.id_at(j), &id_set);
        }
        add_ids(&mut by_conclusion, &rule.conclusion, &id_set);
        add_ids(&mut deps, &rule.conclusion, &ps);
        let stored = Justification {
            justification_id: copy_id(&rule.justification_id),
            premises: ps.to_vec(),
            threshold: rule.threshold,
            conclusion: copy_id(&rule.conclusion),
        };
        table.insert(copy_id(&rule.justification_id), stored);
        proof {
            assert(stored@ == nr);
            assert(rules_view(table@) =~= rm.insert(id, nr));
            assert(!rm.contains_key(id));
            lemma_indexes_insert(rm, nr);
            assert(ps.seq().take(m as int) =~= ps.seq());
            assert(nr.premises == ps.seq());
            assert(nr.premises.to_set() == ps@);
            assert(rule_ids(rules@.take(i as int)).to_set() == table@.dom().remove(id));
            assert(rules_fault(kinds@, rules@.take(i + 1)) is None);
            assert(rules_view(table@) == rule_map(rule_views(rules@.take(i + 1))));
            assert(sets_view(by_premise@) == premise_index(rules_view(table@)));
            assert(entry_or_empty(conclusion_index(rm), nr.conclusion).union(
                Set::<Seq<char>>::empty().insert(id),
            ) =~= entry_or_empty(conclusion_index(rm), nr.conclusion).insert(id));
            assert(sets_view(by_conclusion@) == conclusion_index(rules_view(table@)));
            assert(sets_view(deps@) == dependency_map(rules_view(table@)));
            assert(rule_ok(kinds@, id, nr)) by {
                assert forall|k: int| 0 <= k < nr.premises.len() implies kinds@.contains_key(#[trigger] nr.premises[k]) by {
                    assert(ps@.contains(nr.premises[k]));
                    assert(rv.premises.to_set().contains(nr.premises[k]));
                    if !kinds@.contains_key(nr.premises[k]) {
                        assert(missing_premises(kinds@, rv).contains(nr.premises[k]));
                    }
                }
            }
        }
    }
    proof {
        assert(rules@.take(rules@.len() as int) =~= rules@);
    }
    Ok((table, by_premise, by_conclusion, deps))
}

/// Non-evidence nodes that no rule concludes.
pub open spec fn unsupported_nodes(kinds: Map<Seq<char>, NodeKind>, concluded: Set<Seq<char>>) -> Set<
    Seq<char>,
> {
    kinds.dom().filter(|n: Seq<char>| kinds[n] != NodeKind::Evidence && !concluded.contains(n))
}

/// The nodes that can be placed after `done`: declared, not yet placed, and with
/// everything they depend on already placed.
#[verifier::opaque]
pub open spec fn ready_set(
    nodes: Set<Seq<char>>,
    dm: Map<Seq<char>, Set<Seq<char>>>,
    done: Seq<Seq<char>>,
) -> Set<Seq<char>> {
    nodes.filter(
        |v: Seq<char>| !done.contains(v) && entry_or_empty(dm, v).subset_of(done.to_set()),
    )
}

/// Every node once, each after everything it depends on.
pub open spec fn is_topological(
    nodes: Set<Seq<char>>,
    dm: Map<Seq<char>, Set<Seq<char>>>,
    order: Seq<Seq<char>>,
) -> bool {
    &&& order.no_duplicates()
    &&& order.to_set() == nodes
    &&& forall|i: int|
        0 <= i < order.len() ==> entry_or_empty(dm, #[trigger] order[i]).subset_of(
            order.take(i).to_set(),
        )
}

/// The dependencies admit an order: there is no cycle.
pub open spec fn acyclic(nodes: Set<Seq<char>>, dm: Map<Seq<char>, Set<Seq<char>>>) -> bool {
    exists|order: Seq<Seq<char>>| is_topological(nodes, dm, order)
}

/// Each node of `order` is the least of those ready after the nodes before it.
pub open spec fn least_ready_order(
    nodes: Set<Seq<char>>,
    dm: Map<Seq<char>, Set<Seq<char>>>,
    order: Seq<Seq<char>>,
) -> bool {
    forall|i: int|
        0 <= i < order.len() ==> {
            &&& ready_set(nodes, dm, order.take(i)).contains(#[trigger] order[i])
            &&& forall|v: Seq<char>|
                ready_set(nodes, dm, order.take(i)).contains(v) && v != order[i] ==> id_lt(
                    order[i],
                    v,
                )
        }
}

/// The first non-evidence node, in identifier order, that no rule concludes.
fn find_unsupported(kinds: &IdMap<NodeKind>, concluded: &IdMap<IdSet>) -> (r: Option<String>)
    ensures
        match r {
            Some(n) => unsupported_nodes(kinds@, concluded@.dom()) != Set::<Seq<char>>::empty()
                && n@ == least_id(unsupported_nodes(kinds@, concluded@.dom())),
            None => unsupported_nodes(kinds@, concluded@.dom()) == Set::<Seq<char>>::empty(),
        },
{
    proof {
        use_type_invariant(kinds);
        kinds.lemma_view();
    }
    let ghost un = unsupported_nodes(kinds@, concluded@.dom());
    let n = kinds.len();
    for k in 0..n
        invariant
            n == kinds.key_seq().len(),
            strictly_sorted(kinds.key_seq()),
            kinds@.dom() == kinds.key_seq().to_set(),
            forall|i: int|
                0 <= i < kinds.key_seq().len() ==> #[trigger] kinds@[kinds.key_seq()[i]]
                    == kinds.value_seq()[i],
            un == unsupported_nodes(kinds@, concluded@.dom()),
            forall|j: int| 0 <= j < k ==> !un.contains(#[trigger] kinds.key_seq()[j]),
    {
        let id = kinds.key_at(k);
        if *kinds.value_at(k) != NodeKind::Evidence && !concluded.contains_key(id.as_str()) {
            proof {
                assert(un.contains(kinds.key_seq()[k as int]));
                assert forall|x: Seq<char>| #[trigger] un.contains(x) implies kinds.key_seq().contains(
                    x,
                ) by {
                    assert(kinds@.dom().contains(x));
                }
                lemma_least_of_sorted(kinds.key_seq(), k as int, un);
            }
            return Some(copy_id(id));
        }
    }
    proof {
        assert forall|x: Seq<char>| !un.contains(x) by {
            if un.contains(x) {
                assert(kinds@.dom().contains(x));
                let j = choose|j: int| 0 <= j < n && kinds.key_seq()[j] == x;
            }
        }
        assert(un =~= Set::<Seq<char>>::empty());
    }
    None
}

/// Whether everything `v` depends on is in `done`.
fn dependencies_placed(deps: &IdMap<IdSet>, v: &str, done: &IdSet) -> (b: bool)
    ensures
        b == entry_or_empty(sets_view(deps@), v@).subset_of(done@),
{
    match deps.get(v) {
        None => true,
        Some(ds) => {
            proof {
                use_type_invariant(ds);
                ds.lemma_view();
                assert(entry_or_empty(sets_view(deps@), v@) == ds@);
            }
            let m = ds.len();
            for j in 0..m
                invariant
                    m == ds.seq().len(),
                    ds@ == ds.seq().to_set(),
                    entry_or_empty(sets_view(deps@), v@) == ds@,
                    forall|i: int| 0 <= i < j ==> done@.contains(#[trigger] ds.seq()[i]),
            {
                if !done.contains(ds.id_at(j).as_str()) {
                    proof {
                        assert(ds@.contains(ds.seq()[j as int]));
                    }
                    return false;
                }
            }
            proof {
                assert forall|x: Seq<char>| #[trigger] ds@.contains(x) implies done@.contains(x) by {
                    let i = choose|i: int| 0 <= i < m && ds.seq()[i] == x;
                }
            }
            true
        },
    }
}

/// With nothing ready and some node unplaced, no order of all nodes respects the
/// dependencies.
pub proof fn lemma_stuck_means_cycle(
    nodes: Set<Seq<char>>,
    dm: Map<Seq<char>, Set<Seq<char>>>,
    done: Seq<Seq<char>>,
    order: Seq<Seq<char>>,
    k: int,
)
    requires
        ready_set(nodes, dm, done) == Set::<Seq<char>>::empty(),
        done.to_set() != nodes,
        done.to_set().subset_of(nodes),
        0 <= k <= order.len(),
        forall|j: int| 0 <= j < k ==> done.contains(#[trigger] order[j]),
    ensures
        !is_topological(nodes, dm, order),
    decreases order.len() - k,
{
    if is_topological(nodes, dm, order) {
        if k == order.len() {
            assert(!(done.to_set() =~= nodes));
            let x = choose|x: Seq<char>| !(done.to_set().contains(x) <==> nodes.contains(x));
            assert(nodes.contains(x));
            assert(order.to_set().contains(x));
            let j = choose|j: int| 0 <= j < order.len() && order[j] == x;
            assert(done.contains(order[j]));
        } else if done.contains(order[k]) {
            lemma_stuck_means_cycle(nodes, dm, done, order, k + 1);
        } else {
            let v = order[k];
            assert(order.to_set().contains(v));
            assert(entry_or_empty(dm, v).subset_of(done.to_set())) by {
                assert forall|p: Seq<char>| #[trigger] entry_or_empty(dm, v).contains(p) implies done.to_set().contains(p) by {
                    assert(order.take(k).to_set().contains(p));
                    let j = choose|j: int| 0 <= j < k && order.take(k)[j] == p;
                    assert(order[j] == p);
                }
            }
            lemma_ready_member(nodes, dm, done, v);
            assert(ready_set(nodes, dm, done).contains(v));
        }
    }
}

/// Placing the least ready node keeps the order least-ready.
pub proof fn lemma_place_least_ready(
    nodes: Set<Seq<char>>,
    dm: Map<Seq<char>, Set<Seq<char>>>,
    o: Seq<Seq<char>>,
    v: Seq<char>,
)
    requires
        least_ready_order(nodes, dm, o),
        o.no_duplicates(),
        o.to_set().subset_of(nodes),
        ready_set(nodes, dm, o).contains(v),
        forall|w: Seq<char>| ready_set(nodes, dm, o).contains(w) && w != v ==> id_lt(v, w),
    ensures
        least_ready_order(nodes, dm, o.push(v)),
        o.push(v).no_duplicates(),
        o.push(v).to_set().subset_of(nodes),
        o.push(v).to_set() == o.to_set().insert(v),
{
    let o2 = o.push(v);
    lemma_ready_member(nodes, dm, o, v);
    assert(o2.take(o.len() as int) =~= o);
    o.lemma_push_to_set_commute(v);
    assert(!o.contains(v));
    assert forall|a: int, b: int| 0 <= a < o2.len() && 0 <= b < o2.len() && a != b implies o2[a]
        != o2[b] by {
        if a < o.len() && b < o.len() {
        } else if a == o.len() {
            assert(o.contains(o2[b]));
        } else {
            assert(o.contains(o2[a]));
        }
    }
    assert forall|i: int| 0 <= i < o2.len() implies {
        &&& ready_set(nodes, dm, o2.take(i)).contains(#[trigger] o2[i])
        &&& forall|w: Seq<char>|
            ready_set(nodes, dm, o2.take(i)).contains(w) && w != o2[i] ==> id_lt(o2[i], w)
    } by {
        if i < o.len() {
            assert(o2.take(i) =~= o.take(i));
            assert(o2[i] == o[i]);
        } else {
            assert(o2.take(i) =~= o);
        }
    }
}

/// What membership in the ready set means.
pub proof fn lemma_ready_member(
    nodes: Set<Seq<char>>,
    dm: Map<Seq<char>, Set<Seq<char>>>,
    done: Seq<Seq<char>>,
    v: Seq<char>,
)
    ensures
        ready_set(nodes, dm, done).contains(v) <==> nodes.contains(v) && !done.to_set().contains(v)
            && entry_or_empty(dm, v).subset_of(done.to_set()),
{
    reveal(ready_set);
}

/// The first ready node of a scan in identifier order is the least ready node.
pub proof fn lemma_least_ready_found(
    keys: Seq<Seq<char>>,
    nodes: Set<Seq<char>>,
    dm: Map<Seq<char>, Set<Seq<char>>>,
    o: Seq<Seq<char>>,
    k: int,
)
    requires
        strictly_sorted(keys),
        nodes == keys.to_set(),
        0 <= k < keys.len(),
        !o.to_set().contains(keys[k]),
        entry_or_empty(dm, keys[k]).subset_of(o.to_set()),
        forall|j: int| 0 <= j < k ==> !ready_set(nodes, dm, o).contains(#[trigger] keys[j]),
    ensures
        ready_set(nodes, dm, o).contains(keys[k]),
        forall|w: Seq<char>|
            ready_set(nodes, dm, o).contains(w) && w != keys[k] ==> id_lt(keys[k], w),
{
    let ready = ready_set(nodes, dm, o);
    lemma_ready_member(nodes, dm, o, keys[k]);
    assert(keys.contains(keys[k]));
    assert(ready.contains(keys[k]));
    assert forall|x: Seq<char>| #[trigger] ready.contains(x) implies keys.contains(x) by {
        lemma_ready_member(nodes, dm, o, x);
        assert(keys.to_set().contains(x));
    }
    lemma_least_of_sorted(keys, k, ready);
}

/// The position, in identifier order, of the least node ready after `o`.
fn least_ready_index(kinds: &IdMap<NodeKind>, deps: &IdMap<IdSet>, done: &IdSet, Ghost(o): Ghost<
    Seq<Seq<char>>,
>) -> (r: Option<usize>)
    requires
        done@ == o.to_set(),
    ensures
        ({
            let ready = ready_set(kinds@.dom(), sets_view(deps@), o);
            match r {
                Some(f) => f < kinds.key_seq().len() && ready.contains(kinds.key_seq()[f as int])
                    && forall|w: Seq<char>|
                    ready.contains(w) && w != kinds.key_seq()[f as int] ==> id_lt(
                        kinds.key_seq()[f as int],
                        w,
                    ),
                None => ready == Set::<Seq<char>>::empty(),
            }
        }),
{
    proof {
        use_type_invariant(kinds);
        kinds.lemma_view();
    }
    let ghost nodes = kinds@.dom();
    let ghost dm = sets_view(deps@);
    let ghost ready = ready_set(nodes, dm, o);
    let n = kinds.len();
    let mut k: usize = 0;
    while k < n
        invariant
            n == kinds.key_seq().len(),
            0 <= k <= n,
            done@ == o.to_set(),
            dm == sets_view(deps@),
            ready == ready_set(nodes, dm, o),
            nodes == kinds@.dom(),
            nodes == kinds.key_seq().to_set(),
            strictly_sorted(kinds.key_seq()),
            forall|j: int| 0 <= j < k ==> !ready.contains(#[trigger] kinds.key_seq()[j]),
        decreases n - k,
    {
        let v = kinds.key_at(k);
        proof {
            lemma_ready_member(nodes, dm, o, v@);
            assert(nodes.contains(v@));
        }
        if !done.contains(v.as_str()) && dependencies_placed(deps, v.as_str(), done) {
            proof {
                lemma_least_ready_found(kinds.key_seq(), nodes, dm, o, k as int);
            }
            return Some(k);
        }
        k = k + 1;
    }
    proof {
        assert forall|x: Seq<char>| !ready.contains(x) by {
            if ready.contains(x) {
                lemma_ready_member(nodes, dm, o, x);
                assert(nodes.contains(x));
                let j = choose|j: int| 0 <= j < n && kinds.key_seq()[j] == x;
            }
        }
        assert(ready =~= Set::<Seq<char>>::empty());
    }
    None
}

/// Places the nodes one at a time, always the least ready one, until none is ready.
fn order_nodes(kinds: &IdMap<NodeKind>, deps: &IdMap<IdSet>) -> (order: Vec<String>)
    ensures
        ({
            let nodes = kinds@.dom();
            let dm = sets_view(deps@);
            let o = ids_of(order@);
            &&& least_ready_order(nodes, dm, o)
            &&& o.no_duplicates()
            &&& o.to_set().subset_of(nodes)
            &&& (o.len() == nodes.len()) == acyclic(nodes, dm)
            &&& o.len() == nodes.len() ==> is_topological(nodes, dm, o)
        }),
{
    proof {
        use_type_invariant(kinds);
        kinds.lemma_view();
    }
    let ghost nodes = kinds@.dom();
    let ghost dm = sets_view(deps@);
    let n = kinds.len();
    let mut order: Vec<String> = Vec::new();
    let mut done = IdSet::new();
    proof {
        assert(ids_of(order@) =~= Seq::<Seq<char>>::empty());
    }
    loop
        invariant
            n == kinds.key_seq().len(),
            n == nodes.len(),
            nodes == kinds@.dom(),
            nodes.finite(),
            dm == sets_view(deps@),
            done@ == ids_of(order@).to_set(),
            least_ready_order(nodes, dm, ids_of(order@)),
            ids_of(order@).no_duplicates(),
            ids_of(order@).to_set().subset_of(nodes),
            order@.len() <= n,
        ensures
            least_ready_order(nodes, dm, ids_of(order@)),
            ids_of(order@).no_duplicates(),
            ids_of(order@).to_set().subset_of(nodes),
            ready_set(nodes, dm, ids_of(order@)) == Set::<Seq<char>>::empty(),
        decreases n - order@.len(),
    {
        let ghost o = ids_of(order@);
        match least_ready_index(kinds, deps, &done, Ghost(o)) {
            None => {
                break;
            },
            Some(f) => {
                let v = copy_id(kinds.key_at(f));
                proof {
                    lemma_place_least_ready(nodes, dm, o, v@);
                }
                done.insert(copy_id(&v));
                order.push(v);
                proof {
                    let o2 = ids_of(order@);
                    assert(o2 =~= o.push(v@));
                    o2.unique_seq_to_set();
                    vstd::set_lib::lemma_len_subset(o2.to_set(), nodes);
                }
            },
        }
    }
    proof {
        let o = ids_of(order@);
        o.unique_seq_to_set();
        if o.len() == nodes.len() {
            vstd::set_lib::lemma_subset_equality(o.to_set(), nodes);
            assert(is_topological(nodes, dm, o)) by {
                assert forall|i: int| 0 <= i < o.len() implies entry_or_empty(dm, #[trigger] o[i]).subset_of(
                    o.take(i).to_set(),
                ) by {
                    assert(ready_set(nodes, dm, o.take(i)).contains(o[i]));
                    lemma_ready_member(nodes, dm, o.take(i), o[i]);
                }
            }
        } else {
            assert(o.to_set() != nodes);
            if acyclic(nodes, dm) {
                let t = choose|t: Seq<Seq<char>>| is_topological(nodes, dm, t);
                lemma_stuck_means_cycle(nodes, dm, o, t, 0);
            }
        }
    }
    order
}

/// Everything that can be wrong with a configuration, in the order it is checked:
/// the nodes, then the rules one by one, then conclusions without rules, then cycles.
pub open spec fn build_fault(nodes: Seq<Node>, rules: Seq<Justification>) -> Option<GraphErrorView> {
    match node_fault(nodes) {
        Some(e) => Some(e),
        None => {
            let kinds = node_map(nodes);
            match rules_fault(kinds, rules) {
                Some(e) => Some(e),
                None => {
                    let rm = rule_map(rule_views(rules));
                    let un = unsupported_nodes(kinds, conclusion_index(rm).dom());
                    if un != Set::<Seq<char>>::empty() {
                        Some(GraphErrorView::UnsupportedConclusion(least_id(un)))
                    } else if !acyclic(kinds.dom(), dependency_map(rm)) {
                        Some(GraphErrorView::Cycle)
                    } else {
                        None
                    }
                },
            }
        },
    }
}

/// The graph with identifiers as character sequences.
pub struct GraphView {
    pub nodes: Map<Seq<char>, NodeKind>,
    pub rules: Map<Seq<char>, RuleView>,
    pub by_premise: Map<Seq<char>, Seq<Seq<char>>>,
    pub by_conclusion: Map<Seq<char>, Seq<Seq<char>>>,
    pub order: Seq<Seq<char>>,
}

/// The ordered identifier lists of a map of identifier sets.
pub open spec fn sorted_lists(m: Map<Seq<char>, Set<Seq<char>>>) -> Map<Seq<char>, Seq<Seq<char>>> {
    m.map_values(|s: Set<Seq<char>>| sorted_ids(s))
}

/// The views of a map of identifier lists.
pub open spec fn lists_view(m: Map<Seq<char>, Vec<String>>) -> Map<Seq<char>, Seq<Seq<char>>> {
    m.map_values(|v: Vec<String>| ids_of(v@))
}

/// A consistent graph: every rule refers to declared nodes and concludes a
/// non-evidence node, every non-evidence node has a rule, the indexes list the rules
/// in identifier order, and the order places each node after what it depends on,
/// always the least ready node first.
pub open spec fn graph_wf(g: GraphView) -> bool {
    &&& g.nodes.dom().finite()
    &&& g.rules.dom().finite()
    &&& forall|rid: Seq<char>| #[trigger] g.rules.contains_key(rid) ==> rule_ok(g.nodes, rid, g.rules[rid])
    &&& g.by_premise == sorted_lists(premise_index(g.rules))
    &&& g.by_conclusion == sorted_lists(conclusion_index(g.rules))
    &&& unsupported_nodes(g.nodes, conclusion_index(g.rules).dom()) == Set::<Seq<char>>::empty()
    &&& is_topological(g.nodes.dom(), dependency_map(g.rules), g.order)
    &&& least_ready_order(g.nodes.dom(), dependency_map(g.rules), g.order)
}

/// Two least-ready topological orders of the same nodes and dependencies agree on
/// every prefix.
pub proof fn lemma_least_ready_prefix(
    nodes: Set<Seq<char>>,
    dm: Map<Seq<char>, Set<Seq<char>>>,
    o1: Seq<Seq<char>>,
    o2: Seq<Seq<char>>,
    k: int,
)
    requires
        least_ready_order(nodes, dm, o1),
        least_ready_order(nodes, dm, o2),
        0 <= k <= o1.len(),
        k <= o2.len(),
    ensures
        o1.take(k) == o2.take(k),
    decreases k,
{
    if k > 0 {
        let i = k - 1;
        lemma_least_ready_prefix(nodes, dm, o1, o2, i);
        let r = ready_set(nodes, dm, o1.take(i));
        assert(ready_set(nodes, dm, o2.take(i)) == r);
        assert(r.contains(o1[i]));
        assert(r.contains(o2[i]));
        if o1[i] != o2[i] {
            lemma_id_order();
            assert(id_lt(o1[i], o2[i]));
            assert(id_lt(o2[i], o1[i]));
        }
        assert(o1.take(k) =~= o2.take(k)) by {
            assert forall|j: int| 0 <= j < k implies o1.take(k)[j] == o2.take(k)[j] by {
                if j < i {
                    assert(o1.take(i)[j] == o2.take(i)[j]);
                }
            }
        }
    }
}

/// The topological order of a consistent graph is determined by its nodes and
/// dependencies.
pub proof fn lemma_least_ready_unique(
    nodes: Set<Seq<char>>,
    dm: Map<Seq<char>, Set<Seq<char>>>,
    o1: Seq<Seq<char>>,
    o2: Seq<Seq<char>>,
)
    requires
        is_topological(nodes, dm, o1),
        least_ready_order(nodes, dm, o1),
        is_topological(nodes, dm, o2),
        least_ready_order(nodes, dm, o2),
    ensures
        o1 == o2,
{
    o1.unique_seq_to_set();
    o2.unique_seq_to_set();
    lemma_least_ready_prefix(nodes, dm, o1, o2, o1.len() as int);
    assert(o1.take(o1.len() as int) =~= o1);
    assert(o2.take(o2.len() as int) =~= o2);
}

/// A consistent graph is determined by its nodes and rules: the indexes and the
/// topological order follow from them.
pub proof fn lemma_graph_determined(g1: GraphView, g2: GraphView)
    requires
        graph_wf(g1),
        graph_wf(g2),
        g1.nodes == g2.nodes,
        g1.rules == g2.rules,
    ensures
        g1 == g2,
{
    lemma_least_ready_unique(g1.nodes.dom(), dependency_map(g1.rules), g1.order, g2.order);
}

/// The (identifier, kind) pairs of the declared nodes, regardless of order.
pub open spec fn node_entries(nodes: Seq<Node>) -> Set<(Seq<char>, NodeKind)> {
    node_pairs(nodes).to_set()
}

/// The (identifier, kind) pair of each declared node, in order.
pub open spec fn node_pairs(nodes: Seq<Node>) -> Seq<(Seq<char>, NodeKind)> {
    nodes.map_values(|n: Node| (n.node_id@, n.kind))
}

/// The rules as stored, regardless of the order of the rules or of their premises.
pub open spec fn rule_entries(rules: Seq<Justification>) -> Set<RuleView> {
    rule_views(rules).map_values(|r: RuleView| normalized(r)).to_set()
}

/// Without a node fault, node identifiers are distinct.
pub proof fn lemma_node_ids_distinct(nodes: Seq<Node>)
    requires
        node_fault(nodes) is None,
    ensures
        node_ids(nodes).no_duplicates(),
    decreases nodes.len(),
{
    if nodes.len() > 0 {
        let rest = nodes.drop_last();
        lemma_node_ids_distinct(rest);
        assert(node_ids(nodes) =~= node_ids(rest).push(nodes.last().node_id@));
    }
}

/// With distinct identifiers, every declared node has its own kind in the map.
pub proof fn lemma_node_map_at(nodes: Seq<Node>)
    requires
        node_ids(nodes).no_duplicates(),
    ensures
        forall|i: int|
            0 <= i < nodes.len() ==> #[trigger] node_map(nodes).contains_key(nodes[i].node_id@)
                && node_map(nodes)[nodes[i].node_id@] == nodes[i].kind,
        forall|id: Seq<char>|
            #[trigger] node_map(nodes).contains_key(id) ==> exists|i: int|
                0 <= i < nodes.len() && nodes[i].node_id@ == id,
    decreases nodes.len(),
{
    if nodes.len() > 0 {
        let rest = nodes.drop_last();
        assert(node_ids(rest) =~= node_ids(nodes).drop_last());
        lemma_node_map_at(rest);
        let last = nodes.last();
        assert forall|i: int| 0 <= i < nodes.len() implies #[trigger] node_map(
            nodes,
        ).contains_key(nodes[i].node_id@) && node_map(nodes)[nodes[i].node_id@]
            == nodes[i].kind by {
            assert(node_map(nodes) == node_map(rest).insert(last.node_id@, last.kind));
            if i < nodes.len() - 1 {
                assert(rest[i] == nodes[i]);
                assert(node_map(rest).contains_key(rest[i].node_id@));
                assert(node_ids(nodes)[i] == nodes[i].node_id@);
                assert(node_ids(nodes)[nodes.len() - 1] == last.node_id@);
                assert(node_ids(nodes)[i] != node_ids(nodes)[nodes.len() - 1]);
            }
        }
        assert forall|id: Seq<char>| #[trigger] node_map(nodes).contains_key(id) implies exists|i: int|
            0 <= i < nodes.len() && nodes[i].node_id@ == id by {
            if id == last.node_id@ {
                assert(nodes[nodes.len() - 1].node_id@ == id);
            } else {
                assert(node_map(rest).contains_key(id));
                let i = choose|i: int| 0 <= i < rest.len() && rest[i].node_id@ == id;
                assert(nodes[i] == rest[i]);
            }
        }
    }
}

/// Nodes with the same (identifier, kind) pairs and no fault have the same kinds.
pub proof fn lemma_node_map_entries(n1: Seq<Node>, n2: Seq<Node>)
    requires
        node_fault(n1) is None,
        node_fault(n2) is None,
        node_entries(n1) == node_entries(n2),
    ensures
        node_map(n1) == node_map(n2),
{
    lemma_node_ids_distinct(n1);
    lemma_node_ids_distinct(n2);
    lemma_node_map_at(n1);
    lemma_node_map_at(n2);
    let e1 = node_pairs(n1);
    let e2 = node_pairs(n2);
    assert forall|id: Seq<char>| #[trigger] node_map(n1).contains_key(id) implies node_map(
        n2,
    ).contains_key(id) && node_map(n2)[id] == node_map(n1)[id] by {
        let i = choose|i: int| 0 <= i < n1.len() && n1[i].node_id@ == id;
        assert(e1[i] == (id, n1[i].kind));
        assert(node_entries(n1).contains((id, n1[i].kind)));
        assert(node_entries(n2).contains((id, n1[i].kind)));
        let j = choose|j: int| 0 <= j < e2.len() && e2[j] == (id, n1[i].kind);
        assert(n2[j].node_id@ == id);
        assert(node_map(n2).contains_key(n2[j].node_id@));
    }
    assert forall|id: Seq<char>| #[trigger] node_map(n2).contains_key(id) implies node_map(
        n1,
    ).contains_key(id) by {
        let j = choose|j: int| 0 <= j < n2.len() && n2[j].node_id@ == id;
        assert(e2[j] == (id, n2[j].kind));
        assert(node_entries(n2).contains((id, n2[j].kind)));
        assert(node_entries(n1).contains((id, n2[j].kind)));
        let i = choose|i: int| 0 <= i < e1.len() && e1[i] == (id, n2[j].kind);
        assert(node_map(n1).contains_key(n1[i].node_id@));
    }
    assert(node_map(n1) =~= node_map(n2));
}

/// Without a rule fault, rule identifiers are distinct.
pub proof fn lemma_rule_ids_distinct(kinds: Map<Seq<char>, NodeKind>, rules: Seq<Justification>)
    requires
        rules_fault(kinds, rules) is None,
    ensures
        rule_ids(rules).no_duplicates(),
    decreases rules.len(),
{
    if rules.len() > 0 {
        let rest = rules.drop_last();
        lemma_rule_ids_distinct(kinds, rest);
        assert(rule_ids(rules) =~= rule_ids(rest).push(rules.last().justification_id@));
        assert(!rule_ids(rest).to_set().contains(rules.last().justification_id@));
    }
}

/// With distinct identifiers, every rule is stored, normalized, under its identifier.
pub proof fn lemma_rule_map_at(rules: Seq<Justification>)
    requires
        rule_ids(rules).no_duplicates(),
    ensures
        forall|i: int|
            0 <= i < rules.len() ==> #[trigger] rule_map(rule_views(rules)).contains_key(
                rules[i].justification_id@,
            ) && rule_map(rule_views(rules))[rules[i].justification_id@] == normalized(rules[i]@),
        forall|id: Seq<char>|
            #[trigger] rule_map(rule_views(rules)).contains_key(id) ==> exists|i: int|
                0 <= i < rules.len() && rules[i].justification_id@ == id,
    decreases rules.len(),
{
    if rules.len() > 0 {
        let rest = rules.drop_last();
        assert(rule_ids(rest) =~= rule_ids(rules).drop_last());
        assert(rule_views(rest) =~= rule_views(rules).drop_last());
        lemma_rule_map_at(rest);
        let last = rules.last();
        assert forall|i: int| 0 <= i < rules.len() implies #[trigger] rule_map(
            rule_views(rules),
        ).contains_key(rules[i].justification_id@) && rule_map(
            rule_views(rules),
        )[rules[i].justification_id@] == normalized(rules[i]@) by {
            assert(rule_views(rules).last() == last@);
            assert(rule_map(rule_views(rules)) == rule_map(rule_views(rest)).insert(
                last.justification_id@,
                normalized(last@),
            ));
            if i < rules.len() - 1 {
                assert(rest[i] == rules[i]);
                assert(rule_map(rule_views(rest)).contains_key(rest[i].justification_id@));
                assert(rule_ids(rules)[i] == rules[i].justification_id@);
                assert(rule_ids(rules)[rules.len() - 1] == last.justification_id@);
                assert(rule_ids(rules)[i] != rule_ids(rules)[rules.len() - 1]);
            }
        }
        assert forall|id: Seq<char>| #[trigger] rule_map(rule_views(rules)).contains_key(
            id,
        ) implies exists|i: int| 0 <= i < rules.len() && rules[i].justification_id@ == id by {
            if id == last.justification_id@ {
                assert(rules[rules.len() - 1].justification_id@ == id);
            } else {
                assert(rule_map(rule_views(rest)).contains_key(id));
                let i = choose|i: int| 0 <= i < rest.len() && rest[i].justification_id@ == id;
                assert(rules[i] == rest[i]);
            }
        }
    }
}

/// Rules with the same stored forms and no fault give the same rule table.
pub proof fn lemma_rule_map_entries(
    k1: Map<Seq<char>, NodeKind>,
    r1: Seq<Justification>,
    k2: Map<Seq<char>, NodeKind>,
    r2: Seq<Justification>,
)
    requires
        rules_fault(k1, r1) is None,
        rules_fault(k2, r2) is None,
        rule_entries(r1) == rule_entries(r2),
    ensures
        rule_map(rule_views(r1)) == rule_map(rule_views(r2)),
{
    lemma_rule_ids_distinct(k1, r1);
    lemma_rule_ids_distinct(k2, r2);
    lemma_rule_map_at(r1);
    lemma_rule_map_at(r2);
    let m1 = rule_map(rule_views(r1));
    let m2 = rule_map(rule_views(r2));
    let e1 = rule_views(r1).map_values(|r: RuleView| normalized(r));
    let e2 = rule_views(r2).map_values(|r: RuleView| normalized(r));
    assert forall|id: Seq<char>| #[trigger] m1.contains_key(id) implies m2.contains_key(id)
        && m2[id] == m1[id] by {
        let i = choose|i: int| 0 <= i < r1.len() && r1[i].justification_id@ == id;
        assert(e1[i] == normalized(r1[i]@));
        assert(rule_entries(r1).contains(normalized(r1[i]@)));
        assert(rule_entries(r2).contains(normalized(r1[i]@)));
        let j = choose|j: int| 0 <= j < e2.len() && e2[j] == normalized(r1[i]@);
        assert(e2[j] == normalized(r2[j]@));
        assert(r2[j].justification_id@ == id);
        assert(m2.contains_key(r2[j].justification_id@));
    }
    assert forall|id: Seq<char>| #[trigger] m2.contains_key(id) implies m1.contains_key(id) by {
        let j = choose|j: int| 0 <= j < r2.len() && r2[j].justification_id@ == id;
        assert(e2[j] == normalized(r2[j]@));
        assert(rule_entries(r2).contains(normalized(r2[j]@)));
        assert(rule_entries(r1).contains(normalized(r2[j]@)));
        let i = choose|i: int| 0 <= i < e1.len() && e1[i] == normalized(r2[j]@);
        assert(e1[i] == normalized(r1[i]@));
        assert(m1.contains_key(r1[i].justification_id@));
    }
    assert(m1 =~= m2);
}

/// The graph does not depend on the order in which nodes, rules, or the premises of
/// a rule are listed: when a configuration is accepted, every reordering of it is
/// accepted too and builds the same graph, indexes and topological order included.
pub proof fn lemma_graph_input_order(
    nodes1: Seq<Node>,
    rules1: Seq<Justification>,
    g1: GraphView,
    nodes2: Seq<Node>,
    rules2: Seq<Justification>,
    g2: GraphView,
)
    requires
        build_fault(nodes1, rules1) is None,
        graph_wf(g1),
        g1.nodes == node_map(nodes1),
        g1.rules == rule_map(rule_views(rules1)),
        permutes(node_pairs(nodes1), node_pairs(nodes2)),
        rules_permute(rules1, rules2),
        graph_wf(g2),
        g2.nodes == node_map(nodes2),
        g2.rules == rule_map(rule_views(rules2)),
    ensures
        build_fault(nodes2, rules2) is None,
        g1 == g2,
{
    lemma_permuted_input_accepted(nodes1, rules1, nodes2, rules2);
    lemma_graph_determined(g1, g2);
}

/// `p` maps the positions `0..n` one-to-one onto themselves.
pub open spec fn is_bijection(p: Seq<int>, n: nat) -> bool {
    &&& p.len() == n
    &&& forall|i: int| 0 <= i < n ==> 0 <= #[trigger] p[i] < n
    &&& forall|i: int, j: int| 0 <= i < n && 0 <= j < n && i != j ==> #[trigger] p[i] != #[trigger] p[j]
    &&& forall|j: int| 0 <= j < n ==> #[trigger] reaches(p, n, j)
}

/// Some position of `0..n` is mapped to `j`.
pub open spec fn reaches(p: Seq<int>, n: nat, j: int) -> bool {
    exists|i: int| 0 <= i < n && #[trigger] p[i] == j
}

/// `b` lists the elements of `a` in the order given by `p`.
pub open spec fn permuted_by<A>(a: Seq<A>, b: Seq<A>, p: Seq<int>) -> bool {
    &&& a.len() == b.len()
    &&& is_bijection(p, a.len())
    &&& forall|i: int| 0 <= i < b.len() ==> b[i] == a[#[trigger] p[i]]
}

/// `b` is a reordering of `a`.
pub open spec fn permutes<A>(a: Seq<A>, b: Seq<A>) -> bool {
    exists|p: Seq<int>| permuted_by(a, b, p)
}

/// Two rules that differ at most in the order of their premises.
pub open spec fn same_rule(a: RuleView, b: RuleView) -> bool {
    &&& a.id == b.id
    &&& a.threshold == b.threshold
    &&& a.conclusion == b.conclusion
    &&& permutes(a.premises, b.premises)
}

/// `r2` lists the rules of `r1` in another order, each possibly with its premises in
/// another order.
pub open spec fn rules_permute(r1: Seq<Justification>, r2: Seq<Justification>) -> bool {
    exists|p: Seq<int>|
        {
            &&& r1.len() == r2.len()
            &&& is_bijection(p, r1.len())
            &&& forall|i: int| 0 <= i < r2.len() ==> same_rule(r1[#[trigger] p[i]]@, r2[i]@)
        }
}

/// A reordering keeps the elements and the absence of repeats.
pub proof fn lemma_permuted<A>(a: Seq<A>, b: Seq<A>, p: Seq<int>)
    requires
        permuted_by(a, b, p),
    ensures
        a.to_set() == b.to_set(),
        a.no_duplicates() <==> b.no_duplicates(),
{
    assert forall|x: A| a.to_set().contains(x) <==> b.to_set().contains(x) by {
        if a.to_set().contains(x) {
            let j = choose|j: int| 0 <= j < a.len() && a[j] == x;
            assert(reaches(p, a.len(), j));
            let i = choose|i: int| 0 <= i < a.len() && #[trigger] p[i] == j;
            assert(b[i] == x);
        }
        if b.to_set().contains(x) {
            let i = choose|i: int| 0 <= i < b.len() && b[i] == x;
            assert(a[p[i]] == x);
        }
    }
    assert(a.to_set() =~= b.to_set());
    if a.no_duplicates() {
        assert forall|i: int, j: int| 0 <= i < b.len() && 0 <= j < b.len() && i != j implies b[i]
            != b[j] by {
            assert(p[i] != p[j]);
        }
    }
    if b.no_duplicates() {
        assert forall|x: int, y: int| 0 <= x < a.len() && 0 <= y < a.len() && x != y implies a[x]
            != a[y] by {
            assert(reaches(p, a.len(), x));
            assert(reaches(p, a.len(), y));
            let i = choose|i: int| 0 <= i < a.len() && #[trigger] p[i] == x;
            let j = choose|j: int| 0 <= j < a.len() && #[trigger] p[j] == y;
            assert(b[i] == a[x]);
            assert(b[j] == a[y]);
        }
    }
}

/// The nodes are accepted exactly when no identifier is blank or repeated.
pub proof fn lemma_node_fault_none(nodes: Seq<Node>)
    ensures
        node_fault(nodes) is None <==> (forall|i: int|
            0 <= i < nodes.len() ==> !is_blank(#[trigger] nodes[i].node_id@)) && node_ids(
            nodes,
        ).no_duplicates(),
    decreases nodes.len(),
{
    if nodes.len() > 0 {
        let rest = nodes.drop_last();
        lemma_node_fault_none(rest);
        let ids = node_ids(nodes);
        assert(ids =~= node_ids(rest).push(nodes.last().node_id@));
        if node_fault(nodes) is None {
            assert forall|i: int| 0 <= i < nodes.len() implies !is_blank(
                #[trigger] nodes[i].node_id@,
            ) by {
                if i < rest.len() {
                    assert(rest[i] == nodes[i]);
                }
            }
            lemma_node_ids_distinct(nodes);
        }
        if (forall|i: int| 0 <= i < nodes.len() ==> !is_blank(#[trigger] nodes[i].node_id@))
            && ids.no_duplicates() {
            assert forall|i: int| 0 <= i < rest.len() implies !is_blank(
                #[trigger] rest[i].node_id@,
            ) by {
                assert(rest[i] == nodes[i]);
            }
            assert(node_ids(rest).no_duplicates()) by {
                assert forall|i: int, j: int|
                    0 <= i < rest.len() && 0 <= j < rest.len() && i != j implies node_ids(rest)[i]
                    != node_ids(rest)[j] by {
                    assert(ids[i] == node_ids(rest)[i]);
                    assert(ids[j] == node_ids(rest)[j]);
                }
            }
            assert(!is_blank(nodes[nodes.len() - 1].node_id@));
            if node_ids(rest).contains(nodes.last().node_id@) {
                let j = choose|j: int| 0 <= j < rest.len() && node_ids(rest)[j] == nodes.last().node_id@;
                assert(ids[j] == ids[nodes.len() - 1]);
            }
        }
    }
}

/// A rule passes its checks after earlier rules exactly when it passes them alone
/// and reuses no earlier identifier.
pub proof fn lemma_rule_fault_earlier(kinds: Map<Seq<char>, NodeKind>, earlier: Set<Seq<char>>, r: RuleView)
    ensures
        rule_fault(kinds, earlier, r) is None <==> rule_fault(kinds, Set::empty(), r) is None
            && !earlier.contains(r.id),
{
}

/// The rules are accepted exactly when their identifiers are distinct and each rule
/// passes its checks alone.
pub proof fn lemma_rules_fault_none(kinds: Map<Seq<char>, NodeKind>, rules: Seq<Justification>)
    ensures
        rules_fault(kinds, rules) is None <==> rule_ids(rules).no_duplicates() && (forall|i: int|
            0 <= i < rules.len() ==> (#[trigger] rule_fault(kinds, Set::empty(), rules[i]@)) is None),
    decreases rules.len(),
{
    if rules.len() > 0 {
        let rest = rules.drop_last();
        let last = rules.last();
        lemma_rules_fault_none(kinds, rest);
        lemma_rule_fault_earlier(kinds, rule_ids(rest).to_set(), last@);
        let ids = rule_ids(rules);
        assert(ids =~= rule_ids(rest).push(last.justification_id@));
        if rules_fault(kinds, rules) is None {
            assert forall|i: int| 0 <= i < rules.len() implies (#[trigger] rule_fault(
                kinds,
                Set::empty(),
                rules[i]@,
            )) is None by {
                if i < rest.len() {
                    assert(rest[i] == rules[i]);
                }
            }
            lemma_rule_ids_distinct(kinds, rules);
        }
        if ids.no_duplicates() && (forall|i: int|
            0 <= i < rules.len() ==> (#[trigger] rule_fault(kinds, Set::empty(), rules[i]@)) is None) {
            assert forall|i: int| 0 <= i < rest.len() implies (#[trigger] rule_fault(
                kinds,
                Set::empty(),
                rest[i]@,
            )) is None by {
                assert(rest[i] == rules[i]);
            }
            assert(rule_ids(rest).no_duplicates()) by {
                assert forall|i: int, j: int|
                    0 <= i < rest.len() && 0 <= j < rest.len() && i != j implies rule_ids(rest)[i]
                    != rule_ids(rest)[j] by {
                    assert(ids[i] == rule_ids(rest)[i]);
                    assert(ids[j] == rule_ids(rest)[j]);
                }
            }
            assert(rule_fault(kinds, Set::empty(), rules[rules.len() - 1]@) is None);
            if rule_ids(rest).to_set().contains(last.justification_id@) {
                let j = choose|j: int| 0 <= j < rest.len() && rule_ids(rest)[j] == last.justification_id@;
                assert(ids[j] == ids[rules.len() - 1]);
            }
        }
    }
}

/// Rules that differ only in the order of their premises pass or fail alike and are
/// stored alike.
pub proof fn lemma_same_rule(kinds: Map<Seq<char>, NodeKind>, a: RuleView, b: RuleView)
    requires
        same_rule(a, b),
    ensures
        rule_fault(kinds, Set::empty(), a) == rule_fault(kinds, Set::empty(), b),
        normalized(a) == normalized(b),
{
    let p = choose|p: Seq<int>| permuted_by(a.premises, b.premises, p);
    lemma_permuted(a.premises, b.premises, p);
    assert(missing_premises(kinds, a) =~= missing_premises(kinds, b));
}

/// A reordered configuration is accepted exactly as the original is: reordering the
/// nodes, the rules, or the premises of any rule never turns an accepted configuration
/// into a rejected one, and yields the same nodes and rules.
pub proof fn lemma_permuted_input_accepted(
    nodes1: Seq<Node>,
    rules1: Seq<Justification>,
    nodes2: Seq<Node>,
    rules2: Seq<Justification>,
)
    requires
        build_fault(nodes1, rules1) is None,
        permutes(node_pairs(nodes1), node_pairs(nodes2)),
        rules_permute(rules1, rules2),
    ensures
        build_fault(nodes2, rules2) is None,
        node_map(nodes1) == node_map(nodes2),
        rule_map(rule_views(rules1)) == rule_map(rule_views(rules2)),
        node_entries(nodes1) == node_entries(nodes2),
        rule_entries(rules1) == rule_entries(rules2),
{
    // Nodes.
    let p = choose|p: Seq<int>| permuted_by(node_pairs(nodes1), node_pairs(nodes2), p);
    lemma_permuted(node_pairs(nodes1), node_pairs(nodes2), p);
    assert(permuted_by(node_ids(nodes1), node_ids(nodes2), p)) by {
        assert forall|i: int| 0 <= i < nodes2.len() implies node_ids(nodes2)[i] == node_ids(
            nodes1,
        )[#[trigger] p[i]] by {
            assert(node_pairs(nodes2)[i] == node_pairs(nodes1)[p[i]]);
        }
    }
    lemma_permuted(node_ids(nodes1), node_ids(nodes2), p);
    lemma_node_fault_none(nodes1);
    lemma_node_fault_none(nodes2);
    assert forall|i: int| 0 <= i < nodes2.len() implies !is_blank(#[trigger] nodes2[i].node_id@) by {
        assert(node_pairs(nodes2)[i] == node_pairs(nodes1)[p[i]]);
        assert(!is_blank(nodes1[p[i]].node_id@));
    }
    assert(node_fault(nodes2) is None);
    lemma_node_map_entries(nodes1, nodes2);
    let kinds = node_map(nodes1);
    // Rules.
    let q = choose|q: Seq<int>|
        {
            &&& rules1.len() == rules2.len()
            &&& is_bijection(q, rules1.len())
            &&& forall|i: int| 0 <= i < rules2.len() ==> same_rule(rules1[#[trigger] q[i]]@, rules2[i]@)
        };
    assert(permuted_by(rule_ids(rules1), rule_ids(rules2), q)) by {
        assert forall|i: int| 0 <= i < rules2.len() implies rule_ids(rules2)[i] == rule_ids(
            rules1,
        )[#[trigger] q[i]] by {
            assert(same_rule(rules1[q[i]]@, rules2[i]@));
        }
    }
    lemma_permuted(rule_ids(rules1), rule_ids(rules2), q);
    let e1 = rule_views(rules1).map_values(|r: RuleView| normalized(r));
    let e2 = rule_views(rules2).map_values(|r: RuleView| normalized(r));
    assert(permuted_by(e1, e2, q)) by {
        assert forall|i: int| 0 <= i < rules2.len() implies e2[i] == e1[#[trigger] q[i]] by {
            lemma_same_rule(kinds, rules1[q[i]]@, rules2[i]@);
        }
    }
    lemma_permuted(e1, e2, q);
    lemma_rules_fault_none(kinds, rules1);
    lemma_rules_fault_none(kinds, rules2);
    assert forall|i: int| 0 <= i < rules2.len() implies (#[trigger] rule_fault(
        kinds,
        Set::empty(),
        rules2[i]@,
    )) is None by {
        lemma_same_rule(kinds, rules1[q[i]]@, rules2[i]@);
        assert(rule_fault(kinds, Set::empty(), rules1[q[i]]@) is None);
    }
    assert(rules_fault(kinds, rules2) is None);
    lemma_rule_map_entries(kinds, rules1, kinds, rules2);
}

/// Converts each identifier set to its ordered list.
fn to_lists(m: &IdMap<IdSet>) -> (r: IdMap<Vec<String>>)
    ensures
        lists_view(r@) == sorted_lists(sets_view(m@)),
{
    proof {
        use_type_invariant(m);
        m.lemma_view();
    }
    let mut r: IdMap<Vec<String>> = IdMap::new();
    let n = m.len();
    for i in 0..n
        invariant
            n == m.key_seq().len(),
            m@.dom() == m.key_seq().to_set(),
            strictly_sorted(m.key_seq()),
            forall|j: int| 0 <= j < n ==> #[trigger] m@[m.key_seq()[j]] == m.value_seq()[j],
            lists_view(r@) == sorted_lists(sets_view(m@)).restrict(m.key_seq().take(i as int).to_set()),
    {
        let s = m.value_at(i);
        let v = s.to_vec();
        proof {
            use_type_invariant(s);
            s.lemma_view();
            lemma_sorted_ids(s.seq());
        }
        let ghost before = r@;
        r.insert(copy_id(m.key_at(i)), v);
        proof {
            let ks = m.key_seq();
            assert(lists_view(r@) =~= lists_view(before).insert(ks[i as int], ids_of(v@)));
            assert(ks.take(i + 1) =~= ks.take(i as int).push(ks[i as int]));
            ks.take(i as int).lemma_push_to_set_commute(ks[i as int]);
            assert(m@.contains_key(ks[i as int]));
            assert(sets_view(m@)[ks[i as int]] == s@);
            assert(ids_of(v@) == sorted_ids(sets_view(m@)[ks[i as int]]));
            let target = sorted_lists(sets_view(m@)).restrict(ks.take(i + 1).to_set());
            assert forall|k: Seq<char>| #[trigger] lists_view(r@).contains_key(k) <==> target.contains_key(k) by {
                if k != ks[i as int] {
                    assert(ks.take(i + 1).to_set().contains(k) <==> ks.take(i as int).to_set().contains(k));
                }
            }
            assert forall|k: Seq<char>| #[trigger] lists_view(r@).contains_key(k) implies lists_view(r@)[k] == target[k] by {
                if k != ks[i as int] {
                    assert(ks.take(i as int).to_set().contains(k));
                }
            }
            assert(lists_view(r@) =~= sorted_lists(sets_view(m@)).restrict(
                ks.take(i + 1).to_set(),
            ));
        }
    }
    proof {
        assert(m.key_seq().take(n as int) =~= m.key_seq());
        assert(lists_view(r@) =~= sorted_lists(sets_view(m@)));
    }
    r
}

/// A validated, immutable assurance graph with its lookup indexes.
#[derive(Debug)]
pub struct AssuranceGraph {
    nodes: IdMap<NodeKind>,
    justifications: IdMap<Justification>,
    by_premise: IdMap<Vec<String>>,
    by_conclusion: IdMap<Vec<String>>,
    order: Vec<String>,
}

impl View for AssuranceGraph {
    type V = GraphView;

    closed spec fn view(&self) -> GraphView {
        GraphView {
            nodes: self.nodes@,
            rules: rules_view(self.justifications@),
            by_premise: lists_view(self.by_premise@),
            by_conclusion: lists_view(self.by_conclusion@),
            order: ids_of(self.order@),
        }
    }
}

impl AssuranceGraph {
    /// The graph is consistent; every graph is.
    #[verifier::type_invariant]
    pub open spec fn wf(&self) -> bool {
        graph_wf(self@)
    }

    /// Validates the configuration and builds the graph with its indexes.
    ///
    /// On success the nodes and rules are those given (rule premises in identifier
    /// order), and the topological order places, at each step, the least node whose
    /// dependencies are all placed. Otherwise the error is the first fault found, in
    /// the order of [`build_fault`].
    pub fn new(nodes: Vec<Node>, rules: Vec<Justification>) -> (r: Result<Self, GraphError>)
        ensures
            match r {
                Ok(g) => {
                    &&& build_fault(nodes@, rules@) is None
                    &&& g.wf()
                    &&& g@.nodes == node_map(nodes@)
                    &&& g@.rules == rule_map(rule_views(rules@))
                },
                Err(e) => build_fault(nodes@, rules@) == Some(e@),
            },
    {
        let kinds = match build_nodes(&nodes) {
            Ok(t) => t,
            Err(e) => return Err(e),
        };
        let (table, by_premise, by_conclusion, deps) = match build_rules(&kinds, &rules) {
            Ok(t) => t,
            Err(e) => return Err(e),
        };
        let ghost rm = rule_map(rule_views(rules@));
        proof {
            assert(conclusion_index(rm).dom() =~= by_conclusion@.dom());
        }
        match find_unsupported(&kinds, &by_conclusion) {
            Some(id) => return Err(GraphError::UnsupportedConclusion(id)),
            None => {},
        }
        let order = order_nodes(&kinds, &deps);
        if order.len() != kinds.len() {
            return Err(GraphError::Cycle);
        }
        proof {
            use_type_invariant(&kinds);
            kinds.lemma_view();
            use_type_invariant(&table);
            table.lemma_view();
            assert(rules_view(table@).dom() =~= table@.dom());
            assert(rules_view(table@) == rm);
        }
        let premise_lists = to_lists(&by_premise);
        let conclusion_lists = to_lists(&by_conclusion);
        Ok(
            AssuranceGraph {
                nodes: kinds,
                justifications: table,
                by_premise: premise_lists,
                by_conclusion: conclusion_lists,
                order,
            },
        )
    }

    /// The declared nodes and their kinds.
    pub fn nodes(&self) -> (m: &IdMap<NodeKind>)
        ensures
            m@ == self@.nodes,
    {
        &self.nodes
    }

    /// The rules by identifier, premises in identifier order.
    pub fn justifications(&self) -> (m: &IdMap<Justification>)
        ensures
            rules_view(m@) == self@.rules,
    {
        &self.justifications
    }

    /// Every node, each after everything it depends on.
    pub fn topological_order(&self) -> (o: &[String])
        ensures
            ids_of(o@) == self@.order,
    {
        self.order.deref()
    }

    /// For each premise, the rules that use it, in identifier order.
    pub fn justifications_by_premise(&self) -> (m: &IdMap<Vec<String>>)
        ensures
            lists_view(m@) == self@.by_premise,
    {
        &self.by_premise
    }

    /// For each conclusion, the rules that conclude it, in identifier order.
    pub fn justifications_by_conclusion(&self) -> (m: &IdMap<Vec<String>>)
        ensures
            lists_view(m@) == self@.by_conclusion,
    {
        &self.by_conclusion
    }

    /// The premises of rule `id`, in identifier order, if it exists.
    pub fn premises_by_justification(&self, id: &str) -> (p: Option<&[String]>)
        ensures
            match p {
                Some(s) => self@.rules.contains_key(id@) && ids_of(s@) == self@.rules[id@].premises,
                None => !self@.rules.contains_key(id@),
            },
    {
        match self.justifications.get(id) {
            Some(rule) => Some(rule.premises.deref()),
            None => None,
        }
    }
}

/// Each identifier list copied exactly.
fn copy_lists(m: &IdMap<Vec<String>>) -> (r: IdMap<Vec<String>>)
    ensures
        lists_view(r@) == lists_view(m@),
{
    proof {
        use_type_invariant(m);
        m.lemma_view();
    }
    let mut r: IdMap<Vec<String>> = IdMap::new();
    let n = m.len();
    for i in 0..n
        invariant
            n == m.key_seq().len(),
            m@.dom() == m.key_seq().to_set(),
            forall|j: int| 0 <= j < n ==> #[trigger] m@[m.key_seq()[j]] == m.value_seq()[j],
            lists_view(r@) == lists_view(m@).restrict(m.key_seq().take(i as int).to_set()),
    {
        let ghost before = r@;
        let ghost ks = m.key_seq();
        let v = copy_ids(m.value_at(i));
        r.insert(copy_id(m.key_at(i)), v);
        proof {
            assert(lists_view(r@) =~= lists_view(before).insert(ks[i as int], ids_of(v@)));
            assert(ks.take(i + 1) =~= ks.take(i as int).push(ks[i as int]));
            ks.take(i as int).lemma_push_to_set_commute(ks[i as int]);
            assert(m@.contains_key(ks[i as int]));
            assert(ids_of(v@) == lists_view(m@)[ks[i as int]]);
            let target = lists_view(m@).restrict(ks.take(i + 1).to_set());
            assert forall|k: Seq<char>| #[trigger] lists_view(r@).contains_key(k) <==> target.contains_key(k) by {
                if k != ks[i as int] {
                    assert(ks.take(i + 1).to_set().contains(k) <==> ks.take(i as int).to_set().contains(k));
                }
            }
            assert forall|k: Seq<char>| #[trigger] lists_view(r@).contains_key(k) implies lists_view(r@)[k] == target[k] by {
                if k != ks[i as int] {
                    assert(ks.take(i as int).to_set().contains(k));
                }
            }
            assert(lists_view(r@) =~= target);
        }
    }
    proof {
        assert(m.key_seq().take(n as int) =~= m.key_seq());
        assert(lists_view(r@) =~= lists_view(m@));
    }
    r
}

impl Clone for AssuranceGraph {
    /// An exact copy.
    fn clone(&self) -> (r: Self)
        ensures
            r@ == self@,
    {
        proof {
            use_type_invariant(self);
            use_type_invariant(&self.nodes);
            self.nodes.lemma_view();
            use_type_invariant(&self.justifications);
            self.justifications.lemma_view();
        }
        let nodes = self.nodes.clone();
        let justifications = self.justifications.clone();
        proof {
            use_type_invariant(&nodes);
            nodes.lemma_view();
            use_type_invariant(&justifications);
            justifications.lemma_view();
            assert(nodes.value_seq() =~= self.nodes.value_seq());
            assert(nodes@ =~= self.nodes@);
            assert(rules_view(justifications@) =~= rules_view(self.justifications@)) by {
                assert forall|k: Seq<char>| #[trigger] justifications@.contains_key(k) implies justifications@[k]@
                    == self.justifications@[k]@ by {
                    let i = choose|i: int|
                        0 <= i < justifications.key_seq().len() && justifications.key_seq()[i] == k;
                    assert(cloned::<Justification>(
                        self.justifications.value_seq()[i],
                        justifications.value_seq()[i],
                    ));
                }
            }
        }
        let by_premise = copy_lists(&self.by_premise);
        let by_conclusion = copy_lists(&self.by_conclusion);
        let order = copy_ids(&self.order);
        AssuranceGraph { nodes, justifications, by_premise, by_conclusion, order }
    }
}

} // verus!

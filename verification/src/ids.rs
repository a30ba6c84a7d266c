//! Identifiers, their byte-wise order, and the ordered identifier map and set
//! that hold the graph, the evidence store and the evaluation results.
use vstd::prelude::*;
use vstd::utf8::*;

verus! {

broadcast use vstd::utf8::encode_utf8_decode_utf8;

/// Strict lexicographic order on byte strings: a proper prefix comes first.
pub open spec fn bytes_lt(a: Seq<u8>, b: Seq<u8>) -> bool
    decreases a.len(),
{
    if b.len() == 0 {
        false
    } else if a.len() == 0 {
        true
    } else if a[0] != b[0] {
        a[0] < b[0]
    } else {
        bytes_lt(a.drop_first(), b.drop_first())
    }
}

/// The order of identifiers: byte-wise on their UTF-8 encodings, as strings are ordered.
pub open spec fn id_lt(a: Seq<char>, b: Seq<char>) -> bool {
    bytes_lt(encode_utf8(a), encode_utf8(b))
}

/// Every element precedes every later one.
pub open spec fn strictly_sorted(s: Seq<Seq<char>>) -> bool {
    forall|i: int, j: int| 0 <= i < j < s.len() ==> id_lt(#[trigger] s[i], #[trigger] s[j])
}

/// The identifier views of a sequence of strings.
pub open spec fn ids_of(s: Seq<String>) -> Seq<Seq<char>> {
    s.map_values(|x: String| x@)
}

/// No byte string precedes itself.
pub proof fn lemma_bytes_lt_irreflexive(a: Seq<u8>)
    ensures
        !bytes_lt(a, a),
    decreases a.len(),
{
    if a.len() > 0 {
        lemma_bytes_lt_irreflexive(a.drop_first());
    }
}

/// Two byte strings do not precede each other.
pub proof fn lemma_bytes_lt_asymmetric(a: Seq<u8>, b: Seq<u8>)
    ensures
        !(bytes_lt(a, b) && bytes_lt(b, a)),
    decreases a.len(),
{
    if a.len() > 0 && b.len() > 0 && a[0] == b[0] {
        lemma_bytes_lt_asymmetric(a.drop_first(), b.drop_first());
    }
}

/// The byte order is transitive.
pub proof fn lemma_bytes_lt_transitive(a: Seq<u8>, b: Seq<u8>, c: Seq<u8>)
    requires
        bytes_lt(a, b),
        bytes_lt(b, c),
    ensures
        bytes_lt(a, c),
    decreases a.len(),
{
    if a.len() > 0 && a[0] == b[0] && b[0] == c[0] {
        lemma_bytes_lt_transitive(a.drop_first(), b.drop_first(), c.drop_first());
    }
}

/// Of two different byte strings, one precedes the other.
pub proof fn lemma_bytes_lt_total(a: Seq<u8>, b: Seq<u8>)
    requires
        a != b,
    ensures
        bytes_lt(a, b) || bytes_lt(b, a),
    decreases a.len(),
{
    if a.len() == 0 {
        if b.len() == 0 {
            assert(a =~= b);
        }
    } else if b.len() > 0 && a[0] == b[0] {
        if a.drop_first() == b.drop_first() {
            assert(a.drop_first().len() == a.len() - 1);
            assert(b.drop_first().len() == b.len() - 1);
            assert(a.len() == b.len());
            assert forall|i: int| 0 <= i < a.len() implies a[i] == b[i] by {
                if i > 0 {
                    assert(a[i] == a.drop_first()[i - 1]);
                    assert(b[i] == b.drop_first()[i - 1]);
                }
            }
            assert(a =~= b);
        }
        lemma_bytes_lt_total(a.drop_first(), b.drop_first());
    }
}

/// No identifier precedes itself.
pub proof fn lemma_id_lt_irreflexive(a: Seq<char>)
    ensures
        !id_lt(a, a),
{
    lemma_bytes_lt_irreflexive(encode_utf8(a));
}

/// Two identifiers do not precede each other.
pub proof fn lemma_id_lt_asymmetric(a: Seq<char>, b: Seq<char>)
    ensures
        !(id_lt(a, b) && id_lt(b, a)),
{
    lemma_bytes_lt_asymmetric(encode_utf8(a), encode_utf8(b));
}

/// The identifier order is transitive.
pub proof fn lemma_id_lt_transitive(a: Seq<char>, b: Seq<char>, c: Seq<char>)
    requires
        id_lt(a, b),
        id_lt(b, c),
    ensures
        id_lt(a, c),
{
    lemma_bytes_lt_transitive(encode_utf8(a), encode_utf8(b), encode_utf8(c));
}

/// Of two different identifiers, one precedes the other.
pub proof fn lemma_id_lt_total(a: Seq<char>, b: Seq<char>)
    requires
        a != b,
    ensures
        id_lt(a, b) || id_lt(b, a),
{
    if encode_utf8(a) == encode_utf8(b) {
        assert(decode_utf8(encode_utf8(a)) == a);
        assert(decode_utf8(encode_utf8(b)) == b);
    }
    lemma_bytes_lt_total(encode_utf8(a), encode_utf8(b));
}

/// The identifier order is a strict total order.
pub proof fn lemma_id_order()
    ensures
        forall|a: Seq<char>| !#[trigger] id_lt(a, a),
        forall|a: Seq<char>, b: Seq<char>|
            #[trigger] id_lt(a, b) ==> !id_lt(b, a) && a != b,
        forall|a: Seq<char>, b: Seq<char>, c: Seq<char>|
            #[trigger] id_lt(a, b) && #[trigger] id_lt(b, c) ==> id_lt(a, c),
        forall|a: Seq<char>, b: Seq<char>|
            a != b ==> #[trigger] id_lt(a, b) || #[trigger] id_lt(b, a),
{
    assert forall|a: Seq<char>| !#[trigger] id_lt(a, a) by {
        lemma_id_lt_irreflexive(a);
    }
    assert forall|a: Seq<char>, b: Seq<char>| #[trigger] id_lt(a, b) implies !id_lt(b, a)
        && a != b by {
        lemma_id_lt_asymmetric(a, b);
        lemma_id_lt_irreflexive(a);
    }
    assert forall|a: Seq<char>, b: Seq<char>, c: Seq<char>|
        #[trigger] id_lt(a, b) && #[trigger] id_lt(b, c) implies id_lt(a, c) by {
        lemma_id_lt_transitive(a, b, c);
    }
    assert forall|a: Seq<char>, b: Seq<char>| a != b implies #[trigger] id_lt(a, b)
        || #[trigger] id_lt(b, a) by {
        lemma_id_lt_total(a, b);
    }
}

/// A strictly sorted sequence repeats nothing.
pub proof fn lemma_sorted_no_duplicates(q: Seq<Seq<char>>)
    requires
        strictly_sorted(q),
    ensures
        q.no_duplicates(),
{
    lemma_id_order();
    assert forall|i: int, j: int| 0 <= i < q.len() && 0 <= j < q.len() && i != j implies q[i]
        != q[j] by {
        if i < j {
            assert(id_lt(q[i], q[j]));
        } else {
            assert(id_lt(q[j], q[i]));
        }
    }
}

/// Two strictly sorted sequences with the same elements are the same sequence.
pub proof fn lemma_sorted_unique(a: Seq<Seq<char>>, b: Seq<Seq<char>>)
    requires
        strictly_sorted(a),
        strictly_sorted(b),
        a.to_set() == b.to_set(),
    ensures
        a == b,
    decreases a.len(),
{
    lemma_id_order();
    if a.len() == 0 {
        if b.len() > 0 {
            assert(b.to_set().contains(b[0]));
        }
        assert(a =~= b);
    } else {
        assert(a.to_set().contains(a[0]));
        assert(b.to_set().contains(a[0]));
        assert(b.len() > 0);
        assert(a.to_set().contains(b[0]));
        let i = choose|i: int| 0 <= i < b.len() && b[i] == a[0];
        let j = choose|j: int| 0 <= j < a.len() && a[j] == b[0];
        if a[0] != b[0] {
            assert(i > 0);
            assert(j > 0);
            assert(id_lt(b[0], b[i]));
            assert(id_lt(a[0], a[j]));
        }
        let a1 = a.drop_first();
        let b1 = b.drop_first();
        assert forall|x: Seq<char>| a1.to_set().contains(x) implies b1.to_set().contains(x) by {
            let k = choose|k: int| 0 <= k < a1.len() && a1[k] == x;
            assert(a.to_set().contains(x));
            assert(id_lt(a[0], a[k + 1]));
            let m = choose|m: int| 0 <= m < b.len() && b[m] == x;
            assert(m != 0);
            assert(b1[m - 1] == x);
        }
        assert forall|x: Seq<char>| b1.to_set().contains(x) implies a1.to_set().contains(x) by {
            let k = choose|k: int| 0 <= k < b1.len() && b1[k] == x;
            assert(b.to_set().contains(x));
            assert(id_lt(b[0], b[k + 1]));
            let m = choose|m: int| 0 <= m < a.len() && a[m] == x;
            assert(m != 0);
            assert(a1[m - 1] == x);
        }
        assert(a1.to_set() =~= b1.to_set());
        lemma_sorted_unique(a1, b1);
        assert(a.len() == b.len());
        assert forall|k: int| 0 <= k < a.len() implies a[k] == b[k] by {
            if k > 0 {
                assert(a[k] == a1[k - 1]);
                assert(b[k] == b1[k - 1]);
            }
        }
        assert(a =~= b);
    }
}

/// Whether `a` comes strictly before `b` in the identifier order.
pub fn id_lt_str(a: &str, b: &str) -> (r: bool)
    ensures
        r == id_lt(a@, b@),
{
    let x = a.as_bytes();
    let y = b.as_bytes();
    let mut i: usize = 0;
    assert(x@.skip(0) =~= x@);
    assert(y@.skip(0) =~= y@);
    while i < x.len() && i < y.len()
        invariant
            x@ == encode_utf8(a@),
            y@ == encode_utf8(b@),
            0 <= i <= x@.len(),
            i <= y@.len(),
            bytes_lt(x@, y@) == bytes_lt(x@.skip(i as int), y@.skip(i as int)),
        decreases x@.len() - i,
    {
        if x[i] < y[i] {
            return true;
        }
        if x[i] > y[i] {
            return false;
        }
        assert(x@.skip(i as int).drop_first() =~= x@.skip(i + 1));
        assert(y@.skip(i as int).drop_first() =~= y@.skip(i + 1));
        i = i + 1;
    }
    i == x.len() && i < y.len()
}

/// Whether two identifiers are equal.
pub fn id_eq_str(a: &str, b: &str) -> (r: bool)
    ensures
        r == (a@ == b@),
{
    let x = a.as_bytes();
    let y = b.as_bytes();
    if x.len() != y.len() {
        return false;
    }
    let mut i: usize = 0;
    while i < x.len()
        invariant
            x@ == encode_utf8(a@),
            y@ == encode_utf8(b@),
            x@.len() == y@.len(),
            0 <= i <= x@.len(),
            forall|j: int| 0 <= j < i ==> x@[j] == y@[j],
        decreases x@.len() - i,
    {
        if x[i] != y[i] {
            return false;
        }
        i = i + 1;
    }
    assert(x@ =~= y@);
    assert(decode_utf8(encode_utf8(a@)) == a@);
    assert(decode_utf8(encode_utf8(b@)) == b@);
    true
}

/// Copies a string; the copy has the same characters.
pub fn copy_id(s: &String) -> (r: String)
    ensures
        r@ == s@,
{
    s.clone()
}

/// Copies a list of strings element by element.
pub fn copy_ids(v: &Vec<String>) -> (r: Vec<String>)
    ensures
        ids_of(r@) == ids_of(v@),
        r@.len() == v@.len(),
{
    let mut r: Vec<String> = Vec::new();
    for i in 0..v.len()
        invariant
            r@.len() == i,
            forall|j: int| 0 <= j < i ==> #[trigger] r@[j]@ == v@[j]@,
    {
        r.push(copy_id(&v[i]));
    }
    assert(ids_of(r@) =~= ids_of(v@));
    r
}


/// The map that pairs each key of `ks` with the value at the same position.
pub open spec fn assoc_view<V>(ks: Seq<Seq<char>>, vs: Seq<V>) -> Map<Seq<char>, V> {
    Map::new(|k: Seq<char>| ks.contains(k), |k: Seq<char>| vs[ks.index_of(k)])
}

/// In a strictly sorted key sequence, each key sits at exactly one position.
pub proof fn lemma_sorted_index_of(ks: Seq<Seq<char>>, i: int)
    requires
        strictly_sorted(ks),
        0 <= i < ks.len(),
    ensures
        ks.index_of(ks[i]) == i,
        ks.contains(ks[i]),
{
    lemma_id_order();
    assert(ks.contains(ks[i]));
    let j = ks.index_of(ks[i]);
    assert(0 <= j < ks.len() && ks[j] == ks[i]);
    if j < i {
        assert(id_lt(ks[j], ks[i]));
    }
    if i < j {
        assert(id_lt(ks[i], ks[j]));
    }
}

/// With distinct keys, each key maps to the value at its own position.
pub proof fn lemma_assoc_at<V>(ks: Seq<Seq<char>>, vs: Seq<V>, i: int)
    requires
        strictly_sorted(ks),
        0 <= i < ks.len(),
    ensures
        assoc_view(ks, vs).contains_key(ks[i]),
        assoc_view(ks, vs)[ks[i]] == vs[i],
{
    lemma_sorted_index_of(ks, i);
}

/// A map keyed by identifier, kept in increasing key order.
#[derive(Debug, PartialEq, Eq)]
pub struct IdMap<V> {
    entries: Vec<(String, V)>,
}

impl<V> View for IdMap<V> {
    type V = Map<Seq<char>, V>;

    closed spec fn view(&self) -> Map<Seq<char>, V> {
        assoc_view(self.key_seq(), self.value_seq())
    }
}

impl<V> IdMap<V> {
    /// The keys in increasing order.
    pub closed spec fn key_seq(&self) -> Seq<Seq<char>> {
        self.entries@.map_values(|e: (String, V)| e.0@)
    }

    /// The values, each at the position of its key.
    pub closed spec fn value_seq(&self) -> Seq<V> {
        self.entries@.map_values(|e: (String, V)| e.1)
    }

    /// The keys are strictly increasing.
    #[verifier::type_invariant]
    pub closed spec fn wf(&self) -> bool {
        strictly_sorted(self.key_seq())
    }

    /// What the ordered representation says of the map.
    pub proof fn lemma_view(&self)
        requires
            self.wf(),
        ensures
            strictly_sorted(self.key_seq()),
            self.key_seq().no_duplicates(),
            self.key_seq().len() == self.value_seq().len(),
            self@.dom() == self.key_seq().to_set(),
            self@.dom().finite(),
            self@.dom().len() == self.key_seq().len(),
            forall|k: Seq<char>| #[trigger] self@.contains_key(k) <==> self.key_seq().contains(k),
            forall|i: int|
                0 <= i < self.key_seq().len() ==> #[trigger] self@[self.key_seq()[i]]
                    == self.value_seq()[i],
    {
        lemma_id_order();
        let ks = self.key_seq();
        assert(ks.no_duplicates()) by {
            assert forall|i: int, j: int| 0 <= i < ks.len() && 0 <= j < ks.len() && i != j implies ks[i]
                != ks[j] by {
                if i < j {
                    assert(id_lt(ks[i], ks[j]));
                } else {
                    assert(id_lt(ks[j], ks[i]));
                }
            }
        }
        assert(self@.dom() =~= ks.to_set());
        ks.unique_seq_to_set();
        assert forall|i: int| 0 <= i < ks.len() implies #[trigger] self@[ks[i]] == self.value_seq()[i] by {
            lemma_assoc_at(ks, self.value_seq(), i);
        }
    }

    /// The empty map.
    pub fn new() -> (m: IdMap<V>)
        ensures
            m@ == Map::<Seq<char>, V>::empty(),
            m.key_seq() == Seq::<Seq<char>>::empty(),
    {
        let m = IdMap { entries: Vec::new() };
        assert(m.key_seq() =~= Seq::<Seq<char>>::empty());
        assert(m@ =~= Map::<Seq<char>, V>::empty());
        m
    }

    /// Number of entries.
    pub fn len(&self) -> (n: usize)
        ensures
            n == self.key_seq().len(),
            n == self@.len(),
    {
        proof {
            use_type_invariant(self);
            self.lemma_view();
        }
        self.entries.len()
    }

    /// Position of `k`, or the position where it would be inserted.
    fn find(&self, k: &str) -> (r: Result<usize, usize>)
        ensures
            match r {
                Ok(i) => i < self.key_seq().len() && self.key_seq()[i as int] == k@,
                Err(i) => {
                    &&& i <= self.key_seq().len()
                    &&& forall|j: int| 0 <= j < i ==> id_lt(#[trigger] self.key_seq()[j], k@)
                    &&& forall|j: int|
                        i <= j < self.key_seq().len() ==> id_lt(k@, #[trigger] self.key_seq()[j])
                },
            },
    {
        proof {
            use_type_invariant(self);
            lemma_id_order();
        }
        let ghost ks = self.key_seq();
        let mut i: usize = 0;
        while i < self.entries.len() && id_lt_str(self.entries[i].0.as_str(), k)
            invariant
                ks == self.key_seq(),
                strictly_sorted(ks),
                ks.len() == self.entries@.len(),
                0 <= i <= ks.len(),
                forall|j: int| 0 <= j < i ==> id_lt(#[trigger] ks[j], k@),
            decreases ks.len() - i,
        {
            i = i + 1;
        }
        if i < self.entries.len() && id_eq_str(self.entries[i].0.as_str(), k) {
            Ok(i)
        } else {
            proof {
                if i < ks.len() {
                    assert(!id_lt(ks[i as int], k@));
                    assert(ks[i as int] != k@);
                    assert(id_lt(k@, ks[i as int]));
                    assert forall|j: int| i <= j < ks.len() implies id_lt(k@, #[trigger] ks[j]) by {
                        if j > i {
                            assert(id_lt(ks[i as int], ks[j]));
                        }
                    }
                }
            }
            Err(i)
        }
    }

    /// Whether `k` has an entry.
    pub fn contains_key(&self, k: &str) -> (b: bool)
        ensures
            b == self@.contains_key(k@),
    {
        proof {
            use_type_invariant(self);
            self.lemma_view();
        }
        match self.find(k) {
            Ok(_) => true,
            Err(i) => {
                proof {
                    if self.key_seq().contains(k@) {
                        let j = choose|j: int| 0 <= j < self.key_seq().len() && self.key_seq()[j] == k@;
                        if j < i {
                            assert(id_lt(self.key_seq()[j], k@));
                        } else {
                            assert(id_lt(k@, self.key_seq()[j]));
                        }
                        lemma_id_lt_irreflexive(k@);
                    }
                }
                false
            },
        }
    }

    /// The value stored for `k`.
    pub fn get(&self, k: &str) -> (r: Option<&V>)
        ensures
            match r {
                Some(v) => self@.contains_key(k@) && *v == self@[k@],
                None => !self@.contains_key(k@),
            },
    {
        proof {
            use_type_invariant(self);
            self.lemma_view();
        }
        match self.find(k) {
            Ok(i) => Some(&self.entries[i].1),
            Err(i) => {
                proof {
                    if self.key_seq().contains(k@) {
                        let j = choose|j: int| 0 <= j < self.key_seq().len() && self.key_seq()[j] == k@;
                        if j < i {
                            assert(id_lt(self.key_seq()[j], k@));
                        } else {
                            assert(id_lt(k@, self.key_seq()[j]));
                        }
                        lemma_id_lt_irreflexive(k@);
                    }
                }
                None
            },
        }
    }

    /// The key at position `i` in increasing order.
    pub fn key_at(&self, i: usize) -> (k: &String)
        requires
            i < self.key_seq().len(),
        ensures
            k@ == self.key_seq()[i as int],
    {
        &self.entries[i].0
    }

    /// The value at position `i` in increasing key order.
    pub fn value_at(&self, i: usize) -> (v: &V)
        requires
            i < self.key_seq().len(),
        ensures
            *v == self.value_seq()[i as int],
            *v == self@[self.key_seq()[i as int]],
    {
        proof {
            use_type_invariant(self);
            self.lemma_view();
        }
        &self.entries[i].1
    }

    /// Sets the value for `k`, returning the value it replaces.
    pub fn insert(&mut self, k: String, v: V) -> (prev: Option<V>)
        ensures
            final(self)@ == old(self)@.insert(k@, v),
            match prev {
                Some(p) => old(self)@.contains_key(k@) && p == old(self)@[k@],
                None => !old(self)@.contains_key(k@),
            },
    {
        proof {
            use_type_invariant(&*self);
            self.lemma_view();
            lemma_id_order();
        }
        let ghost ks = self.key_seq();
        let ghost vs = self.value_seq();
        let ghost m = self@;
        match self.find(k.as_str()) {
            Ok(i) => {
                let mut es: Vec<(String, V)> = Vec::new();
                std::mem::swap(&mut es, &mut self.entries);
                let old_entry = es.remove(i);
                es.insert(i, (k, v));
                proof {
                    assert(es@.map_values(|e: (String, V)| e.0@) =~= ks);
                }
                self.entries = es;
                proof {
                    assert(self.key_seq() =~= ks.update(i as int, old_entry.0@));
                    assert(self.value_seq() =~= vs.update(i as int, v));
                    assert forall|x: Seq<char>| #[trigger] self@.contains_key(x) == m.insert(
                        old_entry.0@,
                        v,
                    ).contains_key(x) by {
                        if ks.contains(x) {
                            let j = choose|j: int| 0 <= j < ks.len() && ks[j] == x;
                            assert(self.key_seq()[j] == x);
                        }
                        if self.key_seq().contains(x) {
                            let j = choose|j: int| 0 <= j < ks.len() && self.key_seq()[j] == x;
                            assert(ks[j] == x);
                        }
                    }
                    assert forall|x: Seq<char>| #[trigger] self@.contains_key(x) implies self@[x]
                        == m.insert(old_entry.0@, v)[x] by {
                        let j = choose|j: int| 0 <= j < ks.len() && self.key_seq()[j] == x;
                        lemma_assoc_at(self.key_seq(), self.value_seq(), j);
                        lemma_assoc_at(ks, vs, j);
                    }
                    assert(self@ =~= m.insert(k@, v));
                    lemma_assoc_at(ks, vs, i as int);
                }
                Some(old_entry.1)
            },
            Err(i) => {
                let mut es: Vec<(String, V)> = Vec::new();
                std::mem::swap(&mut es, &mut self.entries);
                es.insert(i, (k, v));
                let ghost nks = es@.map_values(|e: (String, V)| e.0@);
                let ghost nvs = es@.map_values(|e: (String, V)| e.1);
                proof {
                    assert(nks =~= ks.insert(i as int, k@));
                    assert(nvs =~= vs.insert(i as int, v));
                    assert(strictly_sorted(nks)) by {
                        assert forall|a: int, b: int| 0 <= a < b < nks.len() implies id_lt(
                            #[trigger] nks[a],
                            #[trigger] nks[b],
                        ) by {
                            if b < i {
                            } else if b == i {
                                assert(id_lt(ks[a], k@));
                            } else if a < i {
                                assert(id_lt(ks[a], ks[b - 1]));
                            } else if a == i {
                                assert(id_lt(k@, ks[b - 1]));
                            } else {
                                assert(id_lt(ks[a - 1], ks[b - 1]));
                            }
                        }
                    }
                }
                self.entries = es;
                proof {
                    assert(!ks.contains(k@)) by {
                        if ks.contains(k@) {
                            let j = choose|j: int| 0 <= j < ks.len() && ks[j] == k@;
                            if j < i {
                                assert(id_lt(ks[j], k@));
                            } else {
                                assert(id_lt(k@, ks[j]));
                            }
                        }
                    }
                    assert forall|x: Seq<char>| #[trigger] self@.contains_key(x) == m.insert(
                        k@,
                        v,
                    ).contains_key(x) by {
                        if ks.contains(x) {
                            let j = choose|j: int| 0 <= j < ks.len() && ks[j] == x;
                            if j < i {
                                assert(nks[j] == x);
                            } else {
                                assert(nks[j + 1] == x);
                            }
                        }
                        if x == k@ {
                            assert(nks[i as int] == x);
                        }
                        if nks.contains(x) {
                            let j = choose|j: int| 0 <= j < nks.len() && nks[j] == x;
                            if j < i {
                                assert(ks[j] == x);
                            } else if j > i {
                                assert(ks[j - 1] == x);
                            }
                        }
                    }
                    assert forall|x: Seq<char>| #[trigger] self@.contains_key(x) implies self@[x]
                        == m.insert(k@, v)[x] by {
                        let j = choose|j: int| 0 <= j < nks.len() && nks[j] == x;
                        lemma_assoc_at(nks, nvs, j);
                        if j < i {
                            lemma_assoc_at(ks, vs, j);
                        } else if j > i {
                            lemma_assoc_at(ks, vs, j - 1);
                        }
                    }
                    assert(self@ =~= m.insert(k@, v));
                }
                None
            },
        }
    }

    /// Removes the entry for `k`, returning its value.
    pub fn remove(&mut self, k: &str) -> (prev: Option<V>)
        ensures
            final(self)@ == old(self)@.remove(k@),
            match prev {
                Some(p) => old(self)@.contains_key(k@) && p == old(self)@[k@],
                None => !old(self)@.contains_key(k@),
            },
    {
        proof {
            use_type_invariant(&*self);
            self.lemma_view();
            lemma_id_order();
        }
        let ghost ks = self.key_seq();
        let ghost vs = self.value_seq();
        let ghost m = self@;
        match self.find(k) {
            Ok(i) => {
                let mut es: Vec<(String, V)> = Vec::new();
                std::mem::swap(&mut es, &mut self.entries);
                let old_entry = es.remove(i);
                let ghost nks = es@.map_values(|e: (String, V)| e.0@);
                let ghost nvs = es@.map_values(|e: (String, V)| e.1);
                proof {
                    assert(nks =~= ks.remove(i as int));
                    assert forall|a: int, b: int| 0 <= a < b < nks.len() implies id_lt(
                        #[trigger] nks[a],
                        #[trigger] nks[b],
                    ) by {
                        if b < i {
                        } else if a < i {
                            assert(id_lt(ks[a], ks[b + 1]));
                        } else {
                            assert(id_lt(ks[a + 1], ks[b + 1]));
                        }
                    }
                }
                self.entries = es;
                proof {
                    assert(nks =~= ks.remove(i as int));
                    assert(nvs =~= vs.remove(i as int));
                    lemma_assoc_at(ks, vs, i as int);
                    assert forall|x: Seq<char>| #[trigger] self@.contains_key(x) == m.remove(
                        k@,
                    ).contains_key(x) by {
                        if ks.contains(x) && x != k@ {
                            let j = choose|j: int| 0 <= j < ks.len() && ks[j] == x;
                            if j < i {
                                assert(nks[j] == x);
                            } else {
                                assert(j != i);
                                assert(nks[j - 1] == x);
                            }
                        }
                        if nks.contains(x) {
                            let j = choose|j: int| 0 <= j < nks.len() && nks[j] == x;
                            if j < i {
                                assert(ks[j] == x);
                                assert(id_lt(ks[j], ks[i as int]));
                            } else {
                                assert(ks[j + 1] == x);
                                assert(id_lt(ks[i as int], ks[j + 1]));
                            }
                        }
                    }
                    assert forall|x: Seq<char>| #[trigger] self@.contains_key(x) implies self@[x]
                        == m.remove(k@)[x] by {
                        let j = choose|j: int| 0 <= j < nks.len() && nks[j] == x;
                        lemma_assoc_at(nks, nvs, j);
                        if j < i {
                            lemma_assoc_at(ks, vs, j);
                        } else {
                            lemma_assoc_at(ks, vs, j + 1);
                        }
                    }
                    assert(self@ =~= m.remove(k@));
                }
                Some(old_entry.1)
            },
            Err(i) => {
                proof {
                    assert(!ks.contains(k@)) by {
                        if ks.contains(k@) {
                            let j = choose|j: int| 0 <= j < ks.len() && ks[j] == k@;
                            if j < i {
                                assert(id_lt(ks[j], k@));
                            } else {
                                assert(id_lt(k@, ks[j]));
                            }
                        }
                    }
                    assert(self@ =~= m.remove(k@));
                }
                None
            },
        }
    }
}

impl<V: Clone> Clone for IdMap<V> {
    /// Copies every entry; keys are copied exactly, values by their own `clone`.
    fn clone(&self) -> (r: Self)
        ensures
            r.key_seq() == self.key_seq(),
            r.value_seq().len() == self.value_seq().len(),
            forall|i: int|
                0 <= i < self.value_seq().len() ==> cloned::<V>(
                    self.value_seq()[i],
                    #[trigger] r.value_seq()[i],
                ),
    {
        proof {
            use_type_invariant(self);
        }
        let mut es: Vec<(String, V)> = Vec::new();
        for i in 0..self.entries.len()
            invariant
                es@.len() == i,
                forall|j: int| 0 <= j < i ==> #[trigger] es@[j].0@ == self.entries@[j].0@,
                forall|j: int| 0 <= j < i ==> cloned::<V>(self.entries@[j].1, #[trigger] es@[j].1),
        {
            let k = self.entries[i].0.clone();
            let v = self.entries[i].1.clone();
            es.push((k, v));
        }
        let ghost ks = es@.map_values(|e: (String, V)| e.0@);
        assert(ks =~= self.key_seq());
        let r = IdMap { entries: es };
        assert(r.value_seq().len() == self.value_seq().len());
        r
    }
}

/// A set of identifiers, kept in increasing order.
#[derive(Debug, PartialEq, Eq)]
pub struct IdSet {
    ids: IdMap<()>,
}

impl View for IdSet {
    type V = Set<Seq<char>>;

    closed spec fn view(&self) -> Set<Seq<char>> {
        self.ids@.dom()
    }
}

impl IdSet {
    /// The elements in increasing order.
    pub closed spec fn seq(&self) -> Seq<Seq<char>> {
        self.ids.key_seq()
    }

    /// The elements are strictly increasing.
    #[verifier::type_invariant]
    pub closed spec fn wf(&self) -> bool {
        self.ids.wf()
    }

    /// What the ordered representation says of the set.
    pub proof fn lemma_view(&self)
        requires
            self.wf(),
        ensures
            strictly_sorted(self.seq()),
            self.seq().no_duplicates(),
            self@ == self.seq().to_set(),
            self@.finite(),
            self@.len() == self.seq().len(),
    {
        self.ids.lemma_view();
    }

    /// The empty set.
    pub fn new() -> (s: IdSet)
        ensures
            s@ == Set::<Seq<char>>::empty(),
            s.seq() == Seq::<Seq<char>>::empty(),
    {
        IdSet { ids: IdMap::new() }
    }

    /// The set holding only `id`.
    pub fn singleton(id: String) -> (s: IdSet)
        ensures
            s@ == Set::<Seq<char>>::empty().insert(id@),
    {
        let mut s = IdSet::new();
        s.insert(id);
        s
    }

    /// Number of elements.
    pub fn len(&self) -> (n: usize)
        ensures
            n == self.seq().len(),
            n == self@.len(),
    {
        proof {
            use_type_invariant(self);
            self.lemma_view();
        }
        self.ids.len()
    }

    /// Whether `id` is an element.
    pub fn contains(&self, id: &str) -> (b: bool)
        ensures
            b == self@.contains(id@),
    {
        self.ids.contains_key(id)
    }

    /// The element at position `i` in increasing order.
    pub fn id_at(&self, i: usize) -> (id: &String)
        requires
            i < self.seq().len(),
        ensures
            id@ == self.seq()[i as int],
    {
        self.ids.key_at(i)
    }

    /// Adds `id`.
    pub fn insert(&mut self, id: String)
        ensures
            final(self)@ == old(self)@.insert(id@),
    {
        let mut ids: IdMap<()> = IdMap::new();
        std::mem::swap(&mut ids, &mut self.ids);
        ids.insert(id, ());
        proof {
            use_type_invariant(&ids);
        }
        self.ids = ids;
        proof {
            assert(self@ =~= old(self)@.insert(id@));
        }
    }

    /// Adds every element of `other`.
    pub fn union_with(&mut self, other: &IdSet)
        ensures
            final(self)@ == old(self)@.union(other@),
    {
        proof {
            use_type_invariant(other);
            other.lemma_view();
        }
        let n = other.len();
        for i in 0..n
            invariant
                n == other.seq().len(),
                other@ == other.seq().to_set(),
                self@ == old(self)@.union(other.seq().take(i as int).to_set()),
        {
            let id = copy_id(other.id_at(i));
            self.insert(id);
            proof {
                assert(other.seq().take(i + 1) =~= other.seq().take(i as int).push(other.seq()[i as int]));
                other.seq().take(i as int).lemma_push_to_set_commute(other.seq()[i as int]);
                assert(other.seq().take(i + 1).to_set() =~= other.seq().take(i as int).to_set().insert(
                    other.seq()[i as int],
                ));
                assert(self@ =~= old(self)@.union(other.seq().take(i + 1).to_set()));
            }
        }
        proof {
            assert(other.seq().take(n as int) =~= other.seq());
        }
    }

    /// The elements in increasing order.
    pub fn to_vec(&self) -> (v: Vec<String>)
        ensures
            ids_of(v@) == self.seq(),
    {
        let n = self.len();
        let mut v: Vec<String> = Vec::new();
        for i in 0..n
            invariant
                n == self.seq().len(),
                v@.len() == i,
                forall|j: int| 0 <= j < i ==> #[trigger] v@[j]@ == self.seq()[j],
        {
            v.push(copy_id(self.id_at(i)));
        }
        assert(ids_of(v@) =~= self.seq());
        v
    }

    /// Whether both sets have the same elements.
    pub fn same(&self, other: &IdSet) -> (b: bool)
        ensures
            b == (self@ == other@),
    {
        proof {
            use_type_invariant(self);
            use_type_invariant(other);
            self.lemma_view();
            other.lemma_view();
            if self@ == other@ {
                lemma_sorted_unique(self.seq(), other.seq());
            }
        }
        let n = self.len();
        if n != other.len() {
            return false;
        }
        for i in 0..n
            invariant
                n == self.seq().len(),
                n == other.seq().len(),
                self@ == other@ ==> self.seq() == other.seq(),
                forall|j: int| 0 <= j < i ==> self.seq()[j] == other.seq()[j],
        {
            if !id_eq_str(self.id_at(i).as_str(), other.id_at(i).as_str()) {
                return false;
            }
        }
        proof {
            assert(self.seq() =~= other.seq());
        }
        true
    }
}

impl Clone for IdSet {
    fn clone(&self) -> (r: Self)
        ensures
            r@ == self@,
            r.seq() == self.seq(),
    {
        let ids = self.ids.clone();
        proof {
            use_type_invariant(self);
            use_type_invariant(&ids);
            self.ids.lemma_view();
            ids.lemma_view();
            assert(ids@.dom() =~= self.ids@.dom());
        }
        IdSet { ids }
    }
}

} // verus!

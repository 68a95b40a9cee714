//! Collections ordered by text: a map from texts and a set of texts, each kept
//! in increasing order with every key held once.
use vstd::prelude::*;

use crate::text::{
    lemma_lex_irreflexive, lemma_lex_total, lemma_lex_transitive, lex_lt, precedes, same, texts,
};

verus! {

/// The keys come in strictly increasing order.
pub open spec fn keys_increase<V>(p: Seq<(Seq<char>, V)>) -> bool {
    forall|i: int, j: int| 0 <= i < j < p.len() ==> lex_lt(#[trigger] p[i].0, #[trigger] p[j].0)
}

/// Whether `k` is the key of entry `i`.
pub open spec fn key_at<V>(p: Seq<(Seq<char>, V)>, k: Seq<char>, i: int) -> bool {
    0 <= i < p.len() && p[i].0 == k
}

/// The map that a list of entries stands for.
pub open spec fn pairs_map<V>(p: Seq<(Seq<char>, V)>) -> Map<Seq<char>, V> {
    Map::new(
        |k: Seq<char>| exists|i: int| key_at(p, k, i),
        |k: Seq<char>| p[choose|i: int| key_at(p, k, i)].1,
    )
}

/// In increasing order a key has one place, so its value is the one held there.
pub proof fn lemma_pairs_map_at<V>(p: Seq<(Seq<char>, V)>, i: int)
    requires
        keys_increase(p),
        0 <= i < p.len(),
    ensures
        pairs_map(p).contains_key(p[i].0),
        pairs_map(p)[p[i].0] == p[i].1,
{
    let k = p[i].0;
    assert(key_at(p, k, i));
    let j = choose|j: int| key_at(p, k, j);
    lemma_lex_irreflexive(k);
    if i < j {
        assert(lex_lt(p[i].0, p[j].0));
    } else if j < i {
        assert(lex_lt(p[j].0, p[i].0));
    }
}

/// Two lists of entries in increasing order that stand for the same map are the same list.
pub proof fn lemma_pairs_determined<V>(p: Seq<(Seq<char>, V)>, q: Seq<(Seq<char>, V)>)
    requires
        keys_increase(p),
        keys_increase(q),
        pairs_map(p) == pairs_map(q),
    ensures
        p == q,
    decreases p.len(),
{
    if p.len() == 0 {
        if q.len() > 0 {
            lemma_pairs_map_at(q, 0);
        }
        assert(p =~= q);
    } else if q.len() == 0 {
        lemma_pairs_map_at(p, 0);
    } else {
        let m = p.len() - 1;
        let n = q.len() - 1;
        lemma_pairs_map_at(p, m);
        lemma_pairs_map_at(q, n);
        let j = choose|j: int| key_at(q, p[m].0, j);
        let i = choose|i: int| key_at(p, q[n].0, i);
        assert(key_at(q, p[m].0, j));
        assert(key_at(p, q[n].0, i));
        if p[m].0 != q[n].0 {
            assert(j < n);
            assert(i < m);
            assert(lex_lt(q[j].0, q[n].0));
            assert(lex_lt(p[i].0, p[m].0));
            lemma_lex_transitive(p[m].0, q[n].0, p[m].0);
            lemma_lex_irreflexive(p[m].0);
        }
        let a = p.drop_last();
        let b = q.drop_last();
        assert(keys_increase(a));
        assert(keys_increase(b));
        assert(pairs_map(a) =~= pairs_map(b)) by {
            lemma_without_last(p);
            lemma_without_last(q);
        }
        lemma_pairs_determined(a, b);
        assert(p =~= a.push(p[m]));
        assert(q =~= b.push(q[n]));
    }
}

proof fn lemma_without_last<V>(p: Seq<(Seq<char>, V)>)
    requires
        keys_increase(p),
        p.len() > 0,
    ensures
        pairs_map(p.drop_last()) == pairs_map(p).remove(p.last().0),
{
    let a = p.drop_last();
    let last = p.last().0;
    assert(keys_increase(a));
    assert forall|k: Seq<char>|
        #![trigger pairs_map(a).contains_key(k)]
        pairs_map(a).contains_key(k) <==> pairs_map(p).remove(last).contains_key(k) by {
        if pairs_map(a).contains_key(k) {
            let i = choose|i: int| key_at(a, k, i);
            assert(key_at(p, k, i));
            assert(lex_lt(p[i].0, p[p.len() - 1].0));
            lemma_lex_irreflexive(last);
        }
        if pairs_map(p).remove(last).contains_key(k) {
            let i = choose|i: int| key_at(p, k, i);
            assert(key_at(p, k, i));
            assert(key_at(a, k, i));
        }
    }
    assert forall|k: Seq<char>| #[trigger] pairs_map(a).contains_key(k) implies pairs_map(a)[k]
        == pairs_map(p).remove(last)[k] by {
        let i = choose|i: int| key_at(a, k, i);
        assert(key_at(a, k, i));
        lemma_pairs_map_at(a, i);
        lemma_pairs_map_at(p, i);
        assert(pairs_map(p).remove(last).contains_key(k));
    }
    assert(pairs_map(a) =~= pairs_map(p).remove(last));
}

proof fn lemma_pairs_count<V>(p: Seq<(Seq<char>, V)>)
    requires
        keys_increase(p),
    ensures
        pairs_map(p).dom().finite(),
        pairs_map(p).dom().len() == p.len(),
    decreases p.len(),
{
    if p.len() == 0 {
        assert(pairs_map(p).dom() =~= Set::empty());
    } else {
        let a = p.drop_last();
        let last = p.last().0;
        assert(keys_increase(a));
        lemma_pairs_count(a);
        lemma_without_last(p);
        lemma_pairs_map_at(p, p.len() - 1);
        assert(pairs_map(a).dom() =~= pairs_map(p).dom().remove(last));
        assert(pairs_map(p).dom() =~= pairs_map(a).dom().insert(last));
    }
}

/// A map from texts, in increasing order of its keys.
#[derive(Debug, PartialEq, Eq)]
pub struct StrMap<V> {
    entries: Vec<(String, V)>,
}

impl<V> StrMap<V> {
    /// The entries, in increasing order of their keys.
    pub closed spec fn pairs(&self) -> Seq<(Seq<char>, V)> {
        self.entries@.map_values(|e: (String, V)| (e.0@, e.1))
    }

    #[verifier::type_invariant]
    closed spec fn ordered(&self) -> bool {
        keys_increase(self.pairs())
    }

    /// The empty map.
    pub fn new() -> (r: Self)
        ensures
            r.pairs() == Seq::<(Seq<char>, V)>::empty(),
            r@ == Map::<Seq<char>, V>::empty(),
    {
        let entries: Vec<(String, V)> = Vec::new();
        let r = StrMap { entries };
        assert(r.pairs() =~= Seq::<(Seq<char>, V)>::empty());
        assert(r@ =~= Map::<Seq<char>, V>::empty());
        r
    }

    /// The number of entries.
    pub fn len(&self) -> (n: usize)
        ensures
            n == self.pairs().len(),
            n == self@.dom().len(),
            self@.dom().finite(),
            keys_increase(self.pairs()),
    {
        proof {
            use_type_invariant(self);
            lemma_pairs_count(self.pairs());
        }
        self.entries.len()
    }

    /// Whether there is no entry.
    pub fn is_empty(&self) -> (r: bool)
        ensures
            r == (self.pairs().len() == 0),
    {
        self.entries.len() == 0
    }

    /// The key of entry `i`.
    pub fn key(&self, i: usize) -> (k: &String)
        requires
            i < self.pairs().len(),
        ensures
            k@ == self.pairs()[i as int].0,
    {
        &self.entries[i].0
    }

    /// The value of entry `i`.
    pub fn value(&self, i: usize) -> (v: &V)
        requires
            i < self.pairs().len(),
        ensures
            *v == self.pairs()[i as int].1,
    {
        &self.entries[i].1
    }

    /// The value held for `k`.
    pub fn get(&self, k: &str) -> (r: Option<&V>)
        ensures
            match r {
                Some(v) => self@.contains_key(k@) && *v == self@[k@],
                None => !self@.contains_key(k@),
            },
    {
        proof {
            use_type_invariant(self);
        }
        let mut i: usize = 0;
        while i < self.entries.len()
            invariant
                keys_increase(self.pairs()),
                i <= self.entries@.len(),
                forall|j: int| 0 <= j < i ==> (#[trigger] self.pairs()[j]).0 != k@,
            decreases self.entries@.len() - i,
        {
            if same(self.entries[i].0.as_str(), k) {
                proof {
                    lemma_pairs_map_at(self.pairs(), i as int);
                }
                return Some(&self.entries[i].1);
            }
            i += 1;
        }
        proof {
            if self@.contains_key(k@) {
                let j = choose|j: int| key_at(self.pairs(), k@, j);
                assert(key_at(self.pairs(), k@, j));
                assert(self.pairs()[j].0 == k@);
            }
        }
        None
    }

    /// Whether there is a value for `k`.
    pub fn contains_key(&self, k: &str) -> (r: bool)
        ensures
            r == self@.contains_key(k@),
    {
        self.get(k).is_some()
    }

    /// Holds `v` for `k` from now on, in place of what was held for it.
    pub fn insert(&mut self, k: String, v: V)
        ensures
            final(self)@ == old(self)@.insert(k@, v),
    {
        proof {
            use_type_invariant(&*self);
        }
        let ghost p = self.pairs();
        let mut entries: Vec<(String, V)> = Vec::new();
        std::mem::swap(&mut entries, &mut self.entries);
        let mut i: usize = 0;
        while i < entries.len() && precedes(entries[i].0.as_str(), k.as_str())
            invariant
                i <= entries@.len(),
                entries@.map_values(|e: (String, V)| (e.0@, e.1)) == p,
                forall|j: int| 0 <= j < i ==> lex_lt((#[trigger] p[j]).0, k@),
            decreases entries@.len() - i,
        {
            assert(p[i as int].0 == entries@[i as int].0@);
            i += 1;
        }
        let ghost kv = k@;
        if i < entries.len() && same(entries[i].0.as_str(), k.as_str()) {
            assert(p[i as int].0 == kv);
            entries.set(i, (k, v));
            let ghost q = entries@.map_values(|e: (String, V)| (e.0@, e.1));
            proof {
                assert(q =~= p.update(i as int, (kv, v)));
                lemma_replaced(p, kv, v, i as int);
            }
        } else {
            proof {
                if i < entries@.len() {
                    assert(p[i as int].0 == entries@[i as int].0@);
                    lemma_lex_total(p[i as int].0, kv);
                }
            }
            entries.insert(i, (k, v));
            let ghost q = entries@.map_values(|e: (String, V)| (e.0@, e.1));
            proof {
                assert(q =~= p.insert(i as int, (kv, v)));
                lemma_inserted(p, kv, v, i as int);
            }
        }
        self.entries = entries;
    }
}

proof fn lemma_replaced<V>(p: Seq<(Seq<char>, V)>, k: Seq<char>, v: V, at: int)
    requires
        keys_increase(p),
        0 <= at < p.len(),
        p[at].0 == k,
    ensures
        keys_increase(p.update(at, (k, v))),
        pairs_map(p.update(at, (k, v))) == pairs_map(p).insert(k, v),
{
    let q = p.update(at, (k, v));
    assert forall|i: int| 0 <= i < p.len() implies (#[trigger] q[i]).0 == p[i].0 by {}
    assert(keys_increase(q)) by {
        assert forall|i: int, j: int| 0 <= i < j < q.len() implies lex_lt(
            #[trigger] q[i].0,
            #[trigger] q[j].0,
        ) by {
            assert(lex_lt(p[i].0, p[j].0));
        }
    }
    assert forall|x: Seq<char>|
        #![trigger pairs_map(q).contains_key(x)]
        pairs_map(q).contains_key(x) <==> pairs_map(p).insert(k, v).contains_key(x) by {
        if pairs_map(q).contains_key(x) {
            let i = choose|i: int| key_at(q, x, i);
            assert(key_at(p, x, i));
        }
        if pairs_map(p).insert(k, v).contains_key(x) {
            if x == k {
                assert(key_at(q, x, at));
            } else {
                let i = choose|i: int| key_at(p, x, i);
                assert(key_at(q, x, i));
            }
        }
    }
    assert forall|x: Seq<char>| #[trigger] pairs_map(q).contains_key(x) implies pairs_map(q)[x]
        == pairs_map(p).insert(k, v)[x] by {
        let i = choose|i: int| key_at(q, x, i);
        assert(key_at(q, x, i));
        lemma_pairs_map_at(q, i);
        lemma_pairs_map_at(p, i);
        lemma_pairs_map_at(q, at);
    }
    assert(pairs_map(q) =~= pairs_map(p).insert(k, v));
}

proof fn lemma_inserted<V>(p: Seq<(Seq<char>, V)>, k: Seq<char>, v: V, at: int)
    requires
        keys_increase(p),
        0 <= at <= p.len(),
        forall|j: int| 0 <= j < at ==> lex_lt((#[trigger] p[j]).0, k),
        at < p.len() ==> lex_lt(k, p[at].0),
    ensures
        keys_increase(p.insert(at, (k, v))),
        pairs_map(p.insert(at, (k, v))) == pairs_map(p).insert(k, v),
{
    let q = p.insert(at, (k, v));
    assert(keys_increase(q)) by {
        assert forall|i: int, j: int| 0 <= i < j < q.len() implies lex_lt(
            #[trigger] q[i].0,
            #[trigger] q[j].0,
        ) by {
            if i < at && j > at {
                assert(lex_lt(p[i].0, p[j - 1].0));
            } else if i < at && j < at {
                assert(lex_lt(p[i].0, p[j].0));
            } else if i == at {
                if j - 1 > at {
                    assert(lex_lt(p[at].0, p[j - 1].0));
                    lemma_lex_transitive(k, p[at].0, p[j - 1].0);
                }
            } else if i > at {
                assert(lex_lt(p[i - 1].0, p[j - 1].0));
            }
        }
    }
    assert forall|x: Seq<char>|
        #![trigger pairs_map(q).contains_key(x)]
        pairs_map(q).contains_key(x) <==> pairs_map(p).insert(k, v).contains_key(x) by {
        if pairs_map(q).contains_key(x) {
            let i = choose|i: int| key_at(q, x, i);
            assert(key_at(q, x, i));
            if i < at {
                assert(key_at(p, x, i));
            } else if i > at {
                assert(key_at(p, x, i - 1));
            }
        }
        if pairs_map(p).insert(k, v).contains_key(x) {
            if x == k {
                assert(key_at(q, x, at));
            } else {
                let i = choose|i: int| key_at(p, x, i);
                assert(key_at(p, x, i));
                if i < at {
                    assert(key_at(q, x, i));
                } else {
                    assert(key_at(q, x, i + 1));
                }
            }
        }
    }
    assert forall|x: Seq<char>| #[trigger] pairs_map(q).contains_key(x) implies pairs_map(q)[x]
        == pairs_map(p).insert(k, v)[x] by {
        let i = choose|i: int| key_at(q, x, i);
        assert(key_at(q, x, i));
        lemma_pairs_map_at(q, i);
        if i < at {
            lemma_pairs_map_at(p, i);
        } else if i > at {
            lemma_pairs_map_at(p, i - 1);
        }
        if x == k {
            lemma_pairs_map_at(q, at);
        }
    }
    assert(pairs_map(q) =~= pairs_map(p).insert(k, v));
}

impl<V> View for StrMap<V> {
    type V = Map<Seq<char>, V>;

    open spec fn view(&self) -> Map<Seq<char>, V> {
        pairs_map(self.pairs())
    }
}

impl<V> Default for StrMap<V> {
    fn default() -> (r: Self)
        ensures
            r.pairs() == Seq::<(Seq<char>, V)>::empty(),
            r@ == Map::<Seq<char>, V>::empty(),
    {
        StrMap::new()
    }
}

impl<V: Clone> Clone for StrMap<V> {
    fn clone(&self) -> (r: Self)
        ensures
            r.pairs().len() == self.pairs().len(),
            forall|i: int|
                0 <= i < r.pairs().len() ==> (#[trigger] r.pairs()[i]).0 == self.pairs()[i].0
                    && cloned::<V>(self.pairs()[i].1, r.pairs()[i].1),
    {
        proof {
            use_type_invariant(self);
        }
        let mut entries: Vec<(String, V)> = Vec::new();
        let mut i: usize = 0;
        while i < self.entries.len()
            invariant
                i <= self.entries@.len(),
                entries@.len() == i,
                forall|j: int|
                    0 <= j < i ==> (#[trigger] entries@[j]).0@ == self.entries@[j].0@ && cloned::<
                        V,
                    >(self.entries@[j].1, entries@[j].1),
            decreases self.entries@.len() - i,
        {
            entries.push((self.entries[i].0.clone(), self.entries[i].1.clone()));
            i += 1;
        }
        proof {
            let p = self.pairs();
            let q = entries@.map_values(|e: (String, V)| (e.0@, e.1));
            assert forall|i: int, j: int| 0 <= i < j < q.len() implies lex_lt(
                #[trigger] q[i].0,
                #[trigger] q[j].0,
            ) by {
                assert(entries@[i].0@ == p[i].0);
                assert(entries@[j].0@ == p[j].0);
            }
        }
        StrMap { entries }
    }
}

// ----------------------------------------------------------------------- set

/// The texts come in strictly increasing order.
pub open spec fn increasing(s: Seq<Seq<char>>) -> bool {
    forall|i: int, j: int| 0 <= i < j < s.len() ==> lex_lt(#[trigger] s[i], #[trigger] s[j])
}

spec fn keyed(p: Seq<Seq<char>>) -> Seq<(Seq<char>, ())> {
    p.map_values(|k: Seq<char>| (k, ()))
}

/// Two lists of texts in increasing order that hold the same texts are the same list.
pub proof fn law_a_listing_in_order_is_determined(p: Seq<Seq<char>>, q: Seq<Seq<char>>)
    requires
        increasing(p),
        increasing(q),
        p.to_set() == q.to_set(),
    ensures
        p == q,
{
    let a = keyed(p);
    let b = keyed(q);
    assert(keys_increase(a));
    assert(keys_increase(b));
    assert forall|k: Seq<char>|
        #![trigger pairs_map(a).contains_key(k)]
        pairs_map(a).contains_key(k) <==> pairs_map(b).contains_key(k) by {
        lemma_listed_key(p, k);
        lemma_listed_key(q, k);
        assert(p.contains(k) <==> p.to_set().contains(k));
        assert(q.contains(k) <==> q.to_set().contains(k));
    }
    assert(pairs_map(a) =~= pairs_map(b));
    lemma_pairs_determined(a, b);
    assert forall|i: int| 0 <= i < p.len() implies p[i] == q[i] by {
        assert(a[i] == b[i]);
    }
    assert(a.len() == b.len());
    assert(p =~= q);
}

proof fn lemma_listed_key(p: Seq<Seq<char>>, k: Seq<char>)
    ensures
        pairs_map(keyed(p)).contains_key(k) <==> p.contains(k),
{
    let a = keyed(p);
    if p.contains(k) {
        let i = choose|i: int| 0 <= i < p.len() && p[i] == k;
        assert(key_at(a, k, i));
    }
    if pairs_map(a).contains_key(k) {
        let i = choose|i: int| key_at(a, k, i);
        assert(key_at(a, k, i));
        assert(p[i] == k);
    }
}

/// A set of texts, listed in increasing order.
#[derive(Debug, PartialEq, Eq)]
pub struct StrSet {
    items: Vec<String>,
}

impl StrSet {
    /// The members in increasing order.
    pub closed spec fn listed(&self) -> Seq<Seq<char>> {
        texts(self.items@)
    }

    #[verifier::type_invariant]
    closed spec fn ordered(&self) -> bool {
        increasing(self.listed())
    }

    /// The empty set.
    pub fn new() -> (r: Self)
        ensures
            r@ == Set::<Seq<char>>::empty(),
            r.listed() == Seq::<Seq<char>>::empty(),
    {
        let items: Vec<String> = Vec::new();
        let r = StrSet { items };
        assert(r.listed() =~= Seq::<Seq<char>>::empty());
        assert(r@ =~= Set::<Seq<char>>::empty());
        r
    }

    /// The number of members.
    pub fn len(&self) -> (n: usize)
        ensures
            n == self.listed().len(),
            n == self@.len(),
            self@.finite(),
            increasing(self.listed()),
    {
        proof {
            use_type_invariant(self);
            lemma_increasing_distinct(self.listed());
            self.listed().unique_seq_to_set();
        }
        self.items.len()
    }

    /// Whether there is no member.
    pub fn is_empty(&self) -> (r: bool)
        ensures
            r == (self@ == Set::<Seq<char>>::empty()),
            r == (self.listed().len() == 0),
    {
        proof {
            if self.items@.len() > 0 {
                assert(self.listed().contains(self.listed()[0]));
                assert(self@.contains(self.listed()[0]));
            } else {
                assert(self@ =~= Set::<Seq<char>>::empty());
            }
        }
        self.items.len() == 0
    }

    /// Member `i` in increasing order.
    pub fn item(&self, i: usize) -> (s: &String)
        requires
            i < self.listed().len(),
        ensures
            s@ == self.listed()[i as int],
    {
        &self.items[i]
    }

    /// Whether `k` is a member.
    pub fn contains(&self, k: &str) -> (r: bool)
        ensures
            r == self@.contains(k@),
    {
        let mut i: usize = 0;
        while i < self.items.len()
            invariant
                i <= self.items@.len(),
                forall|j: int| 0 <= j < i ==> #[trigger] self.listed()[j] != k@,
            decreases self.items@.len() - i,
        {
            if same(self.items[i].as_str(), k) {
                assert(self.listed()[i as int] == k@);
                return true;
            }
            i += 1;
        }
        false
    }

    /// Makes `k` a member.
    pub fn insert(&mut self, k: String)
        ensures
            final(self)@ == old(self)@.insert(k@),
    {
        proof {
            use_type_invariant(&*self);
        }
        let ghost p = self.listed();
        let ghost kv = k@;
        let mut items: Vec<String> = Vec::new();
        std::mem::swap(&mut items, &mut self.items);
        let mut i: usize = 0;
        while i < items.len() && precedes(items[i].as_str(), k.as_str())
            invariant
                i <= items@.len(),
                texts(items@) == p,
                forall|j: int| 0 <= j < i ==> lex_lt(#[trigger] p[j], k@),
            decreases items@.len() - i,
        {
            assert(p[i as int] == items@[i as int]@);
            i += 1;
        }
        if i < items.len() && same(items[i].as_str(), k.as_str()) {
            proof {
                assert(p[i as int] == kv);
                assert(p.to_set().contains(kv));
                assert(p.to_set().insert(kv) =~= p.to_set());
            }
        } else {
            proof {
                if i < items@.len() {
                    assert(p[i as int] == items@[i as int]@);
                    lemma_lex_total(p[i as int], kv);
                }
            }
            items.insert(i, k);
            proof {
                let q = texts(items@);
                assert(q =~= p.insert(i as int, kv));
                lemma_listed_insert(p, kv, i as int);
            }
        }
        self.items = items;
    }
}

proof fn lemma_increasing_distinct(p: Seq<Seq<char>>)
    requires
        increasing(p),
    ensures
        p.no_duplicates(),
{
    assert forall|i: int, j: int| 0 <= i < p.len() && 0 <= j < p.len() && i != j implies p[i]
        != p[j] by {
        lemma_lex_irreflexive(p[i]);
        if i < j {
            assert(lex_lt(p[i], p[j]));
        } else {
            assert(lex_lt(p[j], p[i]));
        }
    }
}

proof fn lemma_listed_insert(p: Seq<Seq<char>>, k: Seq<char>, at: int)
    requires
        increasing(p),
        0 <= at <= p.len(),
        forall|j: int| 0 <= j < at ==> lex_lt(#[trigger] p[j], k),
        at < p.len() ==> lex_lt(k, p[at]),
    ensures
        increasing(p.insert(at, k)),
        p.insert(at, k).to_set() == p.to_set().insert(k),
{
    let q = p.insert(at, k);
    assert forall|i: int, j: int| 0 <= i < j < q.len() implies lex_lt(
        #[trigger] q[i],
        #[trigger] q[j],
    ) by {
        if i < at && j > at {
            assert(lex_lt(p[i], p[j - 1]));
        } else if i < at && j < at {
            assert(lex_lt(p[i], p[j]));
        } else if i == at {
            if j - 1 > at {
                assert(lex_lt(p[at], p[j - 1]));
                lemma_lex_transitive(k, p[at], p[j - 1]);
            }
        } else if i > at {
            assert(lex_lt(p[i - 1], p[j - 1]));
        }
    }
    assert forall|x: Seq<char>|
        #![trigger q.to_set().contains(x)]
        q.to_set().contains(x) <==> p.to_set().insert(k).contains(x) by {
        if q.contains(x) {
            let i = choose|i: int| 0 <= i < q.len() && q[i] == x;
            if i < at {
                assert(p[i] == x);
            } else if i > at {
                assert(p[i - 1] == x);
            }
        }
        if p.contains(x) {
            let i = choose|i: int| 0 <= i < p.len() && p[i] == x;
            if i < at {
                assert(q[i] == x);
            } else {
                assert(q[i + 1] == x);
            }
        }
        assert(q[at] == k);
    }
    assert(q.to_set() =~= p.to_set().insert(k));
}

impl Clone for StrSet {
    fn clone(&self) -> (r: Self)
        ensures
            r.listed() == self.listed(),
            r@ == self@,
    {
        proof {
            use_type_invariant(self);
        }
        let items = self.items.clone();
        assert(texts(items@) =~= texts(self.items@));
        StrSet { items }
    }
}

impl View for StrSet {
    type V = Set<Seq<char>>;

    open spec fn view(&self) -> Set<Seq<char>> {
        self.listed().to_set()
    }
}

// ---------------------------------------------------------------------- laws

/// A map holds what its entries hold: each key with its value, and no other key.
pub proof fn law_a_map_holds_its_entries<V>(m: StrMap<V>, k: Seq<char>, i: int)
    requires
        forall|a: int, b: int|
            0 <= a < b < m.pairs().len() ==> (#[trigger] m.pairs()[a]).0 != (
            #[trigger] m.pairs()[b]).0,
    ensures
        0 <= i < m.pairs().len() ==> m@.contains_key(m.pairs()[i].0) && m@[m.pairs()[i].0]
            == m.pairs()[i].1,
        m@.contains_key(k) ==> exists|j: int|
            0 <= j < m.pairs().len() && (#[trigger] m.pairs()[j]).0 == k,
{
    let p = m.pairs();
    if 0 <= i < p.len() {
        assert(key_at(p, p[i].0, i));
        let j = choose|j: int| key_at(p, p[i].0, j);
        assert(key_at(p, p[i].0, j));
        if i < j {
            assert(p[i].0 != p[j].0);
        } else if j < i {
            assert(p[j].0 != p[i].0);
        }
    }
    if m@.contains_key(k) {
        let j = choose|j: int| key_at(p, k, j);
        assert(p[j].0 == k);
    }
}

/// A set holds what it lists, and no more.
pub proof fn law_a_set_holds_what_it_lists(s: StrSet, k: Seq<char>)
    ensures
        s@.contains(k) <==> exists|i: int|
            0 <= i < s.listed().len() && (#[trigger] s.listed()[i]) == k,
{
}

/// Increasing is in strict order, each text before all that follow it.
pub proof fn law_increasing_is_in_strict_order(s: Seq<Seq<char>>, i: int, j: int)
    requires
        increasing(s),
        0 <= i < j < s.len(),
    ensures
        lex_lt(s[i], s[j]),
        s[i] != s[j],
{
    lemma_lex_irreflexive(s[i]);
}

} // verus!

//! A map keyed by text, kept as a list of pairs in insertion order.
use vstd::prelude::*;
use vstd::std_specs::cmp::{PartialEqSpec, PartialEqSpecImpl};

verus! {

/// The map that a list of pairs denotes when each pair is inserted in turn,
/// so that a later pair for a key replaces an earlier one.
pub open spec fn fold_pairs<K, W>(s: Seq<(K, W)>) -> Map<K, W>
    decreases s.len(),
{
    if s.len() == 0 {
        Map::empty()
    } else {
        fold_pairs(s.drop_last()).insert(s.last().0, s.last().1)
    }
}

/// No key occurs twice in the list.
pub open spec fn unique_keys<K, W>(s: Seq<(K, W)>) -> bool {
    forall|i: int, j: int|
        #![trigger s[i], s[j]]
        0 <= i < s.len() && 0 <= j < s.len() && i != j ==> s[i].0 != s[j].0
}

/// A key is in the folded map exactly when some pair carries it.
pub proof fn lemma_fold_contains<K, W>(s: Seq<(K, W)>, k: K)
    ensures
        fold_pairs(s).contains_key(k) <==> exists|i: int| 0 <= i < s.len() && #[trigger] s[i].0 == k,
    decreases s.len(),
{
    if s.len() > 0 {
        let t = s.drop_last();
        lemma_fold_contains(t, k);
        if fold_pairs(s).contains_key(k) {
            if k == s.last().0 {
                assert(s[s.len() - 1].0 == k);
            } else {
                let i = choose|i: int| 0 <= i < t.len() && #[trigger] t[i].0 == k;
                assert(s[i].0 == k);
            }
        }
        if exists|i: int| 0 <= i < s.len() && #[trigger] s[i].0 == k {
            let i = choose|i: int| 0 <= i < s.len() && #[trigger] s[i].0 == k;
            if i < s.len() - 1 {
                assert(t[i].0 == k);
            }
        }
    }
}

/// With distinct keys, each pair's value is what the folded map holds for its key.
pub proof fn lemma_fold_index<K, W>(s: Seq<(K, W)>, i: int)
    requires
        unique_keys(s),
        0 <= i < s.len(),
    ensures
        fold_pairs(s).contains_key(s[i].0),
        fold_pairs(s)[s[i].0] == s[i].1,
    decreases s.len(),
{
    let t = s.drop_last();
    if i < s.len() - 1 {
        assert(unique_keys(t)) by {
            assert forall|a: int, b: int|
                #![trigger t[a], t[b]]
                0 <= a < t.len() && 0 <= b < t.len() && a != b implies t[a].0 != t[b].0 by {
                assert(t[a] == s[a] && t[b] == s[b]);
            }
        }
        lemma_fold_index(t, i);
        assert(s[i] == t[i]);
        assert(s[i].0 != s[s.len() - 1].0);
    }
}

/// Dropping the last pair keeps the keys distinct.
proof fn lemma_unique_drop_last<K, W>(s: Seq<(K, W)>)
    requires
        unique_keys(s),
        s.len() > 0,
    ensures
        unique_keys(s.drop_last()),
{
    let t = s.drop_last();
    assert forall|a: int, b: int|
        #![trigger t[a], t[b]]
        0 <= a < t.len() && 0 <= b < t.len() && a != b implies t[a].0 != t[b].0 by {
        assert(t[a] == s[a] && t[b] == s[b]);
    }
}

/// With distinct keys, replacing the value of one pair is an insert into the folded map.
pub proof fn lemma_fold_update<K, W>(s: Seq<(K, W)>, i: int, w: W)
    requires
        unique_keys(s),
        0 <= i < s.len(),
    ensures
        fold_pairs(s.update(i, (s[i].0, w))) == fold_pairs(s).insert(s[i].0, w),
    decreases s.len(),
{
    let k = s[i].0;
    let u = s.update(i, (k, w));
    let t = s.drop_last();
    if i == s.len() - 1 {
        assert(u.drop_last() =~= t);
        assert(fold_pairs(u) =~= fold_pairs(s).insert(k, w));
    } else {
        lemma_unique_drop_last(s);
        assert(u.drop_last() =~= t.update(i, (k, w)));
        assert(t[i] == s[i]);
        lemma_fold_update(t, i, w);
        assert(s[i].0 != s[s.len() - 1].0);
        assert(u.last() == s.last());
        assert(fold_pairs(u) =~= fold_pairs(s).insert(k, w));
    }
}

/// With distinct keys, the folded map has one key per pair.
pub proof fn lemma_fold_len<K, W>(s: Seq<(K, W)>)
    requires
        unique_keys(s),
    ensures
        fold_pairs(s).dom().finite(),
        fold_pairs(s).dom().len() == s.len(),
    decreases s.len(),
{
    if s.len() > 0 {
        let t = s.drop_last();
        lemma_unique_drop_last(s);
        lemma_fold_len(t);
        lemma_fold_contains(t, s.last().0);
        if fold_pairs(t).contains_key(s.last().0) {
            let i = choose|i: int| 0 <= i < t.len() && #[trigger] t[i].0 == s.last().0;
            assert(s[i] == t[i]);
            assert(s[i].0 != s[s.len() - 1].0);
        }
        assert(fold_pairs(s).dom() =~= fold_pairs(t).dom().insert(s.last().0));
    }
}

/// Appending a pair is an insert into the folded map.
pub proof fn lemma_fold_push<K, W>(s: Seq<(K, W)>, k: K, w: W)
    ensures
        fold_pairs(s.push((k, w))) == fold_pairs(s).insert(k, w),
{
    assert(s.push((k, w)).drop_last() =~= s);
}

/// A map from text keys to values.
///
/// The pairs are kept in the order in which their keys were first inserted,
/// and no key occurs twice.
#[derive(Debug)]
pub struct StrMap<V: View> {
    pairs: Vec<(String, V)>,
}

impl<V: View> StrMap<V> {
    /// The pairs of the map, as plain values, in insertion order.
    pub closed spec fn entries(&self) -> Seq<(Seq<char>, V::V)> {
        self.pairs@.map_values(|p: (String, V)| (p.0@, p.1@))
    }

    #[verifier::type_invariant]
    closed spec fn inv(&self) -> bool {
        unique_keys(self.entries())
    }

    /// Both maps have as many pairs, and each key of `self` is held by `other` with a
    /// value equal to its own.
    pub closed spec fn same_pairs(&self, other: &Self) -> bool where V: PartialEq {
        &&& self.pairs@.len() == other.pairs@.len()
        &&& forall|a: int|
            0 <= a < self.pairs@.len() ==> #[trigger] holds_equal(other.pairs@, self.pairs@[a])
    }

    /// Creates an empty map.
    pub fn new() -> (r: Self)
        ensures
            r@ == Map::<Seq<char>, V::V>::empty(),
            r.entries() == Seq::<(Seq<char>, V::V)>::empty(),
    {
        let r = StrMap { pairs: Vec::new() };
        assert(r.entries() =~= Seq::<(Seq<char>, V::V)>::empty());
        r
    }

    /// The number of keys in the map.
    pub fn len(&self) -> (r: usize)
        ensures
            r == self@.len(),
            r == self.entries().len(),
            self@.dom().finite(),
    {
        proof {
            use_type_invariant(self);
            lemma_fold_len(self.entries());
        }
        self.pairs.len()
    }

    /// Whether the map has no keys.
    pub fn is_empty(&self) -> (r: bool)
        ensures
            r == (self@.len() == 0),
            r == (self@ == Map::<Seq<char>, V::V>::empty()),
    {
        proof {
            use_type_invariant(self);
            lemma_fold_len(self.entries());
        }
        let n = self.pairs.len();
        if n != 0 {
            proof {
                lemma_fold_index(self.entries(), 0);
                assert(self@.contains_key(self.entries()[0].0));
            }
        } else {
            assert(self.entries() =~= Seq::<(Seq<char>, V::V)>::empty());
        }
        n == 0
    }

    /// The position of `key` among the pairs, if it is there.
    fn find(&self, key: &str) -> (r: Option<usize>)
        ensures
            r matches Some(i) ==> i < self.entries().len() && self.entries()[i as int].0 == key@,
            r is None ==> forall|i: int|
                0 <= i < self.entries().len() ==> #[trigger] self.entries()[i].0 != key@,
            r is Some <==> self@.contains_key(key@),
            r matches Some(i) ==> self@[key@] == self.entries()[i as int].1,
    {
        proof {
            use_type_invariant(self);
        }
        let k = key.to_string();
        let n = self.pairs.len();
        let mut i: usize = 0;
        while i < n
            invariant
                n == self.pairs@.len(),
                i <= n,
                k@ == key@,
                unique_keys(self.entries()),
                forall|j: int| 0 <= j < i ==> #[trigger] self.entries()[j].0 != key@,
            decreases n - i,
        {
            if self.pairs[i].0 == k {
                proof {
                    lemma_fold_index(self.entries(), i as int);
                }
                return Some(i);
            }
            i = i + 1;
        }
        proof {
            lemma_fold_contains(self.entries(), key@);
        }
        None
    }

    /// Whether the map holds `key`.
    pub fn contains_key(&self, key: &str) -> (r: bool)
        ensures
            r == self@.contains_key(key@),
    {
        self.find(key).is_some()
    }

    /// The value held for `key`, if any.
    pub fn get(&self, key: &str) -> (r: Option<&V>)
        ensures
            r is Some <==> self@.contains_key(key@),
            r matches Some(v) ==> v@ == self@[key@],
    {
        match self.find(key) {
            Some(i) => Some(&self.pairs[i].1),
            None => None,
        }
    }

    /// The stored key and the value held for `key`, if any.
    pub fn get_key_value(&self, key: &str) -> (r: Option<(&str, &V)>)
        ensures
            r is Some <==> self@.contains_key(key@),
            r matches Some(p) ==> p.0@ == key@ && p.1@ == self@[key@],
    {
        match self.find(key) {
            Some(i) => Some((self.pairs[i].0.as_str(), &self.pairs[i].1)),
            None => None,
        }
    }

    /// Sets the value of `key`; a value already held for it is replaced,
    /// and a new key goes after the others.
    pub fn insert(&mut self, key: String, value: V)
        ensures
            final(self)@ == old(self)@.insert(key@, value@),
            old(self)@.contains_key(key@) ==> exists|i: int|
                0 <= i < old(self).entries().len() && old(self).entries()[i].0 == key@
                    && final(self).entries() == old(self).entries().update(
                    i,
                    (key@, value@),
                ),
            !old(self)@.contains_key(key@) ==> final(self).entries() == old(self).entries().push(
                (key@, value@),
            ),
    {
        proof {
            use_type_invariant(&*self);
        }
        let found = self.find(key.as_str());
        let mut pairs: Vec<(String, V)> = Vec::new();
        std::mem::swap(&mut pairs, &mut self.pairs);
        let ghost old_pairs = pairs@;
        let ghost old_entries = old(self).entries();
        assert(old_entries == old_pairs.map_values(|p: (String, V)| (p.0@, p.1@)));
        let ghost kv = (key@, value@);
        match found {
            Some(i) => {
                pairs.set(i, (key, value));
                proof {
                    let new_entries = pairs@.map_values(|p: (String, V)| (p.0@, p.1@));
                    assert(new_entries =~= old_entries.update(i as int, kv));
                    lemma_fold_update(old_entries, i as int, value@);
                    assert forall|a: int, b: int|
                        #![trigger new_entries[a], new_entries[b]]
                        0 <= a < new_entries.len() && 0 <= b < new_entries.len() && a != b implies
                        new_entries[a].0 != new_entries[b].0 by {
                        assert(new_entries[a].0 == old_entries[a].0);
                        assert(new_entries[b].0 == old_entries[b].0);
                    }
                }
            },
            None => {
                pairs.push((key, value));
                proof {
                    let new_entries = pairs@.map_values(|p: (String, V)| (p.0@, p.1@));
                    assert(new_entries =~= old_entries.push(kv));
                    lemma_fold_push(old_entries, kv.0, kv.1);
                    assert forall|a: int, b: int|
                        #![trigger new_entries[a], new_entries[b]]
                        0 <= a < new_entries.len() && 0 <= b < new_entries.len() && a != b implies
                        new_entries[a].0 != new_entries[b].0 by {
                        if a < old_entries.len() && b < old_entries.len() {
                            assert(new_entries[a] == old_entries[a]);
                            assert(new_entries[b] == old_entries[b]);
                        } else if a < old_entries.len() {
                            assert(new_entries[a] == old_entries[a]);
                        } else {
                            assert(new_entries[b] == old_entries[b]);
                        }
                    }
                }
            },
        }
        self.pairs = pairs;
    }

    /// The pairs of the map, in insertion order.
    pub fn iter(&self) -> (r: &[(String, V)])
        ensures
            unique_keys(self.entries()),
            r@.len() == self.entries().len(),
            forall|i: int|
                0 <= i < r@.len() ==> (#[trigger] r@[i]).0@ == self.entries()[i].0 && r@[i].1@
                    == self.entries()[i].1,
    {
        proof {
            use_type_invariant(self);
        }
        self.pairs.as_slice()
    }

    /// The keys of the map, in insertion order.
    pub fn keys(&self) -> (r: Vec<&String>)
        ensures
            r@.len() == self.entries().len(),
            forall|i: int| 0 <= i < r@.len() ==> (#[trigger] r@[i])@ == self.entries()[i].0,
            unique_keys(self.entries()),
    {
        proof {
            use_type_invariant(self);
        }
        let n = self.pairs.len();
        let mut r: Vec<&String> = Vec::new();
        let mut i: usize = 0;
        while i < n
            invariant
                n == self.pairs@.len(),
                i <= n,
                r@.len() == i,
                forall|j: int| 0 <= j < i ==> (#[trigger] r@[j])@ == self.entries()[j].0,
            decreases n - i,
        {
            r.push(&self.pairs[i].0);
            i = i + 1;
        }
        r
    }

    /// The values of the map, in the insertion order of their keys.
    pub fn values(&self) -> (r: Vec<&V>)
        ensures
            r@.len() == self.entries().len(),
            forall|i: int| 0 <= i < r@.len() ==> (#[trigger] r@[i])@ == self.entries()[i].1,
            unique_keys(self.entries()),
    {
        proof {
            use_type_invariant(self);
        }
        let n = self.pairs.len();
        let mut r: Vec<&V> = Vec::new();
        let mut i: usize = 0;
        while i < n
            invariant
                n == self.pairs@.len(),
                i <= n,
                r@.len() == i,
                forall|j: int| 0 <= j < i ==> (#[trigger] r@[j])@ == self.entries()[j].1,
            decreases n - i,
        {
            r.push(&self.pairs[i].1);
            i = i + 1;
        }
        r
    }

    /// Takes the pairs out of the map, in insertion order.
    pub fn into_pairs(self) -> (r: Vec<(String, V)>)
        ensures
            unique_keys(self.entries()),
            r@.len() == self.entries().len(),
            forall|i: int|
                0 <= i < r@.len() ==> (#[trigger] r@[i]).0@ == self.entries()[i].0 && r@[i].1@
                    == self.entries()[i].1,
    {
        proof {
            use_type_invariant(&self);
        }
        self.pairs
    }
}

/// A copy of a map: the same keys in the same order, each value cloned.
impl<V: View + Clone> Clone for StrMap<V> {
    fn clone(&self) -> (r: Self)
        ensures
            r.entries().len() == self.entries().len(),
            forall|a: int| 0 <= a < r.entries().len() ==> #[trigger] r.entries()[a].0 == self.entries()[a].0,
            (forall|v: V, w: V| #[trigger] cloned::<V>(v, w) ==> v@ == w@) ==> r@ == self@,
    {
        proof {
            use_type_invariant(self);
        }
        let n = self.pairs.len();
        let mut pairs: Vec<(String, V)> = Vec::new();
        let mut i: usize = 0;
        while i < n
            invariant
                n == self.pairs@.len(),
                i <= n,
                pairs@.len() == i,
                unique_keys(self.entries()),
                forall|a: int| 0 <= a < i ==> #[trigger] pairs@[a].0@ == self.pairs@[a].0@,
                forall|a: int| 0 <= a < i ==> cloned::<V>(self.pairs@[a].1, #[trigger] pairs@[a].1),
            decreases n - i,
        {
            let key = self.pairs[i].0.clone();
            let value = self.pairs[i].1.clone();
            pairs.push((key, value));
            i = i + 1;
        }
        let ghost es = pairs@.map_values(|p: (String, V)| (p.0@, p.1@));
        proof {
            assert forall|a: int| 0 <= a < es.len() implies #[trigger] es[a].0 == self.entries()[a].0 by {
                assert(es[a].0 == pairs@[a].0@);
            }
            assert forall|a: int, b: int|
                #![trigger es[a], es[b]]
                0 <= a < es.len() && 0 <= b < es.len() && a != b implies es[a].0 != es[b].0 by {
                assert(es[a].0 == self.entries()[a].0);
                assert(es[b].0 == self.entries()[b].0);
                let se = self.entries();
                assert(se[a].0 != se[b].0);
            }
        }
        let r = StrMap { pairs };
        assert(r.entries() == es);
        proof {
            if forall|v: V, w: V| #[trigger] cloned::<V>(v, w) ==> v@ == w@ {
                assert forall|a: int| 0 <= a < es.len() implies #[trigger] es[a] == self.entries()[a] by {
                    assert(cloned::<V>(self.pairs@[a].1, pairs@[a].1));
                }
                assert(es =~= self.entries());
            }
        }
        r
    }
}

/// Two maps are equal when they hold the same keys, in any order, with equal values.
impl<V: View + PartialEq> PartialEq for StrMap<V> {
    fn eq(&self, other: &Self) -> (r: bool) {
        proof {
            use_type_invariant(self);
            use_type_invariant(other);
        }
        let n = self.pairs.len();
        if n != other.pairs.len() {
            return false;
        }
        let mut i: usize = 0;
        while i < n
            invariant
                n == self.pairs@.len(),
                n == other.pairs@.len(),
                i <= n,
                unique_keys(other.entries()),
                V::obeys_eq_spec() ==> forall|a: int|
                    0 <= a < i ==> #[trigger] holds_equal(other.pairs@, self.pairs@[a]),
            decreases n - i,
        {
            match other.find(self.pairs[i].0.as_str()) {
                None => {
                    proof {
                        assert(self.entries()[i as int].0 == self.pairs@[i as int].0@);
                        assert forall|b: int| 0 <= b < other.pairs@.len() implies !(
                            #[trigger] other.pairs@[b].0@ == self.pairs@[i as int].0@) by {
                            assert(other.entries()[b].0 == other.pairs@[b].0@);
                        }
                        assert(!holds_equal(other.pairs@, self.pairs@[i as int]));
                        assert(!self.same_pairs(other));
                    }
                    return false;
                },
                Some(j) => {
                    let same = self.pairs[i].1 == other.pairs[j].1;
                    if !same {
                        proof {
                            assert(other.entries()[j as int].0 == other.pairs@[j as int].0@);
                            assert(self.entries()[i as int].0 == self.pairs@[i as int].0@);
                            assert forall|b: int|
                                0 <= b < other.pairs@.len() && #[trigger] other.pairs@[b].0@
                                    == self.pairs@[i as int].0@ implies b == j by {
                                assert(other.entries()[b].0 == other.pairs@[b].0@);
                            }
                            if V::obeys_eq_spec() {
                                assert(!holds_equal(other.pairs@, self.pairs@[i as int]));
                                assert(!self.same_pairs(other));
                            }
                        }
                        return false;
                    }
                    proof {
                        assert(other.entries()[j as int].0 == other.pairs@[j as int].0@);
                        assert(self.entries()[i as int].0 == self.pairs@[i as int].0@);
                    }
                },
            }
            i = i + 1;
        }
        true
    }
}

/// `pairs` holds the key of `p` with a value equal to that of `p`.
pub open spec fn holds_equal<V: PartialEq>(pairs: Seq<(String, V)>, p: (String, V)) -> bool {
    exists|b: int|
        0 <= b < pairs.len() && pairs[b].0@ == p.0@ && p.1.eq_spec(&pairs[b].1)
}

impl<V: View + PartialEq> PartialEqSpecImpl for StrMap<V> {
    open spec fn obeys_eq_spec() -> bool {
        V::obeys_eq_spec()
    }

    open spec fn eq_spec(&self, other: &Self) -> bool {
        self.same_pairs(other)
    }
}

impl<V: View> View for StrMap<V> {
    type V = Map<Seq<char>, V::V>;

    open spec fn view(&self) -> Map<Seq<char>, V::V> {
        fold_pairs(self.entries())
    }
}

} // verus!

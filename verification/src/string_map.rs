//! A map from text keys to values that keeps its entries in the order of
//! their keys, so that whatever walks it meets them in one fixed order.

use crate::text::{
    ascending, lemma_text_lt_irreflexive, lemma_text_lt_total, lemma_text_lt_transitive, place,
    text_lt, texts, Placement,
};
use vstd::prelude::*;

verus! {

/// The number of keys at the front of `keys` that are below `k`: in an
/// ascending sequence, the place where `k` stands or would be put.
pub open spec fn slot(keys: Seq<Seq<char>>, k: Seq<char>) -> int
    decreases keys.len(),
{
    if keys.len() == 0 || !text_lt(keys[0], k) {
        0
    } else {
        1 + slot(keys.drop_first(), k)
    }
}

/// The map that pairs each key with the value at the key's index.
pub open spec fn paired<V>(keys: Seq<Seq<char>>, values: Seq<V>) -> Map<Seq<char>, V> {
    Map::new(|k: Seq<char>| keys.contains(k), |k: Seq<char>| values[keys.index_of(k)])
}

/// In an ascending sequence no key stands twice.
pub proof fn lemma_ascending_distinct(keys: Seq<Seq<char>>, i: int, j: int)
    requires
        ascending(keys),
        0 <= i < keys.len(),
        0 <= j < keys.len(),
        keys[i] == keys[j],
    ensures
        i == j,
{
    lemma_text_lt_irreflexive(keys[i]);
}

/// In an ascending sequence each key is found at its own index.
pub proof fn lemma_index_of(keys: Seq<Seq<char>>, i: int)
    requires
        ascending(keys),
        0 <= i < keys.len(),
    ensures
        keys.contains(keys[i]),
        keys.index_of(keys[i]) == i,
{
    let j = keys.index_of(keys[i]);
    lemma_ascending_distinct(keys, i, j);
}

/// The index `p` is the slot of `k` where the keys before it are below `k`
/// and the key at it, if there is one, is not.
pub proof fn lemma_slot_is(keys: Seq<Seq<char>>, k: Seq<char>, p: int)
    requires
        0 <= p <= keys.len(),
        forall|j: int| 0 <= j < p ==> text_lt(#[trigger] keys[j], k),
        p < keys.len() ==> !text_lt(keys[p], k),
    ensures
        slot(keys, k) == p,
    decreases keys.len(),
{
    if p > 0 {
        let rest = keys.drop_first();
        assert forall|j: int| 0 <= j < p - 1 implies text_lt(#[trigger] rest[j], k) by {
            assert(rest[j] == keys[j + 1]);
        }
        lemma_slot_is(rest, k, p - 1);
    }
}

/// What the slot of `k` in an ascending sequence tells.
pub proof fn lemma_slot(keys: Seq<Seq<char>>, k: Seq<char>)
    requires
        ascending(keys),
    ensures
        0 <= slot(keys, k) <= keys.len(),
        forall|j: int| 0 <= j < slot(keys, k) ==> text_lt(#[trigger] keys[j], k),
        forall|j: int| slot(keys, k) <= j < keys.len() ==> !text_lt(#[trigger] keys[j], k),
        keys.contains(k) <==> (slot(keys, k) < keys.len() && keys[slot(keys, k)] == k),
    decreases keys.len(),
{
    lemma_text_lt_irreflexive(k);
    if keys.len() == 0 {
    } else if !text_lt(keys[0], k) {
        assert forall|j: int| 0 <= j < keys.len() implies !text_lt(#[trigger] keys[j], k) by {
            if j > 0 && text_lt(keys[j], k) {
                lemma_text_lt_transitive(keys[0], keys[j], k);
            }
        }
        if keys.contains(k) {
            let w = choose|w: int| 0 <= w < keys.len() && keys[w] == k;
            if w > 0 {
                lemma_text_lt_total(keys[0], k);
            }
        }
    } else {
        let rest = keys.drop_first();
        assert(ascending(rest)) by {
            assert forall|i: int, j: int| 0 <= i < j < rest.len() implies text_lt(
                #[trigger] rest[i],
                #[trigger] rest[j],
            ) by {
                assert(rest[i] == keys[i + 1]);
                assert(rest[j] == keys[j + 1]);
            }
        }
        lemma_slot(rest, k);
        let s = slot(rest, k);
        assert forall|j: int| 0 <= j < s + 1 implies text_lt(#[trigger] keys[j], k) by {
            if j > 0 {
                assert(keys[j] == rest[j - 1]);
            }
        }
        assert forall|j: int| s + 1 <= j < keys.len() implies !text_lt(#[trigger] keys[j], k) by {
            assert(keys[j] == rest[j - 1]);
        }
        if s < rest.len() {
            assert(keys[s + 1] == rest[s]);
        }
        if keys.contains(k) {
            let w = choose|w: int| 0 <= w < keys.len() && keys[w] == k;
            assert(w > 0);
            assert(rest[w - 1] == k);
        }
        if rest.contains(k) {
            let w = choose|w: int| 0 <= w < rest.len() && rest[w] == k;
            assert(keys[w + 1] == k);
        }
    }
}

/// A key that an ascending sequence lacks, put at its slot, leaves the
/// sequence ascending.
pub proof fn lemma_insert_ascending(keys: Seq<Seq<char>>, k: Seq<char>)
    requires
        ascending(keys),
        !keys.contains(k),
    ensures
        ascending(keys.insert(slot(keys, k), k)),
{
    lemma_slot(keys, k);
    let s = slot(keys, k);
    let grown = keys.insert(s, k);
    assert forall|i: int, j: int| 0 <= i < j < grown.len() implies text_lt(
        #[trigger] grown[i],
        #[trigger] grown[j],
    ) by {
        if j == s {
            assert(grown[i] == keys[i]);
        } else if i == s {
            assert(grown[j] == keys[j - 1]);
            assert(keys.contains(keys[j - 1]));
            lemma_text_lt_total(keys[j - 1], k);
        } else {
            let a = if i < s {
                i
            } else {
                i - 1
            };
            let b = if j < s {
                j
            } else {
                j - 1
            };
            assert(grown[i] == keys[a]);
            assert(grown[j] == keys[b]);
        }
    }
}

/// Putting a new key and its value at the key's slot adds that one pair to
/// the map.
pub proof fn lemma_paired_insert<V>(keys: Seq<Seq<char>>, values: Seq<V>, k: Seq<char>, v: V)
    requires
        ascending(keys),
        keys.len() == values.len(),
        !keys.contains(k),
    ensures
        paired(keys.insert(slot(keys, k), k), values.insert(slot(keys, k), v)) == paired(
            keys,
            values,
        ).insert(k, v),
{
    lemma_slot(keys, k);
    lemma_insert_ascending(keys, k);
    let s = slot(keys, k);
    let grown = keys.insert(s, k);
    let vals = values.insert(s, v);
    let left = paired(grown, vals);
    let right = paired(keys, values).insert(k, v);
    assert forall|x: Seq<char>| left.dom().contains(x) <==> right.dom().contains(x) by {
        if grown.contains(x) {
            let w = choose|w: int| 0 <= w < grown.len() && grown[w] == x;
            if w < s {
                assert(keys[w] == x);
            } else if w > s {
                assert(keys[w - 1] == x);
            }
        }
        if keys.contains(x) {
            let w = choose|w: int| 0 <= w < keys.len() && keys[w] == x;
            if w < s {
                assert(grown[w] == x);
            } else {
                assert(grown[w + 1] == x);
            }
        }
        if x == k {
            assert(grown[s] == x);
        }
    }
    assert forall|x: Seq<char>| #[trigger] left.dom().contains(x) implies left[x] == right[x] by {
        let w = grown.index_of(x);
        lemma_index_of(grown, w);
        if w == s {
        } else {
            let u = if w < s {
                w
            } else {
                w - 1
            };
            assert(keys[u] == x);
            lemma_index_of(keys, u);
        }
    }
    assert(left =~= right);
}

/// Changing the value at a key's index changes that one pair of the map.
pub proof fn lemma_paired_update<V>(keys: Seq<Seq<char>>, values: Seq<V>, i: int, v: V)
    requires
        ascending(keys),
        keys.len() == values.len(),
        0 <= i < keys.len(),
    ensures
        paired(keys, values.update(i, v)) == paired(keys, values).insert(keys[i], v),
{
    let left = paired(keys, values.update(i, v));
    let right = paired(keys, values).insert(keys[i], v);
    lemma_index_of(keys, i);
    assert forall|x: Seq<char>| #[trigger] left.dom().contains(x) implies left[x] == right[x] by {
        let w = keys.index_of(x);
        lemma_index_of(keys, w);
    }
    assert(left =~= right);
}

/// Two ascending sequences that hold the same keys are the same sequence.
pub proof fn lemma_ascending_same(a: Seq<Seq<char>>, b: Seq<Seq<char>>)
    requires
        ascending(a),
        ascending(b),
        forall|k: Seq<char>| a.contains(k) == b.contains(k),
    ensures
        a == b,
    decreases a.len(),
{
    if a.len() == 0 {
        if b.len() > 0 {
            assert(b.contains(b[0]));
        }
        assert(a =~= b);
    } else {
        assert(a.contains(a[0]));
        assert(b.contains(a[0]));
        let j = choose|j: int| 0 <= j < b.len() && b[j] == a[0];
        assert(b.contains(b[0]));
        let i = choose|i: int| 0 <= i < a.len() && a[i] == b[0];
        if i > 0 && j > 0 {
            lemma_text_lt_transitive(a[0], a[i], b[j]);
            lemma_text_lt_irreflexive(a[0]);
        }
        if i > 0 && j == 0 {
            lemma_text_lt_irreflexive(a[0]);
        }
        if i == 0 && j > 0 {
            lemma_text_lt_irreflexive(a[0]);
        }
        assert(a[0] == b[0]);
        let ta = a.drop_first();
        let tb = b.drop_first();
        assert forall|x: int, y: int| 0 <= x < y < ta.len() implies text_lt(
            #[trigger] ta[x],
            #[trigger] ta[y],
        ) by {
            assert(ta[x] == a[x + 1] && ta[y] == a[y + 1]);
        }
        assert forall|x: int, y: int| 0 <= x < y < tb.len() implies text_lt(
            #[trigger] tb[x],
            #[trigger] tb[y],
        ) by {
            assert(tb[x] == b[x + 1] && tb[y] == b[y + 1]);
        }
        assert forall|k: Seq<char>| ta.contains(k) == tb.contains(k) by {
            if ta.contains(k) {
                let x = choose|x: int| 0 <= x < ta.len() && ta[x] == k;
                assert(a[x + 1] == k);
                assert(a.contains(k));
                assert(text_lt(a[0], a[x + 1]));
                lemma_text_lt_irreflexive(k);
                let y = choose|y: int| 0 <= y < b.len() && b[y] == k;
                assert(y > 0);
                assert(tb[y - 1] == k);
            }
            if tb.contains(k) {
                let y = choose|y: int| 0 <= y < tb.len() && tb[y] == k;
                assert(b[y + 1] == k);
                assert(b.contains(k));
                assert(text_lt(b[0], b[y + 1]));
                lemma_text_lt_irreflexive(k);
                let x = choose|x: int| 0 <= x < a.len() && a[x] == k;
                assert(x > 0);
                assert(ta[x - 1] == k);
            }
        }
        lemma_ascending_same(ta, tb);
        assert(a =~= seq![a[0]] + ta);
        assert(b =~= seq![b[0]] + tb);
    }
}

/// Two ascending sequences of keys that are paired to the same map have
/// the same keys and the same values.
pub proof fn lemma_paired_same<V>(
    keys1: Seq<Seq<char>>,
    values1: Seq<V>,
    keys2: Seq<Seq<char>>,
    values2: Seq<V>,
)
    requires
        ascending(keys1),
        ascending(keys2),
        keys1.len() == values1.len(),
        keys2.len() == values2.len(),
        paired(keys1, values1) == paired(keys2, values2),
    ensures
        keys1 == keys2,
        values1 == values2,
{
    assert forall|k: Seq<char>| keys1.contains(k) == keys2.contains(k) by {
        assert(paired(keys1, values1).dom().contains(k) == keys1.contains(k));
        assert(paired(keys2, values2).dom().contains(k) == keys2.contains(k));
    }
    lemma_ascending_same(keys1, keys2);
    assert forall|i: int| 0 <= i < values1.len() implies values1[i] == values2[i] by {
        lemma_index_of(keys1, i);
        lemma_index_of(keys2, i);
        assert(paired(keys1, values1)[keys1[i]] == values1[i]);
        assert(paired(keys2, values2)[keys2[i]] == values2[i]);
    }
    assert(values1 =~= values2);
}

/// One key with its value.
#[derive(Debug)]
pub struct Entry<V> {
    key: String,
    value: V,
}

/// A map from text keys to values, kept in the order of its keys.
#[derive(Debug)]
pub struct StringMap<V> {
    entries: Vec<Entry<V>>,
}

impl<V> StringMap<V> {
    /// The keys, in the order in which the map holds them.
    pub closed spec fn keys(&self) -> Seq<Seq<char>> {
        Seq::new(self.entries@.len(), |i: int| self.entries@[i].key@)
    }

    /// The values, each at the index of its key.
    pub closed spec fn values(&self) -> Seq<V> {
        Seq::new(self.entries@.len(), |i: int| self.entries@[i].value)
    }

    /// The keys ascend, so none stands twice.
    #[verifier::type_invariant]
    pub closed spec fn wf(&self) -> bool {
        ascending(self.keys())
    }

    /// The map as a mathematical map.
    pub open spec fn view(&self) -> Map<Seq<char>, V> {
        paired(self.keys(), self.values())
    }

    /// A well-formed map has ascending keys, and as many values as keys.
    pub proof fn lemma_shape(&self)
        ensures
            self.keys().len() == self.values().len(),
            self.wf() ==> ascending(self.keys()),
            ascending(self.keys()) ==> self.wf(),
    {
    }

    /// A map without entries.
    pub fn new() -> (m: Self)
        ensures
            m.keys() == Seq::<Seq<char>>::empty(),
            m.values() == Seq::<V>::empty(),
            m.wf(),
    {
        let m = StringMap { entries: Vec::new() };
        assert(m.keys() =~= Seq::<Seq<char>>::empty());
        assert(m.values() =~= Seq::<V>::empty());
        m
    }

    /// The number of entries.
    pub fn len(&self) -> (n: usize)
        ensures
            n == self.keys().len(),
            n == self.values().len(),
    {
        self.entries.len()
    }

    /// Whether the map has no entries.
    pub fn is_empty(&self) -> (b: bool)
        ensures
            b == (self.keys().len() == 0),
    {
        self.entries.len() == 0
    }

    /// The key at index `i`.
    pub(crate) fn key_at(&self, i: usize) -> (key: &String)
        requires
            i < self.keys().len(),
        ensures
            key@ == self.keys()[i as int],
    {
        &self.entries[i].key
    }

    /// The value at index `i`.
    pub(crate) fn value_at(&self, i: usize) -> (value: &V)
        requires
            i < self.values().len(),
        ensures
            *value == self.values()[i as int],
    {
        &self.entries[i].value
    }

    /// The slot of `key`, and whether the map holds the key there.
    pub fn position(&self, key: &str) -> (r: (usize, bool))
        ensures
            r.0 == slot(self.keys(), key@),
            r.1 == self.keys().contains(key@),
            r.1 == self@.contains_key(key@),
            r.0 <= self.keys().len(),
            r.1 ==> r.0 < self.keys().len() && self.keys()[r.0 as int] == key@,
            r.1 ==> self@[key@] == self.values()[r.0 as int],
            self.wf(),
    {
        proof {
            use_type_invariant(self);
            lemma_slot(self.keys(), key@);
        }
        let ghost keys = self.keys();
        let mut lo: usize = 0;
        let mut hi: usize = self.entries.len();
        while lo < hi
            invariant
                lo <= hi <= keys.len(),
                keys == self.keys(),
                keys.len() == self.entries@.len(),
                ascending(keys),
                forall|j: int| 0 <= j < lo ==> text_lt(#[trigger] keys[j], key@),
                forall|j: int| hi <= j < keys.len() ==> text_lt(key@, #[trigger] keys[j]),
            decreases hi - lo,
        {
            let mid = lo + (hi - lo) / 2;
            let found = place(self.entries[mid].key.as_str(), key);
            assert(keys[mid as int] == self.entries@[mid as int].key@);
            match found {
                Placement::Same => {
                    proof {
                        lemma_text_lt_irreflexive(key@);
                        lemma_slot_is(keys, key@, mid as int);
                        lemma_index_of(keys, mid as int);
                    }
                    return (mid, true);
                },
                Placement::Before => {
                    assert forall|j: int| 0 <= j < mid + 1 implies text_lt(
                        #[trigger] keys[j],
                        key@,
                    ) by {
                        if j < mid {
                            lemma_text_lt_transitive(keys[j], keys[mid as int], key@);
                        }
                    }
                    lo = mid + 1;
                },
                Placement::After => {
                    assert forall|j: int| mid <= j < keys.len() implies text_lt(
                        key@,
                        #[trigger] keys[j],
                    ) by {
                        if j > mid {
                            lemma_text_lt_transitive(key@, keys[mid as int], keys[j]);
                        }
                    }
                    hi = mid;
                },
            }
        }
        proof {
            lemma_text_lt_irreflexive(key@);
            if lo < keys.len() && text_lt(keys[lo as int], key@) {
                lemma_text_lt_transitive(key@, keys[lo as int], key@);
            }
            lemma_slot_is(keys, key@, lo as int);
        }
        (lo, false)
    }

    /// Whether the map holds `key`.
    pub fn contains_key(&self, key: &str) -> (b: bool)
        ensures
            b == self@.contains_key(key@),
    {
        self.position(key).1
    }

    /// The value that the map holds for `key`.
    pub fn get(&self, key: &str) -> (r: Option<&V>)
        ensures
            r is Some == self@.contains_key(key@),
            r matches Some(v) ==> *v == self@[key@],
    {
        let (i, found) = self.position(key);
        if found {
            Some(&self.entries[i].value)
        } else {
            None
        }
    }

    /// Pairs `key` with `value`: a key that the map holds gets the new value
    /// and keeps its place, a new key goes to its slot.
    pub fn insert(&mut self, key: String, value: V)
        ensures
            final(self)@ == old(self)@.insert(key@, value),
            final(self).wf(),
            old(self).wf(),
            old(self).keys().contains(key@) ==> {
                &&& final(self).keys() == old(self).keys()
                &&& final(self).values() == old(self).values().update(
                    slot(old(self).keys(), key@),
                    value,
                )
            },
            !old(self).keys().contains(key@) ==> {
                &&& final(self).keys() == old(self).keys().insert(
                    slot(old(self).keys(), key@),
                    key@,
                )
                &&& final(self).values() == old(self).values().insert(
                    slot(old(self).keys(), key@),
                    value,
                )
            },
    {
        let (i, found) = self.position(key.as_str());
        let ghost keys = self.keys();
        let ghost values = self.values();
        let mut entries: Vec<Entry<V>> = Vec::new();
        assert(Seq::new(0nat, |i: int| entries@[i].key@) =~= Seq::<Seq<char>>::empty());
        std::mem::swap(&mut self.entries, &mut entries);
        if found {
            proof {
                lemma_paired_update(keys, values, i as int, value);
            }
            entries.set(i, Entry { key, value });
            let ghost new_keys = Seq::new(entries@.len(), |i: int| entries@[i].key@);
            let ghost new_values = Seq::new(entries@.len(), |i: int| entries@[i].value);
            assert(new_keys =~= keys);
            assert(new_values =~= values.update(i as int, value));
        } else {
            proof {
                lemma_paired_insert(keys, values, key@, value);
                lemma_insert_ascending(keys, key@);
            }
            let ghost k = key@;
            entries.insert(i, Entry { key, value });
            let ghost new_keys = Seq::new(entries@.len(), |i: int| entries@[i].key@);
            let ghost new_values = Seq::new(entries@.len(), |i: int| entries@[i].value);
            assert(new_keys =~= keys.insert(i as int, k));
            assert(new_values =~= values.insert(i as int, value));
        }
        std::mem::swap(&mut self.entries, &mut entries);
    }

    /// Puts `value` in place of the value at index `i`, and hands back what
    /// was there.
    pub(crate) fn replace_value(&mut self, i: usize, value: V) -> (before: V)
        requires
            i < old(self).values().len(),
        ensures
            before == old(self).values()[i as int],
            final(self).keys() == old(self).keys(),
            final(self).values() == old(self).values().update(i as int, value),
            final(self)@ == old(self)@.insert(old(self).keys()[i as int], value),
            final(self).wf(),
    {
        proof {
            use_type_invariant(&*self);
            lemma_paired_update(self.keys(), self.values(), i as int, value);
        }
        let ghost keys = self.keys();
        let ghost values = self.values();
        let mut entries: Vec<Entry<V>> = Vec::new();
        assert(Seq::new(0nat, |i: int| entries@[i].key@) =~= Seq::<Seq<char>>::empty());
        std::mem::swap(&mut self.entries, &mut entries);
        let mut held = value;
        std::mem::swap(&mut entries[i].value, &mut held);
        let ghost new_keys = Seq::new(entries@.len(), |i: int| entries@[i].key@);
        let ghost new_values = Seq::new(entries@.len(), |i: int| entries@[i].value);
        assert(new_keys =~= keys);
        assert(new_values =~= values.update(i as int, value));
        std::mem::swap(&mut self.entries, &mut entries);
        held
    }

    /// A copy of the keys, in the order in which the map holds them.
    pub fn key_list(&self) -> (list: Vec<String>)
        ensures
            texts(list@) == self.keys(),
            ascending(self.keys()),
    {
        proof {
            use_type_invariant(self);
        }
        let mut list: Vec<String> = Vec::new();
        let mut i: usize = 0;
        while i < self.entries.len()
            invariant
                i <= self.entries@.len(),
                list@.len() == i,
                forall|j: int| 0 <= j < i ==> list@[j]@ == self.entries@[j].key@,
            decreases self.entries.len() - i,
        {
            list.push(self.entries[i].key.clone());
            i += 1;
        }
        assert(texts(list@) =~= self.keys());
        list
    }
}

} // verus!

//! A map from text to values that is read in ascending order of its keys.

use vstd::prelude::*;

use crate::order::{lemma_bytes_lt_asymmetric, lemma_bytes_lt_transitive, lemma_text_lt_total, text_less, text_lt, text_same};

verus! {

/// A map whose entries stand in strictly ascending order of their keys.
pub struct SortedMap<V> {
    entries: Vec<(String, V)>,
}

/// The keys of the entries.
pub open spec fn keys_of<V>(entries: Seq<(String, V)>) -> Seq<Seq<char>> {
    entries.map_values(|e: (String, V)| e.0@)
}

/// The keys stand in strictly ascending order.
pub open spec fn ascending(keys: Seq<Seq<char>>) -> bool {
    forall|i: int, j: int| 0 <= i < j < keys.len() ==> text_lt(#[trigger] keys[i], #[trigger] keys[j])
}

/// The map that entries with distinct keys stand for.
pub open spec fn entry_map<V>(entries: Seq<(String, V)>) -> Map<Seq<char>, V>
    decreases entries.len(),
{
    if entries.len() == 0 {
        Map::empty()
    } else {
        entry_map(entries.drop_last()).insert(entries.last().0@, entries.last().1)
    }
}

impl<V> View for SortedMap<V> {
    type V = Map<Seq<char>, V>;

    closed spec fn view(&self) -> Map<Seq<char>, V> {
        entry_map(self.entries@)
    }
}

impl SortedMap<String> {
    /// The map with its values read as text.
    pub open spec fn texts(&self) -> Map<Seq<char>, Seq<char>> {
        self@.map_values(|v: String| v@)
    }
}

impl<V> SortedMap<V> {
    #[verifier::type_invariant]
    spec fn wf(self) -> bool {
        ascending(keys_of(self.entries@))
    }

    /// The keys in the order in which they are read.
    pub closed spec fn keys(&self) -> Seq<Seq<char>> {
        keys_of(self.entries@)
    }

    /// The empty map.
    pub fn new() -> (r: Self)
        ensures
            r@ == Map::<Seq<char>, V>::empty(),
    {
        SortedMap { entries: Vec::new() }
    }

    /// How many entries there are. The keys are in strictly ascending order.
    pub fn len(&self) -> (n: usize)
        ensures
            n == self.keys().len(),
            ascending(self.keys()),
            forall|k: Seq<char>| #[trigger] self@.contains_key(k) <==> self.keys().contains(k),
    {
        proof {
            use_type_invariant(self);
            lemma_keys(*self);
        }
        self.entries.len()
    }

    /// The key at position `i` in ascending order.
    pub fn key_at(&self, i: usize) -> (k: &str)
        requires
            i < self.keys().len(),
        ensures
            k@ == self.keys()[i as int],
            self@.contains_key(k@),
    {
        proof {
            use_type_invariant(self);
            lemma_entry(self.entries@, i as int);
        }
        self.entries[i].0.as_str()
    }

    /// The value at position `i` in ascending order of the keys.
    pub fn value_at(&self, i: usize) -> (v: &V)
        requires
            i < self.keys().len(),
        ensures
            self@.contains_key(self.keys()[i as int]),
            *v == self@[self.keys()[i as int]],
    {
        proof {
            use_type_invariant(self);
            lemma_entry(self.entries@, i as int);
        }
        &self.entries[i].1
    }

    /// Set the value of `key`.
    pub fn insert(&mut self, key: String, value: V)
        ensures
            final(self)@ == old(self)@.insert(key@, value),
    {
        proof {
            use_type_invariant(&*self);
        }
        let mut entries: Vec<(String, V)> = Vec::new();
        std::mem::swap(&mut self.entries, &mut entries);
        let ghost before = entries@;
        let mut k: usize = entries.len();
        while k > 0 && text_less(key.as_str(), entries[k - 1].0.as_str())
            invariant
                k <= entries@.len(),
                forall|j: int| k <= j < entries@.len() ==> text_lt(key@, #[trigger] entries@[j].0@),
            decreases k,
        {
            k = k - 1;
        }
        proof {
            assert forall|j: int| k <= j < before.len() implies text_lt(
                key@,
                #[trigger] keys_of(before)[j],
            ) by {
                assert(text_lt(key@, entries@[j].0@));
            }
        }
        if k > 0 && !text_less(entries[k - 1].0.as_str(), key.as_str()) {
            proof {
                lemma_text_lt_total(key@, entries@[k - 1].0@);
                lemma_replace_entry(before, key, value, k - 1);
            }
            entries.set(k - 1, (key, value));
        } else {
            proof {
                lemma_insert_entry(before, key, value, k as int);
            }
            entries.insert(k, (key, value));
        }
        self.entries = entries;
    }

    /// Take `key` out.
    pub fn remove(&mut self, key: &str)
        ensures
            final(self)@ == old(self)@.remove(key@),
    {
        proof {
            use_type_invariant(&*self);
        }
        let mut entries: Vec<(String, V)> = Vec::new();
        std::mem::swap(&mut self.entries, &mut entries);
        let ghost before = entries@;
        let mut i: usize = 0;
        while i < entries.len() && !text_same(entries[i].0.as_str(), key)
            invariant
                i <= entries@.len(),
                forall|j: int| 0 <= j < i ==> keys_of(entries@)[j] != key@,
            decreases entries@.len() - i,
        {
            i = i + 1;
        }
        if i < entries.len() {
            proof {
                lemma_remove_entry(before, i as int);
            }
            entries.remove(i);
        } else {
            proof {
                lemma_entry_map_domain(before, key@);
                assert(entry_map(before).remove(key@) =~= entry_map(before));
            }
        }
        self.entries = entries;
    }

    /// The value of `key`, if there is one.
    pub fn get(&self, key: &str) -> (r: Option<&V>)
        ensures
            r is Some <==> self@.contains_key(key@),
            r is Some ==> *r->0 == self@[key@],
    {
        proof {
            use_type_invariant(self);
        }
        let mut i: usize = 0;
        while i < self.entries.len()
            invariant
                i <= self.entries@.len(),
                ascending(keys_of(self.entries@)),
                forall|j: int| 0 <= j < i ==> keys_of(self.entries@)[j] != key@,
            decreases self.entries@.len() - i,
        {
            if text_same(self.entries[i].0.as_str(), key) {
                proof {
                    lemma_entry(self.entries@, i as int);
                }
                return Some(&self.entries[i].1);
            }
            i = i + 1;
        }
        proof {
            lemma_entry_map_domain(self.entries@, key@);
        }
        None
    }
}

/// What the order of reading a map tells of the map.
proof fn lemma_keys<V>(m: SortedMap<V>)
    requires
        ascending(m.keys()),
    ensures
        forall|k: Seq<char>| #[trigger] m@.contains_key(k) <==> m.keys().contains(k),
{
    assert forall|k: Seq<char>| #[trigger] m@.contains_key(k) <==> m.keys().contains(k) by {
        lemma_entry_map_domain(m.entries@, k);
    }
}

proof fn lemma_entry_map_domain<V>(entries: Seq<(String, V)>, k: Seq<char>)
    ensures
        entry_map(entries).contains_key(k) <==> keys_of(entries).contains(k),
    decreases entries.len(),
{
    if entries.len() > 0 {
        let init = entries.drop_last();
        lemma_entry_map_domain(init, k);
        assert(keys_of(entries) =~= keys_of(init).push(entries.last().0@));
        if keys_of(entries).contains(k) {
            let i = choose|i: int| 0 <= i < keys_of(entries).len() && keys_of(entries)[i] == k;
            if i < init.len() {
                assert(keys_of(init)[i] == k);
            }
        }
        if keys_of(init).contains(k) {
            let i = choose|i: int| 0 <= i < keys_of(init).len() && keys_of(init)[i] == k;
            assert(keys_of(entries)[i] == k);
        }
        if k == entries.last().0@ {
            assert(keys_of(entries)[entries.len() - 1] == k);
        }
    }
}

proof fn lemma_entry<V>(entries: Seq<(String, V)>, i: int)
    requires
        0 <= i < entries.len(),
        ascending(keys_of(entries)),
    ensures
        entry_map(entries).contains_key(entries[i].0@),
        entry_map(entries)[entries[i].0@] == entries[i].1,
    decreases entries.len(),
{
    if i < entries.len() - 1 {
        let init = entries.drop_last();
        assert(keys_of(init) =~= keys_of(entries).drop_last());
        lemma_entry(init, i);
        assert(text_lt(keys_of(entries)[i], keys_of(entries)[entries.len() - 1]));
        lemma_bytes_lt_asymmetric(
            vstd::utf8::encode_utf8(entries[i].0@),
            vstd::utf8::encode_utf8(entries.last().0@),
        );
    }
}

proof fn lemma_replace_entry<V>(entries: Seq<(String, V)>, key: String, value: V, k: int)
    requires
        0 <= k < entries.len(),
        ascending(keys_of(entries)),
        entries[k].0@ == key@,
    ensures
        ascending(keys_of(entries.update(k, (key, value)))),
        entry_map(entries.update(k, (key, value))) == entry_map(entries).insert(key@, value),
    decreases entries.len(),
{
    let after = entries.update(k, (key, value));
    assert(keys_of(after) =~= keys_of(entries));
    let init = entries.drop_last();
    if k == entries.len() - 1 {
        assert(after.drop_last() =~= init);
        assert(entry_map(after) =~= entry_map(entries).insert(key@, value));
    } else {
        assert(keys_of(init) =~= keys_of(entries).drop_last());
        lemma_replace_entry(init, key, value, k);
        assert(after.drop_last() =~= init.update(k, (key, value)));
        assert(text_lt(keys_of(entries)[k], keys_of(entries)[entries.len() - 1]));
        lemma_bytes_lt_asymmetric(
            vstd::utf8::encode_utf8(key@),
            vstd::utf8::encode_utf8(entries.last().0@),
        );
        assert(entry_map(after) =~= entry_map(entries).insert(key@, value));
    }
}

proof fn lemma_remove_entry<V>(entries: Seq<(String, V)>, k: int)
    requires
        0 <= k < entries.len(),
        ascending(keys_of(entries)),
    ensures
        ascending(keys_of(entries.remove(k))),
        entry_map(entries.remove(k)) == entry_map(entries).remove(entries[k].0@),
    decreases entries.len(),
{
    let after = entries.remove(k);
    let ks = keys_of(entries);
    let key = entries[k].0@;
    assert(keys_of(after) =~= ks.remove(k));
    assert forall|i: int, j: int| 0 <= i < j < after.len() implies text_lt(
        #[trigger] keys_of(after)[i],
        #[trigger] keys_of(after)[j],
    ) by {
        let i0 = if i < k { i } else { i + 1 };
        let j0 = if j < k { j } else { j + 1 };
        assert(text_lt(ks[i0], ks[j0]));
    }
    let init = entries.drop_last();
    assert(keys_of(init) =~= ks.drop_last());
    if k == entries.len() - 1 {
        assert(after =~= init);
        lemma_entry_map_domain(init, key);
        if keys_of(init).contains(key) {
            let i = choose|i: int| 0 <= i < keys_of(init).len() && keys_of(init)[i] == key;
            assert(text_lt(ks[i], ks[k]));
            lemma_bytes_lt_asymmetric(
                vstd::utf8::encode_utf8(key),
                vstd::utf8::encode_utf8(key),
            );
        }
        assert(entry_map(after) =~= entry_map(entries).remove(key));
    } else {
        lemma_remove_entry(init, k);
        assert(after.drop_last() =~= init.remove(k));
        assert(after.last() == entries.last());
        assert(text_lt(ks[k], ks[entries.len() - 1]));
        lemma_bytes_lt_asymmetric(
            vstd::utf8::encode_utf8(key),
            vstd::utf8::encode_utf8(entries.last().0@),
        );
        assert(entry_map(after) =~= entry_map(entries).remove(key));
    }
}

proof fn lemma_insert_entry<V>(entries: Seq<(String, V)>, key: String, value: V, k: int)
    requires
        0 <= k <= entries.len(),
        ascending(keys_of(entries)),
        forall|j: int| k <= j < entries.len() ==> text_lt(key@, #[trigger] keys_of(entries)[j]),
        k > 0 ==> text_lt(entries[k - 1].0@, key@),
    ensures
        ascending(keys_of(entries.insert(k, (key, value)))),
        entry_map(entries.insert(k, (key, value))) == entry_map(entries).insert(key@, value),
    decreases entries.len(),
{
    let after = entries.insert(k, (key, value));
    let ks = keys_of(entries);
    assert(keys_of(after) =~= ks.insert(k, key@));
    assert forall|i: int, j: int| 0 <= i < j < after.len() implies text_lt(
        #[trigger] keys_of(after)[i],
        #[trigger] keys_of(after)[j],
    ) by {
        if j == k {
            if i < k - 1 {
                assert(text_lt(ks[i], ks[k - 1]));
                lemma_bytes_lt_transitive(
                    vstd::utf8::encode_utf8(ks[i]),
                    vstd::utf8::encode_utf8(ks[k - 1]),
                    vstd::utf8::encode_utf8(key@),
                );
            }
        } else if i == k {
            assert(text_lt(key@, ks[j - 1]));
        } else {
            let i0 = if i < k { i } else { i - 1 };
            let j0 = if j < k { j } else { j - 1 };
            assert(text_lt(ks[i0], ks[j0]));
        }
    }
    if k == entries.len() {
        assert(after.drop_last() =~= entries);
    } else {
        let init = entries.drop_last();
        assert(keys_of(init) =~= ks.drop_last());
        lemma_insert_entry(init, key, value, k);
        assert(after.drop_last() =~= init.insert(k, (key, value)));
        assert(text_lt(key@, ks[entries.len() - 1]));
        lemma_bytes_lt_asymmetric(
            vstd::utf8::encode_utf8(key@),
            vstd::utf8::encode_utf8(entries.last().0@),
        );
        assert(entry_map(after) =~= entry_map(entries).insert(key@, value));
    }
}

} // verus!

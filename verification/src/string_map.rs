//! A map with string keys that is walked in the order of its keys.
use crate::order;
use crate::order::compare;
use crate::order::Rank;
use vstd::prelude::*;

verus! {

/// A map from strings to values, kept in ascending order of the keys.
#[derive(Debug, PartialEq, Eq)]
pub struct StringMap<V> {
    entries: Vec<(String, V)>,
}

/// The keys of the entries.
spec fn keys_of<V>(entries: Seq<(String, V)>) -> Seq<Seq<char>> {
    Seq::new(entries.len(), |i: int| entries[i].0@)
}

/// The map that the entries make up.
spec fn map_of<V: View>(entries: Seq<(String, V)>) -> Map<Seq<char>, V::V> {
    Map::new(
        |k: Seq<char>| keys_of(entries).contains(k),
        |k: Seq<char>| entries[keys_of(entries).index_of(k)].1@,
    )
}

/// Each entry is found under its key.
proof fn lemma_map_of<V: View>(entries: Seq<(String, V)>, i: int)
    requires
        order::ascending(keys_of(entries)),
        0 <= i < entries.len(),
    ensures
        map_of(entries).contains_key(entries[i].0@),
        map_of(entries)[entries[i].0@] == entries[i].1@,
{
    let keys = keys_of(entries);
    order::lemma_ascending_distinct(keys);
    assert(keys[i] == entries[i].0@);
    assert(keys.contains(keys[i]));
    assert(keys[keys.index_of(keys[i])] == keys[i]);
}

/// The domain of the map in order is the sequence of the keys.
proof fn lemma_keys_sorted<V: View>(entries: Seq<(String, V)>)
    requires
        order::ascending(keys_of(entries)),
    ensures
        order::sorted(map_of(entries).dom()) == keys_of(entries),
        map_of(entries).dom() == keys_of(entries).to_set(),
        map_of(entries).dom().finite(),
        map_of(entries).dom().len() == entries.len(),
{
    let keys = keys_of(entries);
    assert(map_of(entries).dom() =~= keys.to_set());
    order::lemma_sorted_is(keys);
    order::lemma_ascending_distinct(keys);
    keys.unique_seq_to_set();
    vstd::seq_lib::seq_to_set_is_finite(keys);
}

impl<V> StringMap<V> {
    #[verifier::type_invariant]
    spec fn ordered(self) -> bool {
        order::ascending(keys_of(self.entries@))
    }
}

impl<V: View> View for StringMap<V> {
    type V = Map<Seq<char>, V::V>;

    closed spec fn view(&self) -> Map<Seq<char>, V::V> {
        map_of(self.entries@)
    }
}

/// Where a key stands among the entries, or where it belongs.
enum Place {
    At(usize),
    Before(usize),
}

impl<V: View> StringMap<V> {
    /// The empty map.
    pub fn new() -> (r: Self)
        ensures
            r@ == Map::<Seq<char>, V::V>::empty(),
    {
        let r = StringMap { entries: Vec::new() };
        assert(r@ =~= Map::<Seq<char>, V::V>::empty());
        r
    }

    /// The number of keys.
    pub fn len(&self) -> (r: usize)
        ensures
            r == self@.dom().len(),
            r == order::sorted(self@.dom()).len(),
            self@.dom().finite(),
    {
        proof {
            use_type_invariant(self);
            lemma_keys_sorted(self.entries@);
        }
        self.entries.len()
    }

    /// Whether there is no key.
    pub fn is_empty(&self) -> (r: bool)
        ensures
            r == (self@ == Map::<Seq<char>, V::V>::empty()),
            r == (order::sorted(self@.dom()).len() == 0),
    {
        proof {
            use_type_invariant(self);
            lemma_keys_sorted(self.entries@);
            if self.entries@.len() == 0 {
                assert(self@ =~= Map::<Seq<char>, V::V>::empty());
            } else {
                lemma_map_of(self.entries@, 0);
            }
        }
        self.entries.len() == 0
    }

    fn place(&self, key: &str) -> (r: Place)
        ensures
            match r {
                Place::At(i) => i < self.entries@.len() && self.entries@[i as int].0@ == key@,
                Place::Before(i) => {
                    &&& i <= self.entries@.len()
                    &&& !self@.contains_key(key@)
                    &&& forall|j: int|
                        0 <= j < i ==> order::before(#[trigger] keys_of(self.entries@)[j], key@)
                    &&& forall|j: int|
                        i <= j < self.entries@.len() ==> order::before(
                            key@,
                            #[trigger] keys_of(self.entries@)[j],
                        )
                },
            },
    {
        proof {
            use_type_invariant(self);
        }
        let ghost keys = keys_of(self.entries@);
        for i in 0..self.entries.len()
            invariant
                keys == keys_of(self.entries@),
                order::ascending(keys),
                forall|j: int| 0 <= j < i ==> order::before(#[trigger] keys[j], key@),
        {
            assert(keys[i as int] == self.entries@[i as int].0@);
            match compare(self.entries[i].0.as_str(), key) {
                Rank::Before => {},
                Rank::Same => {
                    return Place::At(i);
                },
                Rank::After => {
                    proof {
                        assert forall|j: int| i <= j < keys.len() implies order::before(
                            key@,
                            #[trigger] keys[j],
                        ) by {
                            if j > i {
                                assert(order::before(keys[i as int], keys[j]));
                                order::lemma_before_transitive(key@, keys[i as int], keys[j]);
                            }
                        }
                        Self::lemma_absent(self.entries@, key@, i as int);
                    }
                    return Place::Before(i);
                },
            }
        }
        proof {
            Self::lemma_absent(self.entries@, key@, keys.len() as int);
        }
        Place::Before(self.entries.len())
    }

    /// A key between two neighbours is not among the entries.
    proof fn lemma_absent(entries: Seq<(String, V)>, key: Seq<char>, i: int)
        requires
            0 <= i <= entries.len(),
            forall|j: int| 0 <= j < i ==> order::before(#[trigger] keys_of(entries)[j], key),
            forall|j: int|
                i <= j < entries.len() ==> order::before(key, #[trigger] keys_of(entries)[j]),
        ensures
            !map_of(entries).contains_key(key),
    {
        order::lemma_before_irreflexive(key);
        let keys = keys_of(entries);
        if keys.contains(key) {
            let j = choose|j: int| 0 <= j < keys.len() && keys[j] == key;
            assert(order::before(keys[j], key) || order::before(key, keys[j]));
        }
    }

    /// The value under a key.
    pub fn get(&self, key: &str) -> (r: Option<&V>)
        ensures
            match r {
                Some(v) => self@.contains_key(key@) && self@[key@] == v@,
                None => !self@.contains_key(key@),
            },
    {
        proof {
            use_type_invariant(self);
        }
        match self.place(key) {
            Place::At(i) => {
                proof {
                    lemma_map_of(self.entries@, i as int);
                }
                Some(&self.entries[i].1)
            },
            Place::Before(_) => None,
        }
    }

    /// Whether there is a value under a key.
    pub fn contains_key(&self, key: &str) -> (r: bool)
        ensures
            r == self@.contains_key(key@),
    {
        match self.get(key) {
            Some(_) => true,
            None => false,
        }
    }

    /// The key at position `i` of the order.
    pub fn key_at(&self, i: usize) -> (r: &String)
        requires
            i < order::sorted(self@.dom()).len(),
        ensures
            r@ == order::sorted(self@.dom())[i as int],
            self@.contains_key(r@),
    {
        proof {
            use_type_invariant(self);
            lemma_keys_sorted(self.entries@);
            lemma_map_of(self.entries@, i as int);
        }
        &self.entries[i].0
    }

    /// The value under the key at position `i` of the order.
    pub fn value_at(&self, i: usize) -> (r: &V)
        requires
            i < order::sorted(self@.dom()).len(),
        ensures
            r@ == self@[order::sorted(self@.dom())[i as int]],
            self@.contains_key(order::sorted(self@.dom())[i as int]),
    {
        proof {
            use_type_invariant(self);
            lemma_keys_sorted(self.entries@);
            lemma_map_of(self.entries@, i as int);
        }
        &self.entries[i].1
    }

    /// Puts a value under a key and gives back what was there.
    pub fn insert(&mut self, key: String, value: V) -> (r: Option<V>)
        ensures
            final(self)@ == old(self)@.insert(key@, value@),
            match r {
                Some(v) => old(self)@.contains_key(key@) && old(self)@[key@] == v@,
                None => !old(self)@.contains_key(key@),
            },
    {
        proof {
            use_type_invariant(&*self);
        }
        let place = self.place(key.as_str());
        let ghost before_call = self.entries@;
        let ghost k = key@;
        let ghost v = value@;
        let mut entries: Vec<(String, V)> = Vec::new();
        std::mem::swap(&mut entries, &mut self.entries);
        match place {
            Place::At(i) => {
                proof {
                    lemma_map_of(before_call, i as int);
                }
                let was = entries.remove(i);
                entries.insert(i, (key, value));
                assert(keys_of(entries@) =~= keys_of(before_call));
                assert forall|x: Seq<char>| keys_of(entries@).contains(x) implies map_of(
                    entries@,
                )[x] == map_of(before_call).insert(k, v)[x] by {
                    let j = keys_of(entries@).index_of(x);
                    lemma_map_of(entries@, j);
                    lemma_map_of(before_call, j);
                    order::lemma_ascending_distinct(keys_of(before_call));
                    assert(keys_of(before_call)[i as int] == k);
                    if j != i {
                        assert(keys_of(before_call)[j] != k);
                    }
                }
                assert(keys_of(before_call)[i as int] == k);
                assert(map_of(entries@) =~= map_of(before_call).insert(k, v));
                self.entries = entries;
                Some(was.1)
            },
            Place::Before(i) => {
                entries.insert(i, (key, value));
                proof {
                    let keys = keys_of(before_call);
                    order::lemma_insert_ascending(keys, i as int, k);
                    assert(keys_of(entries@) =~= keys.insert(i as int, k));
                    assert forall|x: Seq<char>| keys_of(entries@).contains(x) implies map_of(
                        entries@,
                    )[x] == map_of(before_call).insert(k, v)[x] by {
                        let j = keys_of(entries@).index_of(x);
                        lemma_map_of(entries@, j);
                        order::lemma_before_irreflexive(k);
                        if j < i {
                            lemma_map_of(before_call, j);
                            assert(keys[j] != k);
                        } else if j > i {
                            lemma_map_of(before_call, j - 1);
                            assert(keys[j - 1] != k);
                        }
                    }
                    assert forall|x: Seq<char>|
                        keys_of(entries@).contains(x) == (keys.contains(x) || x == k) by {
                        assert(keys_of(entries@).to_set().contains(x) == keys.to_set().insert(
                            k,
                        ).contains(x));
                    }
                    assert(map_of(entries@) =~= map_of(before_call).insert(k, v));
                }
                self.entries = entries;
                None
            },
        }
    }

    /// Takes out what stands under a key.
    pub fn remove(&mut self, key: &str) -> (r: Option<V>)
        ensures
            final(self)@ == old(self)@.remove(key@),
            match r {
                Some(v) => old(self)@.contains_key(key@) && old(self)@[key@] == v@,
                None => !old(self)@.contains_key(key@),
            },
    {
        proof {
            use_type_invariant(&*self);
        }
        let place = self.place(key);
        match place {
            Place::At(i) => {
                let ghost before_call = self.entries@;
                let mut entries: Vec<(String, V)> = Vec::new();
                std::mem::swap(&mut entries, &mut self.entries);
                proof {
                    lemma_map_of(before_call, i as int);
                }
                let was = entries.remove(i);
                proof {
                    let keys = keys_of(before_call);
                    let left = keys_of(entries@);
                    order::lemma_ascending_distinct(keys);
                    assert(keys[i as int] == key@);
                    assert forall|j: int| 0 <= j < left.len() implies #[trigger] left[j] == keys[if j
                        < i {
                        j
                    } else {
                        j + 1
                    }] by {}
                    assert forall|x: Seq<char>| left.contains(x) == (keys.contains(x) && x
                        != key@) by {
                        if keys.contains(x) && x != key@ {
                            let j = choose|j: int| 0 <= j < keys.len() && keys[j] == x;
                            if j < i {
                                assert(left[j] == x);
                            } else {
                                assert(left[j - 1] == x);
                            }
                        }
                        if left.contains(x) {
                            let j = choose|j: int| 0 <= j < left.len() && left[j] == x;
                            assert(keys.contains(left[j]));
                        }
                    }
                    assert(order::ascending(left)) by {
                        assert forall|a: int, b: int| 0 <= a < b < left.len() implies order::before(
                            #[trigger] left[a],
                            #[trigger] left[b],
                        ) by {}
                    }
                    assert forall|x: Seq<char>| left.contains(x) implies map_of(entries@)[x]
                        == map_of(before_call)[x] by {
                        let j = left.index_of(x);
                        lemma_map_of(entries@, j);
                        if j < i {
                            lemma_map_of(before_call, j);
                        } else {
                            lemma_map_of(before_call, j + 1);
                        }
                    }
                    assert(map_of(entries@) =~= map_of(before_call).remove(key@));
                }
                self.entries = entries;
                Some(was.1)
            },
            Place::Before(_) => {
                assert(self@.remove(key@) =~= self@);
                None
            },
        }
    }
}

/// `b` holds under `key` a clone of what `a` holds there.
pub open spec fn cloned_at<V: View + Clone>(a: StringMap<V>, b: StringMap<V>, key: Seq<char>) -> bool {
    exists|v: V, w: V| v@ == a@[key] && w@ == b@[key] && #[trigger] cloned::<V>(v, w)
}

impl<V: View + Clone> Clone for StringMap<V> {
    fn clone(&self) -> (r: Self)
        ensures
            r@.dom() == self@.dom(),
            forall|k: Seq<char>|
                r@.contains_key(k) ==> #[trigger] cloned_at(*self, r, k),
    {
        proof {
            use_type_invariant(self);
        }
        let mut entries: Vec<(String, V)> = Vec::new();
        for i in 0..self.entries.len()
            invariant
                entries@.len() == i,
                forall|j: int|
                    0 <= j < i ==> (#[trigger] entries@[j]).0@ == self.entries@[j].0@ && cloned::<
                        V,
                    >(self.entries@[j].1, entries@[j].1),
        {
            let key = self.entries[i].0.clone();
            let value = self.entries[i].1.clone();
            entries.push((key, value));
        }
        assert(keys_of(entries@) =~= keys_of(self.entries@));
        let r = StringMap { entries };
        assert(r@.dom() =~= self@.dom());
        assert forall|k: Seq<char>| r@.contains_key(k) implies #[trigger] cloned_at(*self, r, k) by {
            let j = keys_of(entries@).index_of(k);
            lemma_map_of(entries@, j);
            lemma_map_of(self.entries@, j);
            assert(cloned::<V>(self.entries@[j].1, entries@[j].1));
        }
        r
    }
}

/// A copy of a map from strings to strings.
pub fn copy_text_map(m: &StringMap<String>) -> (r: StringMap<String>)
    ensures
        r@ == m@,
{
    let r = m.clone();
    assert forall|k: Seq<char>| r@.contains_key(k) implies r@[k] == m@[k] by {
        assert(cloned_at(*m, r, k));
    }
    assert(r@ =~= m@);
    r
}

/// What was put in under a key is found under it, and no other key is touched; what was taken out
/// is found no more.
pub proof fn entries_are_found_again<V: View>(
    map: &mut StringMap<V>,
    key: String,
    value: V,
    was: Option<V>,
)
    requires
        call_ensures(StringMap::<V>::insert, (map, key, value), was),
    ensures
        final(map)@.contains_key(key@),
        final(map)@[key@] == value@,
        forall|k: Seq<char>| #[trigger]
            final(map)@.contains_key(k) <==> old(map)@.contains_key(k) || k == key@,
        forall|k: Seq<char>|
            k != key@ && old(map)@.contains_key(k) ==> #[trigger] final(map)@[k] == old(map)@[k],
        was is Some <==> old(map)@.contains_key(key@),
{
}

/// Taking a key out takes out that key and no other.
pub proof fn removed_entries_are_gone<V: View>(map: &mut StringMap<V>, key: &str, was: Option<V>)
    requires
        call_ensures(StringMap::<V>::remove, (map, key), was),
    ensures
        forall|k: Seq<char>| #[trigger]
            final(map)@.contains_key(k) <==> old(map)@.contains_key(k) && k != key@,
        forall|k: Seq<char>|
            k != key@ && old(map)@.contains_key(k) ==> #[trigger] final(map)@[k] == old(map)@[k],
        was matches Some(v) ==> old(map)@.contains_key(key@) && old(map)@[key@] == v@,
        was is None ==> !old(map)@.contains_key(key@),
{
}

} // verus!

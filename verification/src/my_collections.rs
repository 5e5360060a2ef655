//! A separate-chaining hash map that can be filled and walked.

use core::fmt::Display;
use vstd::arithmetic::div_mod::{
    lemma_add_mod_noop, lemma_mod_add_multiples_vanish, lemma_mod_bound, lemma_small_mod,
};
use vstd::prelude::*;
use vstd::std_specs::cmp::PartialEqSpec;
use vstd::string::to_string_from_display_ensures;
use vstd::utf8::encode_utf8;
use vstd::wrapping::usize_specs;

verus! {

/// The number of buckets of a new map.
pub const INITIAL_CAPACITY: usize = 128;

/// The hash of a byte string: each step multiplies the hash so far by 31 and
/// adds the next byte, modulo `usize::MAX + 1`.
pub open spec fn hash_of(bytes: Seq<u8>) -> int
    decreases bytes.len(),
{
    if bytes.len() == 0 {
        0
    } else {
        (hash_of(bytes.drop_last()) * 31 + bytes.last()) % (usize::MAX + 1)
    }
}

/// The bucket of a key whose text is `text`, in a map of `capacity` buckets.
pub open spec fn bucket_of(text: Seq<char>, capacity: int) -> int {
    hash_of(encode_utf8(text)) % capacity
}

/// The mathematical model of the map: its buckets in order, each holding its
/// entries in the order they were added.
pub struct HashTable<K, V> {
    /// Number of entries added.
    pub size: int,
    /// Number of buckets.
    pub capacity: int,
    /// The buckets.
    pub buckets: Seq<Seq<(K, V)>>,
}

impl<K: PartialEq, V> HashTable<K, V> {
    /// A map of 128 empty buckets.
    pub open spec fn fresh() -> Self {
        HashTable {
            size: 0,
            capacity: INITIAL_CAPACITY as int,
            buckets: Seq::new(INITIAL_CAPACITY as nat, |i: int| Seq::empty()),
        }
    }

    /// All entries, bucket by bucket.
    pub open spec fn entries(self) -> Seq<(K, V)> {
        self.buckets.flatten_alt()
    }

    /// The invariant of the map: `capacity` counts the buckets, `size` the
    /// entries, and the entries fill no more than three quarters of the
    /// buckets.
    pub open spec fn wf(self) -> bool {
        &&& self.capacity == self.buckets.len()
        &&& self.capacity >= INITIAL_CAPACITY
        &&& self.size == self.entries().len()
        &&& 4 * self.size <= 3 * self.capacity
    }

    /// The index of the first entry of `bucket`, at or after `from`, whose key
    /// equals `key`.
    pub open spec fn first_match(bucket: Seq<(K, V)>, key: K, from: int) -> Option<int>
        decreases bucket.len() - from,
    {
        if from < 0 || from >= bucket.len() {
            None
        } else if bucket[from].0.eq_spec(&key) {
            Some(from)
        } else {
            Self::first_match(bucket, key, from + 1)
        }
    }

    /// Whether `slot` is where a lookup of `key` in bucket `index` ends: at the
    /// first entry whose key equals `key`, or nowhere if no entry has it.
    /// Where `==` on `K` has no specification, any entry and nowhere are both
    /// possible.
    pub open spec fn finds(self, index: int, key: K, slot: Option<int>) -> bool {
        let bucket = self.buckets[index];
        &&& slot matches Some(j) ==> 0 <= j < bucket.len()
        &&& K::obeys_eq_spec() ==> slot == Self::first_match(bucket, key, 0)
    }

    /// Whether the map must grow once it holds `size` entries: when they fill
    /// more than three quarters of the buckets.
    pub open spec fn crowded(size: int, capacity: int) -> bool {
        4 * size > 3 * capacity
    }

    /// The map after `value` was stored under `key` in bucket `index`. With a
    /// slot, the entry there keeps its key and gets the value. Without,
    /// `(key, value)` is added at the end of the bucket; if the map is then
    /// crowded, as many empty buckets as it has are added behind the others.
    pub open spec fn put(self, index: int, slot: Option<int>, key: K, value: V) -> Self {
        let bucket = self.buckets[index];
        match slot {
            Some(j) => HashTable {
                buckets: self.buckets.update(index, bucket.update(j, (bucket[j].0, value))),
                ..self
            },
            None => {
                let added = self.buckets.update(index, bucket.push((key, value)));
                if Self::crowded(self.size + 1, self.capacity) {
                    HashTable {
                        size: self.size + 1,
                        capacity: 2 * self.capacity,
                        buckets: added + Seq::new(self.capacity as nat, |i: int| Seq::empty()),
                    }
                } else {
                    HashTable { size: self.size + 1, capacity: self.capacity, buckets: added }
                }
            },
        }
    }
}

/// A hash map from keys to values. The bucket of a key is found from the text
/// that the key is displayed as.
///
/// When the map grows, the entries stay in the buckets they are in. A key
/// that was stored before is found again only while its text still hashes to
/// that bucket; otherwise storing it again adds a second entry.
pub struct MyHashMap<K, V> where K: Display + PartialEq + Clone, V: Clone {
    size: usize,
    capacity: usize,
    map: Vec<Vec<(K, V)>>,
}

impl<K, V> View for MyHashMap<K, V> where K: Display + PartialEq + Clone, V: Clone {
    type V = HashTable<K, V>;

    closed spec fn view(&self) -> HashTable<K, V> {
        HashTable {
            size: self.size as int,
            capacity: self.capacity as int,
            buckets: Seq::new(self.map@.len(), |i: int| self.map@[i]@),
        }
    }
}

impl<K, V> MyHashMap<K, V> where K: Display + PartialEq + Clone, V: Clone {
    /// The invariant that every operation keeps.
    pub open spec fn wf(&self) -> bool {
        self@.wf()
    }

    /// A map with no entries.
    pub fn new() -> (m: MyHashMap<K, V>)
        ensures
            m@ == HashTable::<K, V>::fresh(),
            m.wf(),
    {
        let mut map: Vec<Vec<(K, V)>> = Vec::new();
        let mut i: usize = 0;
        while i < INITIAL_CAPACITY
            invariant
                i <= INITIAL_CAPACITY,
                map@.len() == i,
                forall|j: int| 0 <= j < i ==> (#[trigger] map@[j])@ == Seq::<(K, V)>::empty(),
            decreases INITIAL_CAPACITY - i,
        {
            map.push(Vec::new());
            i += 1;
        }
        let m = MyHashMap { size: 0, capacity: INITIAL_CAPACITY, map };
        proof {
            assert(m@.buckets =~= HashTable::<K, V>::fresh().buckets);
            lemma_empty_buckets_hold_nothing::<K, V>(INITIAL_CAPACITY as nat);
        }
        m
    }

    /// The bucket of a key that is displayed as `string`.
    pub fn hashcode(&self, string: &str) -> (index: usize)
        requires
            self.wf(),
        ensures
            index == bucket_of(string@, self@.capacity),
            index < self@.capacity,
    {
        let bytes = string.as_bytes();
        let mut sum: usize = 0;
        let mut i: usize = 0;
        while i < bytes.len()
            invariant
                i <= bytes@.len(),
                sum == hash_of(bytes@.take(i as int)),
            decreases bytes@.len() - i,
        {
            proof {
                lemma_hash_step(sum, bytes@[i as int]);
                assert(bytes@.take(i + 1).drop_last() =~= bytes@.take(i as int));
            }
            sum = sum.wrapping_mul(31).wrapping_add(bytes[i] as usize);
            i += 1;
        }
        proof {
            assert(bytes@.take(bytes@.len() as int) =~= bytes@);
            lemma_mod_bound(sum as int, self.capacity as int);
        }
        sum % self.capacity
    }

    /// Stores `value` under `key` in bucket `index`: in the first entry of the
    /// bucket whose key equals `key`, or else in a new entry at its end. When
    /// the new entry makes the entries fill more than three quarters of the
    /// buckets, the number of buckets is doubled.
    pub fn insert_at(&mut self, index: usize, key: K, value: V)
        requires
            old(self).wf(),
            index < old(self)@.capacity,
        ensures
            final(self).wf(),
            exists|slot: Option<int>|
                {
                    &&& #[trigger] old(self)@.finds(index as int, key, slot)
                    &&& final(self)@ == old(self)@.put(index as int, slot, key, value)
                },
    {
        let ghost before = self@;
        let ghost bucket = before.buckets[index as int];
        let len = self.map[index].len();
        let mut j: usize = 0;
        while j < len
            invariant
                j <= len,
                len == bucket.len(),
                index < before.capacity,
                self@ == before,
                before == old(self)@,
                before.wf(),
                bucket == before.buckets[index as int],
                K::obeys_eq_spec() ==> HashTable::first_match(bucket, key, 0)
                    == HashTable::first_match(bucket, key, j as int),
            decreases len - j,
        {
            if self.map[index][j].0 == key {
                self.map[index][j].1 = value;
                proof {
                    let slot = Some(j as int);
                    let entry = (bucket[j as int].0, value);
                    assert(before.finds(index as int, key, slot));
                    assert(self@.buckets =~= before.buckets.update(
                        index as int,
                        bucket.update(j as int, entry),
                    ));
                    lemma_entries_update(
                        before.buckets,
                        index as int,
                        bucket.update(j as int, entry),
                    );
                    assert(self@ == before.put(index as int, slot, key, value));
                }
                return;
            }
            j += 1;
        }
        let ghost added = before.buckets.update(index as int, bucket.push((key, value)));
        proof {
            assert(before.finds(index as int, key, None));
            lemma_entries_update(before.buckets, index as int, bucket.push((key, value)));
        }
        self.map[index].push((key, value));
        self.size += 1;
        assert(self@.buckets =~= added);
        if (self.size as u128) * 4 > (self.capacity as u128) * 3 {
            let mut i: usize = 0;
            while i < self.capacity
                invariant
                    i <= self.capacity,
                    self.capacity == before.capacity,
                    self.size == before.size + 1,
                    self@.buckets == added + Seq::new(i as nat, |k: int| Seq::<(K, V)>::empty()),
                decreases self.capacity - i,
            {
                let ghost shorter = self@.buckets;
                self.map.push(Vec::new());
                assert(self@.buckets =~= shorter.push(Seq::empty()));
                assert(shorter.push(Seq::empty()) =~= added + Seq::new(
                    (i + 1) as nat,
                    |k: int| Seq::<(K, V)>::empty(),
                ));
                i += 1;
            }
            let doubled = self.map.len();
            self.capacity = doubled;
            proof {
                lemma_entries_append_empty(added, before.capacity as nat);
            }
        }
    }

    /// Stores `value` under `key`, in the bucket that the text of `key` hashes
    /// to.
    pub fn insert(&mut self, key: K, value: V)
        requires
            old(self).wf(),
        ensures
            final(self).wf(),
            exists|text: String, slot: Option<int>|
                {
                    &&& to_string_from_display_ensures::<K>(&key, text)
                    &&& #[trigger] old(self)@.finds(
                        bucket_of(text@, old(self)@.capacity),
                        key,
                        slot,
                    )
                    &&& final(self)@ == old(self)@.put(
                        bucket_of(text@, old(self)@.capacity),
                        slot,
                        key,
                        value,
                    )
                },
    {
        let text = key.to_string();
        let hashcode = self.hashcode(text.as_str());
        self.insert_at(hashcode, key, value);
    }

    /// A walk over all entries, bucket by bucket, each bucket in the order its
    /// entries were added.
    pub fn iter(&self) -> (it: MyHashMapIterator<'_, K, V>)
        ensures
            it.wf(),
            it@.position == 0,
            it@.items == self@.entries(),
    {
        let mut elems: Vec<(&K, &V)> = Vec::new();
        let ghost buckets = self@.buckets;
        let mut i: usize = 0;
        while i < self.map.len()
            invariant
                i <= self.map.len(),
                buckets == self@.buckets,
                items_of(elems@) == buckets.take(i as int).flatten_alt(),
            decreases self.map.len() - i,
        {
            let list = &self.map[i];
            let ghost done = items_of(elems@);
            let mut j: usize = 0;
            while j < list.len()
                invariant
                    j <= list.len(),
                    list@ == buckets[i as int],
                    items_of(elems@) == done + list@.take(j as int),
                decreases list.len() - j,
            {
                let elem = &list[j];
                let ghost shorter = items_of(elems@);
                elems.push((&elem.0, &elem.1));
                assert(items_of(elems@) =~= shorter.push(list@[j as int]));
                assert(shorter.push(list@[j as int]) =~= done + list@.take(j + 1));
                j += 1;
            }
            proof {
                assert(list@.take(list@.len() as int) =~= list@);
                assert(buckets.take(i + 1).drop_last() =~= buckets.take(i as int));
            }
            i += 1;
        }
        assert(buckets.take(buckets.len() as int) =~= buckets);
        MyHashMapIterator { current: 0, len: elems.len(), data: elems }
    }
}

/// The entries that a sequence of borrowed entries stands for.
pub open spec fn items_of<K, V>(data: Seq<(&K, &V)>) -> Seq<(K, V)> {
    Seq::new(data.len(), |i: int| (*data[i].0, *data[i].1))
}

/// The mathematical model of a walk: the entries to visit, and how many were
/// visited.
pub struct Walk<K, V> {
    /// The entries, in the order they are visited.
    pub items: Seq<(K, V)>,
    /// The number of entries visited so far.
    pub position: int,
}

/// A walk over the entries that a map held when the walk began.
pub struct MyHashMapIterator<'a, K, V> {
    current: usize,
    len: usize,
    data: Vec<(&'a K, &'a V)>,
}

impl<'a, K, V> View for MyHashMapIterator<'a, K, V> {
    type V = Walk<K, V>;

    closed spec fn view(&self) -> Walk<K, V> {
        Walk { items: items_of(self.data@), position: self.current as int }
    }
}

impl<'a, K, V> MyHashMapIterator<'a, K, V> {
    /// The invariant of the walk: it has visited no more entries than there
    /// are.
    pub closed spec fn wf(&self) -> bool {
        &&& self.len == self.data@.len()
        &&& self.current <= self.len
    }

    /// The next entry, or `None` once all were visited.
    pub fn next(&mut self) -> (r: Option<(&'a K, &'a V)>)
        requires
            old(self).wf(),
        ensures
            final(self).wf(),
            final(self)@.items == old(self)@.items,
            match r {
                Some(entry) => {
                    &&& old(self)@.position < old(self)@.items.len()
                    &&& (*entry.0, *entry.1) == old(self)@.items[old(self)@.position]
                    &&& final(self)@.position == old(self)@.position + 1
                },
                None => {
                    &&& old(self)@.position == old(self)@.items.len()
                    &&& final(self)@.position == old(self)@.position
                },
            },
    {
        if self.current == self.len {
            None
        } else {
            self.current += 1;
            Some(self.data[self.current - 1])
        }
    }
}

/// One step of the hash in wrapping arithmetic is the step modulo
/// `usize::MAX + 1`.
proof fn lemma_hash_step(sum: usize, byte: u8)
    ensures
        usize_specs::wrapping_add(usize_specs::wrapping_mul(sum, 31), byte as usize) == (sum * 31
            + byte) % (usize::MAX + 1),
{
    let range = usize::MAX + 1;
    let product = (sum * 31) % range;
    lemma_mod_bound(sum * 31, range);
    lemma_add_mod_noop(sum * 31, byte as int, range);
    lemma_small_mod(byte as nat, range as nat);
    if product + byte < range {
        lemma_small_mod((product + byte) as nat, range as nat);
    } else {
        lemma_mod_add_multiples_vanish(product + byte - range, range);
        lemma_small_mod((product + byte - range) as nat, range as nat);
    }
}

/// Exchanging a bucket exchanges its entries in the count of all entries.
proof fn lemma_entries_update<A>(buckets: Seq<Seq<A>>, i: int, bucket: Seq<A>)
    requires
        0 <= i < buckets.len(),
    ensures
        buckets.update(i, bucket).flatten_alt().len() == buckets.flatten_alt().len()
            - buckets[i].len() + bucket.len(),
    decreases buckets.len(),
{
    if i == buckets.len() - 1 {
        assert(buckets.update(i, bucket).drop_last() =~= buckets.drop_last());
    } else {
        assert(buckets.update(i, bucket).drop_last() =~= buckets.drop_last().update(i, bucket));
        lemma_entries_update(buckets.drop_last(), i, bucket);
    }
}

/// Empty buckets added behind the others add no entry.
proof fn lemma_entries_append_empty<A>(buckets: Seq<Seq<A>>, n: nat)
    ensures
        (buckets + Seq::new(n, |k: int| Seq::<A>::empty())).flatten_alt() =~= buckets.flatten_alt(),
    decreases n,
{
    let longer = buckets + Seq::new(n, |k: int| Seq::<A>::empty());
    if n == 0 {
        assert(longer =~= buckets);
    } else {
        lemma_entries_append_empty(buckets, (n - 1) as nat);
        assert(longer.drop_last() =~= buckets + Seq::new(
            (n - 1) as nat,
            |k: int| Seq::<A>::empty(),
        ));
    }
}

/// Buckets that are all empty hold no entry.
proof fn lemma_empty_buckets_hold_nothing<K, V>(n: nat)
    ensures
        Seq::new(n, |i: int| Seq::<(K, V)>::empty()).flatten_alt() =~= Seq::<(K, V)>::empty(),
    decreases n,
{
    let buckets = Seq::new(n, |i: int| Seq::<(K, V)>::empty());
    if n > 0 {
        lemma_empty_buckets_hold_nothing::<K, V>((n - 1) as nat);
        assert(buckets.drop_last() =~= Seq::new((n - 1) as nat, |i: int| Seq::<(K, V)>::empty()));
    }
}

} // verus!

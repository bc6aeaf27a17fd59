use std::collections::HashMap;
use vstd::prelude::*;

verus! {

broadcast use vstd::std_specs::hash::group_hash_axioms;

/// The identifiers of a sequence of entries, in order.
pub open spec fn entry_ids<V>(s: Seq<(String, V)>) -> Seq<Seq<char>> {
    s.map_values(|e: (String, V)| e.0@)
}

/// A map from identifiers to values, where each identifier occurs once. The
/// entries are found by a hash of their identifiers.
#[derive(Debug)]
pub struct IdMap<V> {
    entries: Vec<(String, V)>,
    index: HashMap<u64, Vec<usize>>,
}

/// The modulus of the identifiers' hash (2^58, so that `h * 31 + c` fits in a `u64`).
pub const HASH_MODULUS: u64 = 0x0400_0000_0000_0000;

/// A polynomial hash of an identifier's characters.
pub open spec fn id_hash(s: Seq<char>) -> u64
    decreases s.len(),
{
    if s.len() == 0 {
        0
    } else {
        ((id_hash(s.drop_last()) as int * 31 + s.last() as u32 as int) % HASH_MODULUS as int) as u64
    }
}

/// The hash of `key`'s identifier.
fn hash_of(key: &str) -> (h: u64)
    ensures
        h == id_hash(key@),
{
    let chars = crate::text::chars_of(key);
    let n = chars.len();
    let mut h: u64 = 0;
    for i in 0..n
        invariant
            n == chars@.len(),
            chars@ == key@,
            h == id_hash(chars@.take(i as int)),
            h < HASH_MODULUS,
    {
        let c = chars[i];
        proof {
            assert(chars@.take(i + 1).drop_last() =~= chars@.take(i as int));
            assert(chars@.take(i + 1).last() == c);
        }
        h = (h * 31 + c as u32 as u64) % HASH_MODULUS;
    }
    assert(chars@.take(n as int) =~= chars@);
    h
}

/// Every entry is listed, by its position, under the hash of its identifier,
/// and every listed position holds an entry with that hash.
spec fn positions_indexed<V>(s: Seq<(String, V)>, index: Map<u64, Vec<usize>>) -> bool {
    &&& forall|i: int|
        0 <= i < s.len() ==> index.contains_key(id_hash(#[trigger] s[i].0@)) && index[id_hash(
            s[i].0@,
        )]@.contains(i as usize)
    &&& forall|g: u64, j: int|
        index.contains_key(g) && 0 <= j < index[g]@.len() ==> (#[trigger] index[g]@[j]) < s.len()
            && id_hash(s[index[g]@[j] as int].0@) == g
}

/// The map that a sequence of entries with distinct identifiers stands for.
pub open spec fn entries_map<V>(s: Seq<(String, V)>) -> Map<Seq<char>, V> {
    Map::new(
        |k: Seq<char>| entry_ids(s).contains(k),
        |k: Seq<char>| value_for(s, k),
    )
}

/// The value of the entry with identifier `k`.
pub open spec fn value_for<V>(s: Seq<(String, V)>, k: Seq<char>) -> V {
    s[index_for(s, k)].1
}

/// The position of an entry with identifier `k`.
pub open spec fn index_for<V>(s: Seq<(String, V)>, k: Seq<char>) -> int {
    choose|i: int| 0 <= i < s.len() && #[trigger] s[i].0@ == k
}

proof fn lemma_value_at<V>(s: Seq<(String, V)>, i: int)
    requires
        entry_ids(s).no_duplicates(),
        0 <= i < s.len(),
    ensures
        entries_map(s).contains_key(s[i].0@),
        entries_map(s)[s[i].0@] == s[i].1,
{
    let k = s[i].0@;
    assert(entry_ids(s)[i] == k);
    assert(entries_map(s).contains_key(k));
    assert(s[i].0@ == k);
    let j = index_for(s, k);
    assert(entry_ids(s)[j] == k);
    assert(j == i);
}

proof fn lemma_absent<V>(s: Seq<(String, V)>, k: Seq<char>)
    requires
        forall|i: int| 0 <= i < s.len() ==> #[trigger] s[i].0@ != k,
    ensures
        !entries_map(s).contains_key(k),
{
    if entry_ids(s).contains(k) {
        let i = choose|i: int| 0 <= i < entry_ids(s).len() && entry_ids(s)[i] == k;
        assert(s[i].0@ == k);
    }
}

proof fn lemma_index_of<V>(s: Seq<(String, V)>, k: Seq<char>) -> (i: int)
    requires
        entries_map(s).contains_key(k),
    ensures
        0 <= i < s.len(),
        s[i].0@ == k,
{
    let i = choose|i: int| 0 <= i < entry_ids(s).len() && entry_ids(s)[i] == k;
    assert(s[i].0@ == k);
    i
}

proof fn lemma_set_entry<V>(old_s: Seq<(String, V)>, new_s: Seq<(String, V)>, i: int, v: V)
    requires
        entry_ids(old_s).no_duplicates(),
        0 <= i < old_s.len(),
        new_s.len() == old_s.len(),
        new_s[i].0@ == old_s[i].0@,
        new_s[i].1 == v,
        forall|j: int| 0 <= j < old_s.len() && j != i ==> new_s[j] == old_s[j],
    ensures
        entry_ids(new_s).no_duplicates(),
        entries_map(new_s) == entries_map(old_s).insert(old_s[i].0@, v),
{
    let k = old_s[i].0@;
    assert(entry_ids(new_s) =~= entry_ids(old_s));
    let new_map = entries_map(new_s);
    let want = entries_map(old_s).insert(k, v);
    assert forall|x: Seq<char>| #[trigger] new_map.contains_key(x) == want.contains_key(x) by {
        if new_map.contains_key(x) {
            let j = lemma_index_of(new_s, x);
            if x != k {
                lemma_value_at(old_s, j);
            }
        }
        if x != k && entries_map(old_s).contains_key(x) {
            let j = lemma_index_of(old_s, x);
            lemma_value_at(new_s, j);
        }
        if x == k {
            lemma_value_at(new_s, i);
        }
    }
    assert forall|x: Seq<char>| new_map.contains_key(x) implies #[trigger] new_map[x] == want[x] by {
        let j = lemma_index_of(new_s, x);
        lemma_value_at(new_s, j);
        if x != k {
            lemma_value_at(old_s, j);
        } else {
            lemma_value_at(new_s, i);
        }
    }
    assert(new_map =~= want);
}

proof fn lemma_push_entry<V>(old_s: Seq<(String, V)>, e: (String, V))
    requires
        entry_ids(old_s).no_duplicates(),
        !entries_map(old_s).contains_key(e.0@),
    ensures
        entry_ids(old_s.push(e)).no_duplicates(),
        entries_map(old_s.push(e)) == entries_map(old_s).insert(e.0@, e.1),
{
    let new_s = old_s.push(e);
    let k = e.0@;
    let n = old_s.len() as int;
    assert(entry_ids(new_s) =~= entry_ids(old_s).push(k));
    assert(!entry_ids(old_s).contains(k));
    let new_map = entries_map(new_s);
    let want = entries_map(old_s).insert(k, e.1);
    assert forall|x: Seq<char>| #[trigger] new_map.contains_key(x) == want.contains_key(x) by {
        if new_map.contains_key(x) {
            let j = lemma_index_of(new_s, x);
            if x != k {
                assert(j < n);
                assert(old_s[j] == new_s[j]);
                lemma_value_at(old_s, j);
            }
        }
        if x != k && entries_map(old_s).contains_key(x) {
            let j = lemma_index_of(old_s, x);
            assert(old_s[j] == new_s[j]);
            lemma_value_at(new_s, j);
        }
        if x == k {
            lemma_value_at(new_s, n);
        }
    }
    assert forall|x: Seq<char>| new_map.contains_key(x) implies #[trigger] new_map[x] == want[x] by {
        let j = lemma_index_of(new_s, x);
        lemma_value_at(new_s, j);
        if x != k {
            assert(j < n);
            assert(old_s[j] == new_s[j]);
            lemma_value_at(old_s, j);
        } else {
            lemma_value_at(new_s, n);
        }
    }
    assert(new_map =~= want);
}

proof fn lemma_swap_remove_entry<V>(old_s: Seq<(String, V)>, new_s: Seq<(String, V)>, i: int)
    requires
        entry_ids(old_s).no_duplicates(),
        0 <= i < old_s.len(),
        new_s == old_s.update(i, old_s.last()).drop_last(),
    ensures
        entry_ids(new_s).no_duplicates(),
        entries_map(new_s) == entries_map(old_s).remove(old_s[i].0@),
{
    let n = old_s.len() as int;
    let k = old_s[i].0@;
    let ids = entry_ids(old_s);
    let new_ids = entry_ids(new_s);
    assert forall|a: int, b: int| 0 <= a < new_ids.len() && 0 <= b < new_ids.len() && a != b implies new_ids[a] != new_ids[b] by {
        let pa = if a == i { n - 1 } else { a };
        let pb = if b == i { n - 1 } else { b };
        assert(new_ids[a] == ids[pa]);
        assert(new_ids[b] == ids[pb]);
    }
    assert forall|a: int| 0 <= a < new_ids.len() implies #[trigger] new_ids[a] != k by {
        let pa = if a == i { n - 1 } else { a };
        assert(new_ids[a] == ids[pa]);
        assert(ids[i] == k);
    }
    let new_map = entries_map(new_s);
    let want = entries_map(old_s).remove(k);
    assert forall|x: Seq<char>| #[trigger] new_map.contains_key(x) == want.contains_key(x) by {
        if new_map.contains_key(x) {
            let j = lemma_index_of(new_s, x);
            let pj = if j == i { n - 1 } else { j };
            assert(new_ids[j] == ids[pj]);
            lemma_value_at(old_s, pj);
        }
        if want.contains_key(x) {
            let j = lemma_index_of(old_s, x);
            assert(j != i);
            let q = if j == n - 1 { i } else { j };
            assert(new_ids[q] == ids[j]);
            lemma_value_at(new_s, q);
        }
    }
    assert forall|x: Seq<char>| new_map.contains_key(x) implies #[trigger] new_map[x] == want[x] by {
        let j = lemma_index_of(new_s, x);
        lemma_value_at(new_s, j);
        let pj = if j == i { n - 1 } else { j };
        assert(new_ids[j] == ids[pj]);
        lemma_value_at(old_s, pj);
    }
    assert(new_map =~= want);
}

/// `bucket` with every `from` left out, and replaced by `to` where there is one.
fn retarget_bucket(bucket: &Vec<usize>, from: usize, to: Option<usize>) -> (r: Vec<usize>)
    ensures
        forall|x: usize| #[trigger] r@.contains(x) <==> ((bucket@.contains(x) && x != from) || (to
            == Some(x) && bucket@.contains(from))),
{
    let mut r: Vec<usize> = Vec::new();
    let n = bucket.len();
    for q in 0..n
        invariant
            n == bucket@.len(),
            forall|x: usize| #[trigger] r@.contains(x) <==> ((bucket@.take(q as int).contains(x) && x
                != from) || (to == Some(x) && bucket@.take(q as int).contains(from))),
    {
        let ghost before = r@;
        let x = bucket[q];
        if x == from {
            match to {
                Some(t) => r.push(t),
                None => {},
            }
        } else {
            r.push(x);
        }
        proof {
            broadcast use vstd::seq_lib::group_seq_properties;

            assert(bucket@.take(q + 1) =~= bucket@.take(q as int).push(x));
            if x == from {
                if to is Some {
                    assert(r@ =~= before.push(to->0));
                } else {
                    assert(r@ =~= before);
                }
            } else {
                assert(r@ =~= before.push(x));
            }
        }
    }
    assert(bucket@.take(n as int) =~= bucket@);
    r
}

/// Applies `retarget_bucket` to the bucket of hash `h`, where there is one.
fn retarget(index: &mut HashMap<u64, Vec<usize>>, h: u64, from: usize, to: Option<usize>)
    ensures
        final(index)@.dom() == old(index)@.dom(),
        forall|g: u64| #[trigger] final(index)@.contains_key(g) && g != h ==> final(index)@[g] == old(index)@[g],
        old(index)@.contains_key(h) ==> forall|x: usize| #[trigger] final(index)@[h]@.contains(x) <==> ((
            old(index)@[h]@.contains(x) && x != from) || (to == Some(x) && old(index)@[h]@.contains(
            from))),
{
    match index.remove(&h) {
        None => {
            assert(index@ =~= old(index)@);
        },
        Some(bucket) => {
            let nb = retarget_bucket(&bucket, from, to);
            index.insert(h, nb);
            assert(index@.dom() =~= old(index)@.dom());
        },
    }
}

impl<V> View for IdMap<V> {
    type V = Map<Seq<char>, V>;

    closed spec fn view(&self) -> Map<Seq<char>, V> {
        entries_map(self.entries@)
    }
}

impl<V> Default for IdMap<V> {
    fn default() -> (r: IdMap<V>)
        ensures
            r@ == Map::<Seq<char>, V>::empty(),
    {
        IdMap::new()
    }
}

impl<V> IdMap<V> {
    #[verifier::type_invariant]
    spec fn well_formed(self) -> bool {
        &&& entry_ids(self.entries@).no_duplicates()
        &&& positions_indexed(self.entries@, self.index@)
    }

    /// An empty map.
    pub fn new() -> (r: IdMap<V>)
        ensures
            r@ == Map::<Seq<char>, V>::empty(),
    {
        let r = IdMap { entries: Vec::new(), index: HashMap::new() };
        assert(r@ =~= Map::<Seq<char>, V>::empty());
        r
    }

    /// The number of identifiers in the map.
    pub fn len(&self) -> (r: usize)
        ensures
            r == self@.len(),
    {
        proof {
            use_type_invariant(self);
            let ids = entry_ids(self.entries@);
            ids.unique_seq_to_set();
            assert(self@.dom() =~= ids.to_set());
        }
        self.entries.len()
    }

    /// The entries of the map, one per identifier, in no particular order.
    pub fn entries(&self) -> (r: &[(String, V)])
        ensures
            entries_map(r@) == self@,
            entry_ids(r@).no_duplicates(),
    {
        proof {
            use_type_invariant(self);
        }
        self.entries.as_slice()
    }

    /// Whether no identifier is in the map.
    pub fn is_empty(&self) -> (r: bool)
        ensures
            r == (self@.len() == 0),
    {
        self.len() == 0
    }

    /// The position of the entry for `key`, looked up by the hash of `key`.
    fn find(&self, key: &String) -> (r: Option<usize>)
        ensures
            match r {
                Some(i) => i < self.entries@.len() && self.entries@[i as int].0@ == key@,
                None => !self@.contains_key(key@),
            },
    {
        proof {
            use_type_invariant(self);
        }
        let h = hash_of(key.as_str());
        let total = self.entries.len();
        match self.index.get(&h) {
            None => {
                proof {
                    assert forall|i: int| 0 <= i < self.entries@.len() implies #[trigger] self.entries@[i].0@ != key@ by {
                        if self.entries@[i].0@ == key@ {
                            assert(self.index@.contains_key(id_hash(self.entries@[i].0@)));
                        }
                    }
                    lemma_absent(self.entries@, key@);
                }
                None
            },
            Some(bucket) => {
                let n = bucket.len();
                for q in 0..n
                    invariant
                        n == bucket@.len(),
                        self.index@.contains_key(h),
                        *bucket == self.index@[h],
                        positions_indexed(self.entries@, self.index@),
                        h == id_hash(key@),
                        total == self.entries@.len(),
                        forall|w: int| 0 <= w < q ==> self.entries@[#[trigger] bucket@[w] as int].0@ != key@,
                {
                    let pos = bucket[q];
                    assert(pos < self.entries@.len());
                    if self.entries[pos].0 == *key {
                        return Some(pos);
                    }
                }
                proof {
                    assert forall|i: int| 0 <= i < self.entries@.len() implies #[trigger] self.entries@[i].0@ != key@ by {
                        if self.entries@[i].0@ == key@ {
                            let p = i as usize;
                            assert(self.index@[h]@.contains(p));
                            let w = choose|w: int| 0 <= w < bucket@.len() && bucket@[w] == p;
                            assert(bucket@[w] as int == i);
                            assert(self.entries@[bucket@[w] as int].0@ != key@);
                        }
                    }
                    lemma_absent(self.entries@, key@);
                }
                None
            },
        }
    }

    /// Whether `key` is in the map.
    pub fn contains_key(&self, key: &str) -> (r: bool)
        ensures
            r == self@.contains_key(key@),
    {
        proof {
            use_type_invariant(self);
        }
        let k = key.to_owned();
        match self.find(&k) {
            Some(i) => {
                proof {
                    lemma_value_at(self.entries@, i as int);
                }
                true
            },
            None => false,
        }
    }

    /// The value for `key`, if the map holds one.
    pub fn get(&self, key: &str) -> (r: Option<&V>)
        ensures
            match r {
                Some(v) => self@.contains_key(key@) && *v == self@[key@],
                None => !self@.contains_key(key@),
            },
    {
        proof {
            use_type_invariant(self);
        }
        let k = key.to_owned();
        match self.find(&k) {
            Some(i) => {
                proof {
                    lemma_value_at(self.entries@, i as int);
                }
                Some(&self.entries[i].1)
            },
            None => None,
        }
    }

    /// Maps `key` to `value`, replacing the value it had.
    pub fn insert(&mut self, key: String, value: V)
        ensures
            final(self)@ == old(self)@.insert(key@, value),
    {
        proof {
            use_type_invariant(&*self);
        }
        let found = self.find(&key);
        let mut taken = IdMap::new();
        std::mem::swap(&mut taken, self);
        proof {
            use_type_invariant(&taken);
        }
        let ghost old_entries = taken.entries@;
        let ghost old_index = taken.index@;
        let ghost k = key@;
        let IdMap { mut entries, mut index } = taken;
        match found {
            Some(i) => {
                entries.set(i, (key, value));
                proof {
                    lemma_set_entry(old_entries, entries@, i as int, value);
                    assert forall|j: int| 0 <= j < entries@.len() implies index@.contains_key(id_hash(#[trigger] entries@[j].0@))
                        && index@[id_hash(entries@[j].0@)]@.contains(j as usize) by {
                        assert(entries@[j].0@ == old_entries[j].0@);
                    }
                    assert forall|g: u64, j: int| index@.contains_key(g) && 0 <= j < index@[g]@.len()
                        implies (#[trigger] index@[g]@[j]) < entries@.len() && id_hash(entries@[index@[g]@[j] as int].0@) == g by {
                        assert(entries@[index@[g]@[j] as int].0@ == old_entries[index@[g]@[j] as int].0@);
                    }
                }
                *self = IdMap { entries, index };
            },
            None => {
                let h = hash_of(key.as_str());
                let pos = entries.len();
                entries.push((key, value));
                let bucket = match index.remove(&h) {
                    Some(mut b) => {
                        b.push(pos);
                        b
                    },
                    None => {
                        let mut b: Vec<usize> = Vec::new();
                        b.push(pos);
                        b
                    },
                };
                let ghost nb = bucket@;
                index.insert(h, bucket);
                proof {
                    lemma_push_entry(old_entries, (key, value));
                    assert(entries@ == old_entries.push((key, value)));
                    assert(nb.contains(pos)) by {
                        assert(nb[nb.len() - 1] == pos);
                    }
                    assert forall|j: int| 0 <= j < entries@.len() implies index@.contains_key(id_hash(#[trigger] entries@[j].0@))
                        && index@[id_hash(entries@[j].0@)]@.contains(j as usize) by {
                        if j < pos {
                            assert(entries@[j] == old_entries[j]);
                            let g = id_hash(old_entries[j].0@);
                            assert(old_index.contains_key(g) && old_index[g]@.contains(j as usize));
                            if g == h {
                                let w = choose|w: int| 0 <= w < old_index[g]@.len() && old_index[g]@[w] == j as usize;
                                assert(nb[w] == j as usize);
                            }
                        }
                    }
                    assert forall|g: u64, j: int| index@.contains_key(g) && 0 <= j < index@[g]@.len()
                        implies (#[trigger] index@[g]@[j]) < entries@.len() && id_hash(entries@[index@[g]@[j] as int].0@) == g by {
                        if g == h {
                            if j < nb.len() - 1 {
                                assert(nb[j] == old_index[g]@[j]);
                                assert(entries@[nb[j] as int] == old_entries[nb[j] as int]);
                            }
                        } else {
                            assert(index@[g] == old_index[g]);
                            assert(entries@[index@[g]@[j] as int] == old_entries[index@[g]@[j] as int]);
                        }
                    }
                }
                *self = IdMap { entries, index };
            },
        }
    }

    /// Takes the value for `key` out of the map.
    pub fn remove(&mut self, key: &str) -> (r: Option<V>)
        ensures
            final(self)@ == old(self)@.remove(key@),
            match r {
                Some(v) => old(self)@.contains_key(key@) && v == old(self)@[key@],
                None => !old(self)@.contains_key(key@),
            },
    {
        proof {
            use_type_invariant(&*self);
        }
        let owned = key.to_owned();
        let found = self.find(&owned);
        match found {
            None => {
                assert(self@ =~= self@.remove(key@));
                None
            },
            Some(i) => {
                proof {
                    lemma_value_at(self.entries@, i as int);
                }
                let mut taken = IdMap::new();
                std::mem::swap(&mut taken, self);
                proof {
                    use_type_invariant(&taken);
                }
                let ghost old_entries = taken.entries@;
                let ghost old_index = taken.index@;
                let IdMap { mut entries, mut index } = taken;
                let h = hash_of(key);
                let last = entries.len() - 1;
                let (_, v) = entries.swap_remove(i);
                proof {
                    lemma_swap_remove_entry(old_entries, entries@, i as int);
                }
                retarget(&mut index, h, i, None);
                let ghost mid_index = index@;
                if i < last {
                    let h2 = hash_of(entries[i].0.as_str());
                    retarget(&mut index, h2, last, Some(i));
                }
                proof {
                    let n = old_entries.len() as int;
                    assert(id_hash(old_entries[i as int].0@) == h);
                    // A position lies only in the bucket of its entry's hash.
                    assert forall|g: u64, x: usize| old_index.contains_key(g) && #[trigger] old_index[g]@.contains(x)
                        implies x < n && id_hash(old_entries[x as int].0@) == g by {
                        let w = choose|w: int| 0 <= w < old_index[g]@.len() && old_index[g]@[w] == x;
                    }
                    assert forall|j: int| 0 <= j < entries@.len() implies index@.contains_key(id_hash(#[trigger] entries@[j].0@))
                        && index@[id_hash(entries@[j].0@)]@.contains(j as usize) by {
                        if j != i {
                            assert(entries@[j] == old_entries[j]);
                            let g = id_hash(old_entries[j].0@);
                            assert(old_index[g]@.contains(j as usize));
                            assert(mid_index[g]@.contains(j as usize));
                        } else {
                            assert(entries@[j] == old_entries[n - 1]);
                            let g = id_hash(old_entries[n - 1].0@);
                            assert(old_index[g]@.contains((n - 1) as usize));
                            assert(mid_index[g]@.contains((n - 1) as usize));
                        }
                    }
                    assert forall|g: u64, j: int| index@.contains_key(g) && 0 <= j < index@[g]@.len()
                        implies (#[trigger] index@[g]@[j]) < entries@.len() && id_hash(entries@[index@[g]@[j] as int].0@) == g by {
                        let x = index@[g]@[j];
                        assert(index@[g]@.contains(x));
                        if i < last && g == id_hash(old_entries[n - 1].0@) && x == i {
                            assert(entries@[i as int] == old_entries[n - 1]);
                        } else {
                            assert(mid_index[g]@.contains(x));
                            assert(old_index[g]@.contains(x));
                            assert(x != i);
                            assert(x as int != n - 1);
                            assert(entries@[x as int] == old_entries[x as int]);
                        }
                    }
                }
                *self = IdMap { entries, index };
                Some(v)
            },
        }
    }
}

} // verus!

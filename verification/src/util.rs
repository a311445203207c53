use vstd::prelude::*;

verus! {

/// A copy of a vector of copyable items.
pub fn copy_vec<T: Copy>(v: &Vec<T>) -> (r: Vec<T>)
    ensures
        r@ == v@,
{
    let mut r: Vec<T> = Vec::new();
    let mut i: usize = 0;
    while i < v.len()
        invariant
            i <= v@.len(),
            r@ == v@.subrange(0, i as int),
        decreases v@.len() - i,
    {
        r.push(v[i]);
        proof {
            assert(v@.subrange(0, i + 1) =~= v@.subrange(0, i as int).push(v@[i as int]));
        }
        i = i + 1;
    }
    assert(v@.subrange(0, v@.len() as int) =~= v@);
    r
}


/// Inserts `e` into a list ordered by id: before the first entry with a
/// larger id, in place of an entry with the same id.
pub open spec fn sorted_insert<V>(l: Seq<(usize, V)>, e: (usize, V)) -> Seq<(usize, V)>
    decreases l.len(),
{
    if l.len() == 0 {
        seq![e]
    } else if e.0 < l[0].0 {
        seq![e] + l
    } else if e.0 == l[0].0 {
        seq![e] + l.drop_first()
    } else {
        seq![l[0]] + sorted_insert(l.drop_first(), e)
    }
}

/// The pairs ordered by id, the last pair of each id winning: the order in
/// which a `BTreeMap` filled with them hands them out.
pub open spec fn insert_all<V>(pairs: Seq<(usize, V)>) -> Seq<(usize, V)>
    decreases pairs.len(),
{
    if pairs.len() == 0 {
        Seq::empty()
    } else {
        sorted_insert(insert_all(pairs.drop_last()), pairs.last())
    }
}

/// Where `sorted_insert` puts `e`: after the first `i` entries, which have
/// smaller ids.
proof fn lemma_sorted_insert_at<V>(l: Seq<(usize, V)>, e: (usize, V), i: int)
    requires
        0 <= i <= l.len(),
        forall|j: int| 0 <= j < i ==> l[j].0 < e.0,
        i < l.len() ==> l[i].0 >= e.0,
    ensures
        sorted_insert(l, e) == if i < l.len() && l[i].0 == e.0 {
            l.subrange(0, i) + seq![e] + l.subrange(i + 1, l.len() as int)
        } else {
            l.subrange(0, i) + seq![e] + l.subrange(i, l.len() as int)
        },
    decreases i,
{
    if i == 0 {
        if l.len() == 0 {
            assert(l.subrange(0, 0) + seq![e] + l.subrange(0, 0) =~= seq![e]);
        } else if e.0 < l[0].0 {
            assert(l.subrange(0, 0) + seq![e] + l.subrange(0, l.len() as int) =~= seq![e] + l);
        } else {
            assert(l.subrange(0, 0) + seq![e] + l.subrange(1, l.len() as int) =~= seq![e] + l.drop_first());
        }
    } else {
        let rest = l.drop_first();
        assert forall|j: int| 0 <= j < i - 1 implies rest[j].0 < e.0 by {
            assert(rest[j] == l[j + 1]);
        }
        lemma_sorted_insert_at(rest, e, i - 1);
        if i < l.len() && l[i].0 == e.0 {
            assert(seq![l[0]] + (rest.subrange(0, i - 1) + seq![e] + rest.subrange(i, rest.len() as int))
                =~= l.subrange(0, i) + seq![e] + l.subrange(i + 1, l.len() as int));
        } else {
            assert(seq![l[0]] + (rest.subrange(0, i - 1) + seq![e] + rest.subrange(i - 1, rest.len() as int))
                =~= l.subrange(0, i) + seq![e] + l.subrange(i, l.len() as int));
        }
    }
}

/// Inserts `e` into `l` as `sorted_insert` says.
pub fn sorted_insert_exec<V: Copy>(l: &mut Vec<(usize, V)>, e: (usize, V))
    ensures
        final(l)@ == sorted_insert(old(l)@, e),
{
    let mut i: usize = 0;
    while i < l.len() && l[i].0 < e.0
        invariant
            i <= l@.len(),
            forall|j: int| 0 <= j < i ==> l@[j].0 < e.0,
        decreases l@.len() - i,
    {
        i = i + 1;
    }
    proof {
        lemma_sorted_insert_at(l@, e, i as int);
    }
    let ghost before = l@;
    if i < l.len() && l[i].0 == e.0 {
        l.set(i, e);
        assert(l@ =~= before.subrange(0, i as int) + seq![e] + before.subrange(i + 1, before.len() as int));
    } else {
        l.insert(i, e);
        assert(l@ =~= before.subrange(0, i as int) + seq![e] + before.subrange(i as int, before.len() as int));
    }
}

/// Keys of the small maps that the protocol keeps: compared by value.
pub trait MapKey: Sized {
    fn key_eq(&self, other: &Self) -> (r: bool)
        ensures
            r == (*self == *other),
    ;
}

impl MapKey for u64 {
    fn key_eq(&self, other: &Self) -> (r: bool) {
        *self == *other
    }
}

impl MapKey for (u64, u64) {
    fn key_eq(&self, other: &Self) -> (r: bool) {
        self.0 == other.0 && self.1 == other.1
    }
}

impl MapKey for (u64, u64, u8, u64) {
    fn key_eq(&self, other: &Self) -> (r: bool) {
        self.0 == other.0 && self.1 == other.1 && self.2 == other.2 && self.3 == other.3
    }
}

/// Whether the keys of `s` are distinct.
pub open spec fn distinct_keys<K, V>(s: Seq<(K, V)>) -> bool {
    forall|i: int, j: int| 0 <= i < s.len() && 0 <= j < s.len() && i != j ==> s[i].0 != s[j].0
}

/// The map that a list of (key, value) entries with distinct keys stands for.
pub open spec fn entries_map<K, V>(s: Seq<(K, V)>) -> Map<K, V> {
    Map::new(
        |k: K| exists|i: int| 0 <= i < s.len() && s[i].0 == k,
        |k: K| s[choose|i: int| 0 <= i < s.len() && s[i].0 == k].1,
    )
}

/// Each entry is what its key maps to.
/// Pushing an element that a sequence without repeats does not hold keeps it
/// without repeats.
pub proof fn lemma_push_no_duplicates<A>(s: Seq<A>, x: A)
    requires
        s.no_duplicates(),
        !s.contains(x),
    ensures
        s.push(x).no_duplicates(),
{
    let t = s.push(x);
    assert forall|a: int, b: int| 0 <= a < t.len() && 0 <= b < t.len() && a != b implies t[a] != t[b] by {
        if a == s.len() {
            assert(s[b] == t[b]);
        } else if b == s.len() {
            assert(s[a] == t[a]);
        }
    }
}

pub proof fn lemma_entries_map_at<K, V>(s: Seq<(K, V)>, j: int)
    requires
        distinct_keys(s),
        0 <= j < s.len(),
    ensures
        entries_map(s).contains_key(s[j].0),
        entries_map(s)[s[j].0] == s[j].1,
{
    let k = s[j].0;
    assert(exists|i: int| 0 <= i < s.len() && s[i].0 == k);
    let i = choose|i: int| 0 <= i < s.len() && s[i].0 == k;
    assert(i == j);
}

/// The domain of the map is finite and has one key per entry.
pub proof fn lemma_entries_map_len<K, V>(s: Seq<(K, V)>)
    requires
        distinct_keys(s),
    ensures
        entries_map(s).dom().finite(),
        entries_map(s).dom().len() == s.len(),
{
    let keys = s.map_values(|e: (K, V)| e.0);
    assert(keys.no_duplicates());
    keys.unique_seq_to_set();
    assert(entries_map(s).dom() =~= keys.to_set()) by {
        assert forall|k: K| entries_map(s).dom().contains(k) implies keys.to_set().contains(k) by {
            let i = choose|i: int| 0 <= i < s.len() && s[i].0 == k;
            assert(keys[i] == k);
        }
        assert forall|k: K| keys.to_set().contains(k) implies entries_map(s).dom().contains(k) by {
            let i = choose|i: int| 0 <= i < keys.len() && keys[i] == k;
            assert(s[i].0 == k);
        }
    }
}

/// A small map held as a list of entries with distinct keys.
pub struct VecMap<K: MapKey, V> {
    entries: Vec<(K, V)>,
}

impl<K: MapKey, V> View for VecMap<K, V> {
    type V = Map<K, V>;

    closed spec fn view(&self) -> Map<K, V> {
        entries_map(self.entries@)
    }
}

impl<K: MapKey, V> VecMap<K, V> {
    /// The keys of the entries are distinct.
    pub closed spec fn wf(self) -> bool {
        distinct_keys(self.entries@)
    }

    /// The empty map.
    pub fn new() -> (m: Self)
        ensures
            m.wf(),
            m@ == Map::<K, V>::empty(),
    {
        let m = VecMap { entries: Vec::new() };
        assert(m@ =~= Map::<K, V>::empty());
        m
    }

    fn find(&self, k: &K) -> (r: Option<usize>)
        ensures
            r is Some ==> r->0 < self.entries@.len() && self.entries@[r->0 as int].0 == *k,
            r is None ==> forall|i: int| 0 <= i < self.entries@.len() ==> self.entries@[i].0 != *k,
    {
        let mut i: usize = 0;
        while i < self.entries.len()
            invariant
                i <= self.entries@.len(),
                forall|j: int| 0 <= j < i ==> self.entries@[j].0 != *k,
            decreases self.entries@.len() - i,
        {
            if self.entries[i].0.key_eq(k) {
                return Some(i);
            }
            i = i + 1;
        }
        None
    }

    /// The number of keys.
    pub fn len(&self) -> (n: usize)
        requires
            self.wf(),
        ensures
            self@.dom().finite(),
            n == self@.len(),
    {
        proof {
            lemma_entries_map_len(self.entries@);
        }
        self.entries.len()
    }

    /// Whether `k` is a key.
    pub fn contains_key(&self, k: &K) -> (b: bool)
        requires
            self.wf(),
        ensures
            b == self@.contains_key(*k),
    {
        match self.find(k) {
            Some(i) => {
                proof {
                    lemma_entries_map_at(self.entries@, i as int);
                }
                true
            },
            None => false,
        }
    }

    /// The value of `k`, if it is a key.
    pub fn get(&self, k: &K) -> (r: Option<&V>)
        requires
            self.wf(),
        ensures
            r is Some <==> self@.contains_key(*k),
            r is Some ==> *r->0 == self@[*k],
    {
        match self.find(k) {
            Some(i) => {
                proof {
                    lemma_entries_map_at(self.entries@, i as int);
                }
                Some(&self.entries[i].1)
            },
            None => None,
        }
    }

    /// Maps `k` to `v`.
    pub fn insert(&mut self, k: K, v: V)
        requires
            old(self).wf(),
        ensures
            final(self).wf(),
            final(self)@ == old(self)@.insert(k, v),
    {
        let ghost old_entries = self.entries@;
        match self.find(&k) {
            Some(i) => {
                self.entries.set(i, (k, v));
                proof {
                    let s = self.entries@;
                    assert(distinct_keys(s));
                    assert(entries_map(s) =~= entries_map(old_entries).insert(k, v)) by {
                        assert forall|q: K| #[trigger] entries_map(s).contains_key(q) == entries_map(old_entries).insert(k, v).contains_key(q) by {
                            if entries_map(s).contains_key(q) {
                                let j = choose|j: int| 0 <= j < s.len() && s[j].0 == q;
                                if j != i {
                                    assert(old_entries[j].0 == q);
                                }
                            }
                            if entries_map(old_entries).contains_key(q) {
                                let j = choose|j: int| 0 <= j < old_entries.len() && old_entries[j].0 == q;
                                assert(s[j].0 == q);
                            }
                            if q == k {
                                assert(s[i as int].0 == q);
                            }
                        }
                        assert forall|q: K| entries_map(s).contains_key(q) implies entries_map(s)[q] == entries_map(old_entries).insert(k, v)[q] by {
                            let j = choose|j: int| 0 <= j < s.len() && s[j].0 == q;
                            lemma_entries_map_at(s, j);
                            if j != i {
                                lemma_entries_map_at(old_entries, j);
                            }
                        }
                    }
                }
            },
            None => {
                self.entries.push((k, v));
                proof {
                    let s = self.entries@;
                    assert(distinct_keys(s));
                    assert(entries_map(s) =~= entries_map(old_entries).insert(k, v)) by {
                        assert forall|q: K| #[trigger] entries_map(s).contains_key(q) == entries_map(old_entries).insert(k, v).contains_key(q) by {
                            if entries_map(s).contains_key(q) {
                                let j = choose|j: int| 0 <= j < s.len() && s[j].0 == q;
                                if j < old_entries.len() {
                                    assert(old_entries[j].0 == q);
                                }
                            }
                            if entries_map(old_entries).contains_key(q) {
                                let j = choose|j: int| 0 <= j < old_entries.len() && old_entries[j].0 == q;
                                assert(s[j].0 == q);
                            }
                            if q == k {
                                assert(s[old_entries.len() as int].0 == q);
                            }
                        }
                        assert forall|q: K| entries_map(s).contains_key(q) implies entries_map(s)[q] == entries_map(old_entries).insert(k, v)[q] by {
                            let j = choose|j: int| 0 <= j < s.len() && s[j].0 == q;
                            lemma_entries_map_at(s, j);
                            if j < old_entries.len() {
                                lemma_entries_map_at(old_entries, j);
                            }
                        }
                    }
                }
            },
        }
    }

    /// Takes the value of `k` out of the map.
    pub fn remove(&mut self, k: &K) -> (r: Option<V>)
        requires
            old(self).wf(),
        ensures
            final(self).wf(),
            r is Some <==> old(self)@.contains_key(*k),
            r is Some ==> r->0 == old(self)@[*k],
            final(self)@ == old(self)@.remove(*k),
    {
        let ghost old_entries = self.entries@;
        match self.find(k) {
            Some(i) => {
                proof {
                    lemma_entries_map_at(old_entries, i as int);
                }
                let e = self.entries.swap_remove(i);
                proof {
                    let s = self.entries@;
                    let last = old_entries.len() - 1;
                    assert(forall|j: int| 0 <= j < s.len() ==> s[j] == if j == i { old_entries[last] } else { old_entries[j] });
                    assert(distinct_keys(s));
                    assert(entries_map(s) =~= entries_map(old_entries).remove(*k)) by {
                        assert forall|q: K| #[trigger] entries_map(s).contains_key(q) == entries_map(old_entries).remove(*k).contains_key(q) by {
                            if entries_map(s).contains_key(q) {
                                let j = choose|j: int| 0 <= j < s.len() && s[j].0 == q;
                                if j == i {
                                    assert(old_entries[last].0 == q);
                                } else {
                                    assert(old_entries[j].0 == q);
                                }
                            }
                            if entries_map(old_entries).remove(*k).contains_key(q) {
                                let j = choose|j: int| 0 <= j < old_entries.len() && old_entries[j].0 == q;
                                if j == last {
                                    assert(s[i as int].0 == q);
                                } else {
                                    assert(j != i);
                                    assert(s[j].0 == q);
                                }
                            }
                        }
                        assert forall|q: K| entries_map(s).contains_key(q) implies entries_map(s)[q] == entries_map(old_entries).remove(*k)[q] by {
                            let j = choose|j: int| 0 <= j < s.len() && s[j].0 == q;
                            lemma_entries_map_at(s, j);
                            if j == i {
                                lemma_entries_map_at(old_entries, last);
                            } else {
                                lemma_entries_map_at(old_entries, j);
                            }
                        }
                    }
                }
                Some(e.1)
            },
            None => {
                assert(entries_map(old_entries) =~= entries_map(old_entries).remove(*k));
                None
            },
        }
    }

    /// The keys, each once.
    pub fn keys(&self) -> (ks: Vec<K>)
        where K: Copy
        requires
            self.wf(),
        ensures
            ks@.no_duplicates(),
            forall|k: K| self@.contains_key(k) <==> ks@.contains(k),
    {
        let mut ks: Vec<K> = Vec::new();
        let mut i: usize = 0;
        while i < self.entries.len()
            invariant
                distinct_keys(self.entries@),
                i <= self.entries@.len(),
                ks@.len() == i,
                forall|j: int| 0 <= j < i ==> ks@[j] == self.entries@[j].0,
            decreases self.entries@.len() - i,
        {
            ks.push(self.entries[i].0);
            i = i + 1;
        }
        proof {
            assert forall|k: K| self@.contains_key(k) <==> ks@.contains(k) by {
                if self@.contains_key(k) {
                    let j = choose|j: int| 0 <= j < self.entries@.len() && self.entries@[j].0 == k;
                    assert(ks@[j] == k);
                }
                if ks@.contains(k) {
                    let j = choose|j: int| 0 <= j < ks@.len() && ks@[j] == k;
                    assert(self.entries@[j].0 == k);
                }
            }
        }
        ks
    }

    /// Keeps the entries whose key satisfies `keep`, which computes `pred`.
    pub fn retain<F: Fn(&K) -> bool>(&mut self, keep: F, Ghost(pred): Ghost<spec_fn(K) -> bool>)
        requires
            old(self).wf(),
            forall|k: K| keep.requires((&k,)),
            forall|k: K, b: bool| keep.ensures((&k,), b) ==> b == pred(k),
        ensures
            final(self).wf(),
            forall|k: K| final(self)@.contains_key(k) <==> (old(self)@.contains_key(k) && pred(k)),
            forall|k: K| final(self)@.contains_key(k) ==> final(self)@[k] == old(self)@[k],
    {
        let ghost old_entries = self.entries@;
        let ghost mut origin: Seq<int> = Seq::empty();
        let mut rest: Vec<(K, V)> = Vec::new();
        std::mem::swap(&mut rest, &mut self.entries);
        while rest.len() > 0
            invariant
                forall|k: K| keep.requires((&k,)),
                forall|k: K, b: bool| keep.ensures((&k,), b) ==> b == pred(k),
                distinct_keys(old_entries),
                rest@.len() <= old_entries.len(),
                rest@ == old_entries.subrange(0, rest@.len() as int),
                origin.len() == self.entries@.len(),
                forall|i: int| 0 <= i < origin.len() ==> rest@.len() <= #[trigger] origin[i] < old_entries.len(),
                forall|i: int| 0 <= i < origin.len() ==> old_entries[origin[i]] == #[trigger] self.entries@[i],
                forall|i: int| 0 <= i < origin.len() ==> pred(old_entries[#[trigger] origin[i]].0),
                forall|i: int, i2: int| 0 <= i < origin.len() && 0 <= i2 < origin.len() && i != i2 ==> #[trigger] origin[i] != #[trigger] origin[i2],
                forall|j: int| rest@.len() <= j < old_entries.len() && pred(#[trigger] old_entries[j].0) ==> self.entries@.contains(old_entries[j]),
            decreases rest@.len(),
        {
            let ghost n = rest@.len();
            let e = rest.pop().unwrap();
            assert(e == old_entries[n - 1]);
            let b = keep(&e.0);
            if b {
                let ghost before = self.entries@;
                self.entries.push(e);
                proof {
                    origin = origin.push(n - 1);
                    assert forall|j: int| n - 1 <= j < old_entries.len() && pred(#[trigger] old_entries[j].0) implies self.entries@.contains(old_entries[j]) by {
                        if j == n - 1 {
                            assert(self.entries@[before.len() as int] == old_entries[j]);
                        } else {
                            let i = choose|i: int| 0 <= i < before.len() && before[i] == old_entries[j];
                            assert(self.entries@[i] == old_entries[j]);
                        }
                    }
                }
            }
            proof {
                assert(rest@ =~= old_entries.subrange(0, rest@.len() as int));
            }
        }
        proof {
            let s = self.entries@;
            assert(distinct_keys(s)) by {
                assert forall|i: int, i2: int| 0 <= i < s.len() && 0 <= i2 < s.len() && i != i2 implies s[i].0 != s[i2].0 by {
                    assert(old_entries[origin[i]] == s[i]);
                    assert(old_entries[origin[i2]] == s[i2]);
                    assert(origin[i] != origin[i2]);
                }
            }
            assert forall|k: K| entries_map(s).contains_key(k) <==> (entries_map(old_entries).contains_key(k) && pred(k)) by {
                if entries_map(s).contains_key(k) {
                    let i = choose|i: int| 0 <= i < s.len() && s[i].0 == k;
                    assert(old_entries[origin[i]] == s[i]);
                    assert(pred(old_entries[origin[i]].0));
                }
                if entries_map(old_entries).contains_key(k) && pred(k) {
                    let j = choose|j: int| 0 <= j < old_entries.len() && old_entries[j].0 == k;
                    assert(pred(old_entries[j].0));
                    assert(s.contains(old_entries[j]));
                    let i = choose|i: int| 0 <= i < s.len() && s[i] == old_entries[j];
                    assert(s[i].0 == k);
                }
            }
            assert forall|k: K| entries_map(s).contains_key(k) implies entries_map(s)[k] == entries_map(old_entries)[k] by {
                let i = choose|i: int| 0 <= i < s.len() && s[i].0 == k;
                assert(old_entries[origin[i]] == s[i]);
                lemma_entries_map_at(s, i);
                lemma_entries_map_at(old_entries, origin[i]);
            }
        }
    }
}

} // verus!

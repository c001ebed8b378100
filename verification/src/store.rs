//! The two keyed containers the ladder reads: per-day rows in day order,
//! and per-file touch counts.
use vstd::prelude::*;

verus! {

/// The most any container may hold in absolute counts, summed: sums,
/// and fourfold dominance checks over them, then stay inside `i64`.
pub open spec fn count_limit() -> int {
    0x0800_0000_0000_0000
}

pub open spec fn abs(x: int) -> int {
    if x < 0 { -x } else { x }
}

/// Values with a size in absolute counts.
pub trait Weighted {
    spec fn weight(&self) -> nat;

    /// The weight, or `None` when it exceeds [`count_limit`].
    fn measure(&self) -> (w: Option<u64>)
        ensures
            w matches Some(x) ==> x == self.weight() && x <= count_limit(),
            w is None ==> self.weight() > count_limit(),
    ;
}

impl Weighted for i64 {
    open spec fn weight(&self) -> nat {
        abs(*self as int) as nat
    }

    fn measure(&self) -> (w: Option<u64>) {
        let a: u64 = if *self < 0 {
            if *self == i64::MIN {
                return None;
            }
            (-*self) as u64
        } else {
            *self as u64
        };
        if a > 0x0800_0000_0000_0000 { None } else { Some(a) }
    }
}

// ---------------------------------------------------------------- per-file counts

/// Keys of `s` are pairwise distinct.
pub open spec fn distinct_keys(s: Seq<(Seq<char>, i64)>) -> bool {
    forall|i: int, j: int| 0 <= i < j < s.len() ==> s[i].0 != s[j].0
}

/// Sum of absolute counts.
pub open spec fn files_weight(s: Seq<(Seq<char>, i64)>) -> nat
    decreases s.len(),
{
    if s.len() == 0 {
        0
    } else {
        (files_weight(s.drop_last()) + abs(s.last().1 as int)) as nat
    }
}

/// Sum of counts.
pub open spec fn files_total(s: Seq<(Seq<char>, i64)>) -> int
    decreases s.len(),
{
    if s.len() == 0 {
        0
    } else {
        files_total(s.drop_last()) + s.last().1
    }
}

/// The map a distinct-keyed entry list stands for.
pub open spec fn files_map(s: Seq<(Seq<char>, i64)>) -> Map<Seq<char>, int>
    decreases s.len(),
{
    if s.len() == 0 {
        Map::empty()
    } else {
        files_map(s.drop_last()).insert(s.last().0, s.last().1 as int)
    }
}

/// Index of key `k` in `s`, or -1.
pub open spec fn key_index(s: Seq<(Seq<char>, i64)>, k: Seq<char>) -> int
    decreases s.len(),
{
    if s.len() == 0 {
        -1
    } else if s.last().0 == k {
        s.len() - 1
    } else {
        key_index(s.drop_last(), k)
    }
}

pub proof fn lemma_key_index(s: Seq<(Seq<char>, i64)>, k: Seq<char>)
    requires
        distinct_keys(s),
    ensures
        -1 <= key_index(s, k) < s.len(),
        key_index(s, k) >= 0 ==> s[key_index(s, k)].0 == k,
        key_index(s, k) < 0 ==> forall|i: int| 0 <= i < s.len() ==> s[i].0 != k,
        files_map(s).contains_key(k) <==> key_index(s, k) >= 0,
        key_index(s, k) >= 0 ==> files_map(s)[k] == s[key_index(s, k)].1,
    decreases s.len(),
{
    if s.len() > 0 {
        lemma_key_index(s.drop_last(), k);
        if key_index(s, k) < 0 {
            assert forall|i: int| 0 <= i < s.len() implies s[i].0 != k by {
                if i < s.len() - 1 {
                    assert(s.drop_last()[i].0 != k);
                }
            }
        }
    }
}

/// Touch counts per file path. Paths are distinct; entries keep the order
/// in which paths first appeared.
pub struct FileCounts {
    entries: Vec<(String, i64)>,
}

impl View for FileCounts {
    type V = Seq<(Seq<char>, i64)>;

    closed spec fn view(&self) -> Seq<(Seq<char>, i64)> {
        self.entries@.map_values(|e: (String, i64)| (e.0@, e.1))
    }
}

impl FileCounts {
    #[verifier::type_invariant]
    pub open spec fn inv(self) -> bool {
        distinct_keys(self@)
    }

    pub fn new() -> (f: FileCounts)
        ensures
            f@ == Seq::<(Seq<char>, i64)>::empty(),
    {
        let f = FileCounts { entries: Vec::new() };
        assert(f@ =~= Seq::<(Seq<char>, i64)>::empty());
        f
    }

    pub fn len(&self) -> (n: usize)
        ensures
            n == self@.len(),
    {
        self.entries.len()
    }

    pub fn path(&self, i: usize) -> (p: &String)
        requires
            i < self@.len(),
        ensures
            p@ == self@[i as int].0,
    {
        &self.entries[i].0
    }

    pub fn count(&self, i: usize) -> (n: i64)
        requires
            i < self@.len(),
        ensures
            n == self@[i as int].1,
    {
        self.entries[i].1
    }

    /// Position of `path`, if present.
    pub fn find(&self, path: &str) -> (r: Option<usize>)
        ensures
            r matches Some(i) ==> i < self@.len() && self@[i as int].0 == path@,
            r is None ==> forall|i: int| 0 <= i < self@.len() ==> self@[i].0 != path@,
    {
        let key = crate::text::chars_of(path);
        let mut i: usize = 0;
        while i < self.entries.len()
            invariant
                key@ == path@,
                i <= self@.len(),
                self@.len() == self.entries@.len(),
                forall|j: int| 0 <= j < i ==> self@[j].0 != path@,
            decreases self@.len() - i,
        {
            let p = crate::text::chars_of(self.entries[i].0.as_str());
            if crate::text::seq_eq(&p, &key) {
                return Some(i);
            }
            i += 1;
        }
        None
    }

    /// Count for `path`, if present.
    pub fn get(&self, path: &str) -> (r: Option<i64>)
        ensures
            r == (if files_map(self@).contains_key(path@) {
                Some(files_map(self@)[path@] as i64)
            } else {
                None::<i64>
            }),
    {
        proof {
            use_type_invariant(self);
            lemma_key_index(self@, path@);
        }
        match self.find(path) {
            Some(i) => {
                proof {
                    if key_index(self@, path@) != i {
                        assert(self@[key_index(self@, path@)].0 == self@[i as int].0);
                    }
                }
                Some(self.entries[i].1)
            },
            None => None,
        }
    }

    /// Sets the count of `path` (replacing any earlier count).
    pub fn insert(&mut self, path: String, n: i64)
        ensures
            old(self)@.len() == final(self)@.len() ==> exists|i: int|
                0 <= i < old(self)@.len() && old(self)@[i].0 == path@
                    && final(self)@ == old(self)@.update(i, (path@, n)),
            old(self)@.len() != final(self)@.len() ==> (forall|i: int|
                0 <= i < old(self)@.len() ==> old(self)@[i].0 != path@)
                    && final(self)@ == old(self)@.push((path@, n)),
    {
        proof {
            use_type_invariant(&*self);
        }
        let ghost before = self@;
        let found = self.find(path.as_str());
        let mut e: Vec<(String, i64)> = Vec::new();
        std::mem::swap(&mut e, &mut self.entries);
        match found {
            Some(i) => {
                e.set(i, (path, n));
            },
            None => {
                e.push((path, n));
            },
        }
        proof {
            let after = e@.map_values(|x: (String, i64)| (x.0@, x.1));
            match found {
                Some(i) => {
                    assert(after =~= before.update(i as int, (path@, n)));
                },
                None => {
                    assert(after =~= before.push((path@, n)));
                },
            }
        }
        self.entries = e;
    }

    /// Adds `delta` to the count of `path` (starting from zero). Counts
    /// may pass through zero or below while a transaction runs; `settle`
    /// drops them when it ends.
    pub fn add(&mut self, path: &String, delta: i64)
        requires
            old(self)@.len() < usize::MAX,
            forall|i: int| 0 <= i < old(self)@.len() ==> i64::MIN <= #[trigger] old(self)@[i].1 + delta <= i64::MAX,
        ensures
            ({
                let was = if files_map(old(self)@).contains_key(path@) { files_map(old(self)@)[path@] } else { 0 };
                files_map(final(self)@) == files_map(old(self)@).insert(path@, was + delta)
            }),
    {
        proof {
            use_type_invariant(&*self);
            lemma_key_index(self@, path@);
        }
        let ghost before = self@;
        let found = self.find(path.as_str());
        let mut e: Vec<(String, i64)> = Vec::new();
        std::mem::swap(&mut e, &mut self.entries);
        assert(e@.map_values(|x: (String, i64)| (x.0@, x.1)) == before);
        match found {
            Some(i) => {
                let n = e[i].1 + delta;
                e.set(i, (path.clone(), n));
                assert(e@.map_values(|x: (String, i64)| (x.0@, x.1)) =~= before.update(i as int, (path@, n)));
                proof {
                    lemma_map_update(before, i as int, n);
                    if key_index(before, path@) != i {
                        assert(before[key_index(before, path@)].0 == before[i as int].0);
                    }
                }
            },
            None => {
                e.push((path.clone(), delta));
                let ghost after = e@.map_values(|x: (String, i64)| (x.0@, x.1));
                assert(after =~= before.push((path@, delta)));
                assert(files_map(after) == files_map(before).insert(path@, delta as int)) by {
                    assert(after.drop_last() =~= before);
                }
                assert(distinct_keys(after)) by {
                    assert forall|a: int, b: int| 0 <= a < b < after.len() implies after[a].0 != after[b].0 by {
                        if b == after.len() - 1 {
                            assert(after[a] == before[a]);
                        } else {
                            assert(after[a] == before[a] && after[b] == before[b]);
                        }
                    }
                }
            },
        }
        self.entries = e;
    }

    /// Drops every path whose count is no longer positive, keeping the
    /// order of the others: what a transaction's end leaves behind.
    pub fn settle(&mut self)
        ensures
            files_map(final(self)@) == settled(files_map(old(self)@)),
    {
        proof {
            use_type_invariant(&*self);
        }
        let ghost before = self@;
        let mut e: Vec<(String, i64)> = Vec::new();
        std::mem::swap(&mut e, &mut self.entries);
        assert(e@.map_values(|x: (String, i64)| (x.0@, x.1)) == before);
        let mut kept: Vec<(String, i64)> = Vec::new();
        let mut i: usize = 0;
        assert(settled(files_map(before.take(0))) =~= files_map(Seq::<(Seq<char>, i64)>::empty()));
        while i < e.len()
            invariant
                i <= e@.len(),
                e@.map_values(|x: (String, i64)| (x.0@, x.1)) == before,
                distinct_keys(before),
                distinct_keys(kept@.map_values(|x: (String, i64)| (x.0@, x.1))),
                files_map(kept@.map_values(|x: (String, i64)| (x.0@, x.1))) == settled(files_map(before.take(i as int))),
            decreases e@.len() - i,
        {
            let ghost kv = kept@.map_values(|x: (String, i64)| (x.0@, x.1));
            let ghost item = before[i as int];
            assert(before.take(i + 1) =~= before.take(i as int).push(item));
            proof {
                lemma_files_map_push(before.take(i as int), item);
                lemma_key_index(before.take(i as int), item.0);
                assert forall|j: int| 0 <= j < i implies before.take(i as int)[j].0 != item.0 by {
                    assert(before[j].0 != before[i as int].0);
                }
            }
            if e[i].1 > 0 {
                kept.push((e[i].0.clone(), e[i].1));
                let ghost kv2 = kept@.map_values(|x: (String, i64)| (x.0@, x.1));
                assert(kv2 =~= kv.push(item));
                proof {
                    lemma_files_map_push(kv, item);
                    assert forall|j: int| 0 <= j < kv.len() implies kv[j].0 != item.0 by {
                        lemma_key_index(kv, kv[j].0);
                    }
                    assert(distinct_keys(kv2)) by {
                        assert forall|a: int, b: int| 0 <= a < b < kv2.len() implies kv2[a].0 != kv2[b].0 by {
                            if b == kv2.len() - 1 {
                                assert(kv2[a] == kv[a]);
                            } else {
                                assert(kv2[a] == kv[a] && kv2[b] == kv[b]);
                            }
                        }
                    }
                    assert(files_map(kv2) =~= settled(files_map(before.take(i + 1))));
                }
            } else {
                assert(files_map(kv) =~= settled(files_map(before.take(i + 1))));
            }
            i += 1;
        }
        assert(before.take(e@.len() as int) =~= before);
        self.entries = kept;
    }
}

/// The counts of `m` that are positive.
pub open spec fn settled(m: Map<Seq<char>, int>) -> Map<Seq<char>, int> {
    Map::new(|k: Seq<char>| m.contains_key(k) && m[k] > 0, |k: Seq<char>| m[k])
}

// ---------------------------------------------------------------- per-day rows

/// Keys strictly increase along `s`.
pub open spec fn keys_increasing<V>(s: Seq<(u64, V)>) -> bool {
    forall|i: int, j: int| 0 <= i < j < s.len() ==> s[i].0 < s[j].0
}

/// Total weight of the values of `s`.
pub open spec fn rows_weight<V: Weighted>(s: Seq<(u64, V)>) -> nat
    decreases s.len(),
{
    if s.len() == 0 {
        0
    } else {
        (rows_weight(s.drop_last()) + s.last().1.weight()) as nat
    }
}

pub proof fn lemma_rows_weight_update<V: Weighted>(s: Seq<(u64, V)>, i: int, e: (u64, V))
    requires
        0 <= i < s.len(),
    ensures
        rows_weight(s.update(i, e)) == rows_weight(s) - s[i].1.weight() + e.1.weight(),
    decreases s.len(),
{
    if i < s.len() - 1 {
        lemma_rows_weight_update(s.drop_last(), i, e);
        assert(s.update(i, e).drop_last() =~= s.drop_last().update(i, e));
    } else {
        assert(s.update(i, e).drop_last() =~= s.drop_last());
    }
}

pub proof fn lemma_rows_weight_ge<V: Weighted>(s: Seq<(u64, V)>, i: int)
    requires
        0 <= i < s.len(),
    ensures
        rows_weight(s) >= s[i].1.weight(),
    decreases s.len(),
{
    if i < s.len() - 1 {
        lemma_rows_weight_ge(s.drop_last(), i);
    }
}

pub proof fn lemma_rows_weight_insert<V: Weighted>(s: Seq<(u64, V)>, i: int, e: (u64, V))
    requires
        0 <= i <= s.len(),
    ensures
        rows_weight(s.insert(i, e)) == rows_weight(s) + e.1.weight(),
    decreases s.len(),
{
    if i < s.len() {
        lemma_rows_weight_insert(s.drop_last(), i, e);
        assert(s.insert(i, e).drop_last() =~= s.drop_last().insert(i, e));
    } else {
        assert(s.insert(i, e).drop_last() =~= s);
    }
}

/// A map from day bucket to `V`, in increasing day order, whose values
/// together weigh at most [`count_limit`].
pub struct DayMap<V: Weighted> {
    entries: Vec<(u64, V)>,
    total: u64,
}

impl<V: Weighted> View for DayMap<V> {
    type V = Seq<(u64, V)>;

    closed spec fn view(&self) -> Seq<(u64, V)> {
        self.entries@
    }
}

impl<V: Weighted> DayMap<V> {
    #[verifier::type_invariant]
    pub open spec fn inv(self) -> bool {
        &&& keys_increasing(self@)
        &&& rows_weight(self@) <= count_limit()
        &&& self.total_weight() == rows_weight(self@)
    }

    pub closed spec fn total_weight(self) -> nat {
        self.total as nat
    }

    pub fn new() -> (m: DayMap<V>)
        ensures
            m@ == Seq::<(u64, V)>::empty(),
    {
        DayMap { entries: Vec::new(), total: 0 }
    }

    pub fn len(&self) -> (n: usize)
        ensures
            n == self@.len(),
    {
        self.entries.len()
    }

    pub fn key(&self, i: usize) -> (k: u64)
        requires
            i < self@.len(),
        ensures
            k == self@[i as int].0,
    {
        self.entries[i].0
    }

    pub fn value(&self, i: usize) -> (v: &V)
        requires
            i < self@.len(),
        ensures
            *v == self@[i as int].1,
    {
        &self.entries[i].1
    }

    /// The smallest key.
    pub fn first_key(&self) -> (k: Option<u64>)
        ensures
            self@.len() == 0 ==> k is None,
            self@.len() > 0 ==> k == Some(self@[0].0),
    {
        if self.entries.len() == 0 {
            None
        } else {
            Some(self.entries[0].0)
        }
    }

    /// The value stored under `k`.
    pub fn get(&self, k: u64) -> (r: Option<&V>)
        ensures
            r matches Some(v) ==> exists|i: int| 0 <= i < self@.len() && self@[i] == (k, *v),
            r is None ==> forall|i: int| 0 <= i < self@.len() ==> self@[i].0 != k,
    {
        let mut i: usize = 0;
        while i < self.entries.len()
            invariant
                i <= self@.len(),
                self@ == self.entries@,
                forall|j: int| 0 <= j < i ==> self@[j].0 != k,
            decreases self@.len() - i,
        {
            if self.entries[i].0 == k {
                return Some(&self.entries[i].1);
            }
            i += 1;
        }
        None
    }

    /// Stores `v` under `k`, replacing any earlier value, keeping day
    /// order. Refused (returning `false`, map unchanged) when the map would
    /// then weigh more than [`count_limit`].
    pub fn insert(&mut self, k: u64, v: V) -> (ok: bool)
        ensures
            rows_weight(old(self)@) + v.weight() <= count_limit() ==> ok,
            !ok ==> final(self)@ == old(self)@,
            ok ==> (exists|i: int| 0 <= i < old(self)@.len() && old(self)@[i].0 == k
                && final(self)@ == old(self)@.update(i, (k, v)))
                || (exists|i: int| 0 <= i <= old(self)@.len()
                && (forall|j: int| 0 <= j < old(self)@.len() ==> old(self)@[j].0 != k)
                && final(self)@ == old(self)@.insert(i, (k, v))),
    {
        proof {
            use_type_invariant(&*self);
        }
        let w = match v.measure() {
            Some(w) => w,
            None => return false,
        };
        assert(self.total == rows_weight(self@));
        let ghost before = self@;
        let mut i: usize = 0;
        while i < self.entries.len() && self.entries[i].0 < k
            invariant
                i <= before.len(),
                self@ == before,
                self.entries@ == before,
                keys_increasing(before),
                forall|j: int| 0 <= j < i ==> before[j].0 < k,
            decreases before.len() - i,
        {
            i += 1;
        }
        let replace = i < self.entries.len() && self.entries[i].0 == k;
        let old_w: u64 = if replace {
            match self.entries[i].1.measure() {
                Some(x) => x,
                None => 0,
            }
        } else {
            0
        };
        proof {
            if replace {
                lemma_rows_weight_ge(before, i as int);
            }
        }
        if self.total - old_w + w > 0x0800_0000_0000_0000 {
            return false;
        }
        let total = self.total - old_w + w;
        let mut whole: DayMap<V> = DayMap::new();
        std::mem::swap(&mut whole, self);
        let DayMap { entries: mut e, total: _ } = whole;
        if replace {
            e.set(i, (k, v));
            proof {
                lemma_rows_weight_update(before, i as int, (k, v));
            }
        } else {
            e.insert(i, (k, v));
            proof {
                lemma_rows_weight_insert(before, i as int, (k, v));
                assert forall|j: int| 0 <= j < before.len() implies before[j].0 != k by {
                    if j >= i {
                        assert(before[j].0 >= before[i as int].0);
                    }
                }
            }
        }
        *self = DayMap { entries: e, total };
        true
    }
}

/// `|x|` when at most [`count_limit`].
pub fn bounded_abs(x: i64) -> (r: Option<u64>)
    ensures
        r matches Some(a) ==> a == abs(x as int) && a <= count_limit(),
        r is None ==> abs(x as int) > count_limit(),
{
    x.measure()
}

impl FileCounts {
    /// Total absolute count, when at most [`count_limit`].
    pub fn measure(&self) -> (w: Option<u64>)
        ensures
            w matches Some(x) ==> x == files_weight(self@) && x <= count_limit(),
            w is None ==> files_weight(self@) > count_limit(),
    {
        let mut acc: u64 = 0;
        let mut i: usize = 0;
        while i < self.entries.len()
            invariant
                i <= self@.len(),
                self@.len() == self.entries@.len(),
                acc == files_weight(self@.take(i as int)),
                acc <= count_limit(),
            decreases self@.len() - i,
        {
            assert(self@.take(i + 1).drop_last() =~= self@.take(i as int));
            match bounded_abs(self.entries[i].1) {
                Some(a) => {
                    if a > 0x0800_0000_0000_0000 - acc {
                        proof { lemma_files_weight_mono(self@, i + 1); }
                        return None;
                    }
                    acc = acc + a;
                },
                None => {
                    proof { lemma_files_weight_mono(self@, i + 1); }
                    return None;
                },
            }
            i += 1;
        }
        assert(self@.take(i as int) =~= self@);
        Some(acc)
    }
}

pub proof fn lemma_files_weight_mono(s: Seq<(Seq<char>, i64)>, k: int)
    requires
        0 <= k <= s.len(),
    ensures
        files_weight(s.take(k)) <= files_weight(s),
    decreases s.len() - k,
{
    if k < s.len() {
        lemma_files_weight_mono(s, k + 1);
        assert(s.take(k + 1).drop_last() =~= s.take(k));
    } else {
        assert(s.take(k) =~= s);
    }
}

pub proof fn lemma_files_total_bound(s: Seq<(Seq<char>, i64)>)
    ensures
        abs(files_total(s)) <= files_weight(s),
    decreases s.len(),
{
    if s.len() > 0 {
        lemma_files_total_bound(s.drop_last());
    }
}

pub proof fn lemma_files_weight_update(s: Seq<(Seq<char>, i64)>, i: int, e: (Seq<char>, i64))
    requires
        0 <= i < s.len(),
    ensures
        files_weight(s.update(i, e)) == files_weight(s) - abs(s[i].1 as int) + abs(e.1 as int),
        files_weight(s) >= abs(s[i].1 as int),
    decreases s.len(),
{
    if i < s.len() - 1 {
        lemma_files_weight_update(s.drop_last(), i, e);
        assert(s.update(i, e).drop_last() =~= s.drop_last().update(i, e));
    } else {
        assert(s.update(i, e).drop_last() =~= s.drop_last());
    }
}

pub proof fn lemma_rows_weight_take<V: Weighted>(s: Seq<(u64, V)>, k: int)
    requires
        0 <= k <= s.len(),
    ensures
        rows_weight(s.take(k)) <= rows_weight(s),
    decreases s.len() - k,
{
    if k < s.len() {
        lemma_rows_weight_take(s, k + 1);
        assert(s.take(k + 1).drop_last() =~= s.take(k));
    } else {
        assert(s.take(k) =~= s);
    }
}

/// `files_map` extended by one entry whose key is new.
pub proof fn lemma_files_map_push(s: Seq<(Seq<char>, i64)>, e: (Seq<char>, i64))
    ensures
        files_map(s.push(e)) == files_map(s).insert(e.0, e.1 as int),
{
    assert(s.push(e).drop_last() =~= s);
}

pub proof fn lemma_files_map_update(s: Seq<(Seq<char>, i64)>, i: int, n: i64)
    requires
        distinct_keys(s),
        0 <= i < s.len(),
    ensures
        distinct_keys(s.update(i, (s[i].0, n))),
        files_map(s.update(i, (s[i].0, n))) == files_map(s).insert(s[i].0, n as int),
{
    lemma_map_update(s, i, n);
}

proof fn lemma_map_update(s: Seq<(Seq<char>, i64)>, i: int, n: i64)
    requires
        distinct_keys(s),
        0 <= i < s.len(),
    ensures
        distinct_keys(s.update(i, (s[i].0, n))),
        files_map(s.update(i, (s[i].0, n))) == files_map(s).insert(s[i].0, n as int),
    decreases s.len(),
{
    let t = s.update(i, (s[i].0, n));
    if i == s.len() - 1 {
        assert(t.drop_last() =~= s.drop_last());
        lemma_key_index(s.drop_last(), s[i].0);
        assert(files_map(s).insert(s[i].0, n as int) =~= files_map(s.drop_last()).insert(s[i].0, n as int));
    } else {
        lemma_map_update(s.drop_last(), i, n);
        assert(t.drop_last() =~= s.drop_last().update(i, (s[i].0, n)));
        assert(files_map(t) =~= files_map(s).insert(s[i].0, n as int));
    }
}

pub proof fn lemma_map_remove(s: Seq<(Seq<char>, i64)>, i: int)
    requires
        distinct_keys(s),
        0 <= i < s.len(),
    ensures
        distinct_keys(s.remove(i)),
        files_map(s.remove(i)) == files_map(s).remove(s[i].0),
    decreases s.len(),
{
    let t = s.remove(i);
    if i == s.len() - 1 {
        assert(t =~= s.drop_last());
        lemma_key_index(s.drop_last(), s[i].0);
        assert(files_map(s).remove(s[i].0) =~= files_map(s.drop_last()));
    } else {
        lemma_map_remove(s.drop_last(), i);
        assert(t.drop_last() =~= s.drop_last().remove(i));
        assert(files_map(t) =~= files_map(s).remove(s[i].0));
    }
}

} // verus!

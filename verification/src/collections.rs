//! Ordered maps keyed by names and ordered sets of small plain items.
//!
//! Entries are kept in the order of their keys, so that walking a map or a set
//! visits its elements from the smallest to the largest, as an ordered tree does.

use vstd::prelude::*;

use crate::text::{lemma_text_lt_total, lemma_text_lt_trans, name_lt, text_lt};

verus! {

/// No name occurs twice among the entries.
pub open spec fn keys_distinct<V>(s: Seq<(String, V)>) -> bool {
    forall|i: int, j: int|
        0 <= i < s.len() && 0 <= j < s.len() && i != j ==> #[trigger] s[i].0@ != #[trigger] s[j].0@
}

/// The names of the entries come in their order.
pub open spec fn keys_sorted<V>(s: Seq<(String, V)>) -> bool {
    forall|i: int, j: int| 0 <= i < j < s.len() ==> text_lt(#[trigger] s[i].0@, #[trigger] s[j].0@)
}

/// In sorted entries, a name that comes before the name at `i` sits before `i`.
pub proof fn lemma_sorted_earlier<V>(s: Seq<(String, V)>, i: int, k: Seq<char>)
    requires
        keys_distinct(s),
        keys_sorted(s),
        0 <= i < s.len(),
        seq_has(s, k),
        text_lt(k, s[i].0@),
    ensures
        0 <= seq_index(s, k) < i,
        s[seq_index(s, k)].0@ == k,
{
    let j = seq_index(s, k);
    if j >= i {
        if j == i {
            crate::text::lemma_text_lt_irrefl(k);
        } else {
            assert(text_lt(s[i].0@, s[j].0@));
            lemma_text_lt_trans(k, s[i].0@, k);
            crate::text::lemma_text_lt_irrefl(k);
        }
    }
}

pub open spec fn seq_has<V>(s: Seq<(String, V)>, k: Seq<char>) -> bool {
    exists|i: int| 0 <= i < s.len() && #[trigger] s[i].0@ == k
}

pub open spec fn seq_index<V>(s: Seq<(String, V)>, k: Seq<char>) -> int {
    choose|i: int| 0 <= i < s.len() && #[trigger] s[i].0@ == k
}

/// The map that a sequence of entries stands for.
pub open spec fn seq_map<V>(s: Seq<(String, V)>) -> Map<Seq<char>, V> {
    Map::new(|k: Seq<char>| seq_has(s, k), |k: Seq<char>| s[seq_index(s, k)].1)
}

pub proof fn lemma_seq_map_entry<V>(s: Seq<(String, V)>, i: int)
    requires
        keys_distinct(s),
        0 <= i < s.len(),
    ensures
        seq_map(s).contains_key(s[i].0@),
        seq_map(s)[s[i].0@] == s[i].1,
        seq_index(s, s[i].0@) == i,
{
    let k = s[i].0@;
    assert(seq_has(s, k));
    let j = seq_index(s, k);
    if j != i {
        assert(s[j].0@ != s[i].0@);
    }
}

/// A map equals the map of distinct entries when every entry is in the map and
/// every key of the map has an entry.
pub proof fn lemma_seq_map_ext<V>(s: Seq<(String, V)>, m: Map<Seq<char>, V>)
    requires
        keys_distinct(s),
        forall|i: int| 0 <= i < s.len() ==> #[trigger] m.contains_key(s[i].0@) && m[s[i].0@] == s[i].1,
        forall|k: Seq<char>| #[trigger] m.contains_key(k) ==> seq_has(s, k),
    ensures
        seq_map(s) == m,
{
    assert forall|k: Seq<char>| #[trigger] seq_map(s).contains_key(k) == m.contains_key(k) by {
        if seq_has(s, k) {
            let i = seq_index(s, k);
            assert(m.contains_key(s[i].0@));
        }
    }
    assert forall|k: Seq<char>| #[trigger] seq_map(s).contains_key(k) implies seq_map(s)[k] == m[k] by {
        let i = seq_index(s, k);
        lemma_seq_map_entry(s, i);
        assert(m.contains_key(s[i].0@));
    }
    assert(seq_map(s) =~= m);
}

/// The map of a sequence of entries has a finite domain, no larger than the sequence.
pub proof fn lemma_seq_map_finite<V>(s: Seq<(String, V)>)
    ensures
        seq_map(s).dom().finite(),
        seq_map(s).dom().len() <= s.len(),
        keys_distinct(s) ==> seq_map(s).dom().len() == s.len(),
{
    let keys = Seq::new(s.len(), |i: int| s[i].0@);
    assert(seq_map(s).dom() =~= keys.to_set()) by {
        assert forall|k: Seq<char>| seq_map(s).dom().contains(k) implies keys.to_set().contains(k) by {
            let i = seq_index(s, k);
            assert(keys[i] == k);
        }
        assert forall|k: Seq<char>| keys.to_set().contains(k) implies seq_map(s).dom().contains(k) by {
            let i = choose|i: int| 0 <= i < keys.len() && keys[i] == k;
            assert(s[i].0@ == k);
        }
    }
    keys.lemma_cardinality_of_set();
    if keys_distinct(s) {
        assert(keys.no_duplicates()) by {
            assert forall|i: int, j: int| 0 <= i < keys.len() && 0 <= j < keys.len() && i != j implies keys[i] != keys[j] by {
                assert(s[i].0@ != s[j].0@);
            }
        }
        keys.unique_seq_to_set();
    }
}

/// A map from names to values, kept in the order of the names.
pub struct NameMap<V> {
    pub entries: Vec<(String, V)>,
}

impl<V> NameMap<V> {
    pub open spec fn wf(&self) -> bool {
        keys_distinct(self.entries@) && keys_sorted(self.entries@)
    }

    /// The map that the entries stand for.
    pub open spec fn view(&self) -> Map<Seq<char>, V> {
        seq_map(self.entries@)
    }

    pub fn new() -> (m: NameMap<V>)
        ensures
            m.wf(),
            m.view() == Map::<Seq<char>, V>::empty(),
            m.entries@.len() == 0,
    {
        let m = NameMap { entries: Vec::new() };
        assert(m.view() =~= Map::<Seq<char>, V>::empty());
        m
    }

    pub fn len(&self) -> (n: usize)
        ensures
            n == self.entries@.len(),
    {
        self.entries.len()
    }

    /// The position of `k` among the entries, if it is there.
    pub fn find(&self, k: &str) -> (r: Option<usize>)
        requires
            self.wf(),
        ensures
            match r {
                Some(i) => i < self.entries@.len() && self.entries@[i as int].0@ == k@
                    && self.view().contains_key(k@) && self.view()[k@] == self.entries@[i as int].1,
                None => !self.view().contains_key(k@),
            },
    {
        let mut i: usize = 0;
        while i < self.entries.len()
            invariant
                self.wf(),
                i <= self.entries@.len(),
                forall|j: int| 0 <= j < i ==> self.entries@[j].0@ != k@,
            decreases self.entries@.len() - i,
        {
            if crate::text::same_text(&self.entries[i].0, k) {
                proof {
                    lemma_seq_map_entry(self.entries@, i as int);
                }
                return Some(i);
            }
            i = i + 1;
        }
        None
    }

    pub fn contains(&self, k: &str) -> (r: bool)
        requires
            self.wf(),
        ensures
            r == self.view().contains_key(k@),
    {
        self.find(k).is_some()
    }

    pub fn get(&self, k: &str) -> (r: Option<&V>)
        requires
            self.wf(),
        ensures
            match r {
                Some(v) => self.view().contains_key(k@) && self.view()[k@] == *v,
                None => !self.view().contains_key(k@),
            },
    {
        match self.find(k) {
            Some(i) => Some(&self.entries[i].1),
            None => None,
        }
    }

    /// The position at which a new name `k` keeps the entries in order.
    fn insertion_point(&self, k: &String) -> (p: usize)
        ensures
            p <= self.entries@.len(),
            forall|j: int| 0 <= j < p ==> !text_lt(k@, #[trigger] self.entries@[j].0@),
            p < self.entries@.len() ==> text_lt(k@, self.entries@[p as int].0@),
    {
        let mut p: usize = 0;
        while p < self.entries.len()
            invariant
                p <= self.entries@.len(),
                forall|j: int| 0 <= j < p ==> !text_lt(k@, #[trigger] self.entries@[j].0@),
            decreases self.entries@.len() - p,
        {
            if name_lt(k, &self.entries[p].0) {
                return p;
            }
            p = p + 1;
        }
        p
    }

    /// Binds `k` to `v`, replacing an earlier value of `k`.
    pub fn insert(&mut self, k: String, v: V)
        requires
            old(self).wf(),
        ensures
            final(self).wf(),
            final(self).view() == old(self).view().insert(k@, v),
            final(self).entries@.len() == old(self).entries@.len() + (if old(self).view().contains_key(k@) { 0int } else { 1int }),
    {
        let ghost kv = k@;
        let ghost vv = v;
        let ghost before = self.entries@;
        let ghost target = old(self).view().insert(kv, vv);
        match self.find(k.as_str()) {
            Some(i) => {
                self.entries.remove(i);
                self.entries.insert(i, (k, v));
                proof {
                    let after = self.entries@;
                    assert(forall|j: int| 0 <= j < after.len() && j != i ==> after[j] == before[j]);
                    assert forall|a: int, b: int| 0 <= a < b < after.len() implies text_lt(#[trigger] after[a].0@, #[trigger] after[b].0@) by {
                        assert(after[a].0@ == before[a].0@);
                        assert(after[b].0@ == before[b].0@);
                    }
                    assert forall|j: int| 0 <= j < after.len() implies #[trigger] target.contains_key(after[j].0@)
                        && target[after[j].0@] == after[j].1 by {
                        if j != i {
                            lemma_seq_map_entry(before, j);
                        }
                    }
                    assert forall|k2: Seq<char>| #[trigger] target.contains_key(k2) implies seq_has(after, k2) by {
                        if k2 == kv {
                            assert(after[i as int].0@ == k2);
                        } else {
                            let j = seq_index(before, k2);
                            assert(after[j].0@ == k2);
                        }
                    }
                    lemma_seq_map_ext(after, target);
                }
            },
            None => {
                let p = self.insertion_point(&k);
                self.entries.insert(p, (k, v));
                proof {
                    let after = self.entries@;
                    assert forall|a: int| 0 <= a < p implies text_lt(before[a].0@, kv) by {
                        if before[a].0@ == kv {
                            assert(seq_has(before, kv));
                        }
                        lemma_text_lt_total(before[a].0@, kv);
                    }
                    assert forall|a: int| p <= a < before.len() implies text_lt(kv, before[a].0@) by {
                        if a > p {
                            lemma_text_lt_trans(kv, before[p as int].0@, before[a].0@);
                        }
                    }
                    assert forall|a: int, b: int| 0 <= a < b < after.len() implies text_lt(#[trigger] after[a].0@, #[trigger] after[b].0@) by {
                        if b < p {
                            assert(after[a] == before[a] && after[b] == before[b]);
                        } else if b == p {
                            assert(after[a] == before[a]);
                        } else if a < p {
                            assert(after[a] == before[a] && after[b] == before[b - 1]);
                            lemma_text_lt_trans(before[a].0@, kv, before[b - 1].0@);
                        } else if a == p {
                            assert(after[b] == before[b - 1]);
                        } else {
                            assert(after[a] == before[a - 1] && after[b] == before[b - 1]);
                        }
                    }
                    assert forall|a: int| 0 <= a < before.len() implies before[a].0@ != kv by {
                        if before[a].0@ == kv {
                            assert(seq_has(before, kv));
                        }
                    }
                    assert forall|a: int, b: int|
                        0 <= a < after.len() && 0 <= b < after.len() && a != b implies #[trigger] after[a].0@
                        != #[trigger] after[b].0@ by {
                        let a0 = if a < p { a } else { a - 1 };
                        let b0 = if b < p { b } else { b - 1 };
                        if a != p && b != p {
                            assert(after[a] == before[a0]);
                            assert(after[b] == before[b0]);
                        } else if a == p {
                            assert(after[b] == before[b0]);
                        } else {
                            assert(after[a] == before[a0]);
                        }
                    }
                    assert forall|j: int| 0 <= j < after.len() implies #[trigger] target.contains_key(after[j].0@)
                        && target[after[j].0@] == after[j].1 by {
                        if j < p {
                            assert(after[j] == before[j]);
                            lemma_seq_map_entry(before, j);
                        } else if j > p {
                            assert(after[j] == before[j - 1]);
                            lemma_seq_map_entry(before, j - 1);
                        }
                    }
                    assert forall|k2: Seq<char>| #[trigger] target.contains_key(k2) implies seq_has(after, k2) by {
                        if k2 == kv {
                            assert(after[p as int].0@ == k2);
                        } else {
                            let j = seq_index(before, k2);
                            if j < p {
                                assert(after[j] == before[j]);
                            } else {
                                assert(after[j + 1] == before[j]);
                            }
                        }
                    }
                    lemma_seq_map_ext(after, target);
                }
            },
        }
    }

    /// Removes the binding of `k`, returning its value.
    pub fn remove(&mut self, k: &str) -> (r: Option<V>)
        requires
            old(self).wf(),
        ensures
            final(self).wf(),
            final(self).view() == old(self).view().remove(k@),
            final(self).entries@.len() == old(self).entries@.len() - (if old(self).view().contains_key(k@) { 1int } else { 0int }),
            match r {
                Some(v) => old(self).view().contains_key(k@) && old(self).view()[k@] == v,
                None => !old(self).view().contains_key(k@),
            },
    {
        let ghost before = self.entries@;
        let ghost target = old(self).view().remove(k@);
        match self.find(k) {
            Some(i) => {
                let (_, v) = self.entries.remove(i);
                proof {
                    let after = self.entries@;
                    assert forall|a: int, b: int| 0 <= a < b < after.len() implies text_lt(#[trigger] after[a].0@, #[trigger] after[b].0@) by {
                        let a0 = if a < i { a } else { a + 1 };
                        let b0 = if b < i { b } else { b + 1 };
                        assert(after[a] == before[a0]);
                        assert(after[b] == before[b0]);
                    }
                    assert forall|j: int| 0 <= j < after.len() implies #[trigger] target.contains_key(after[j].0@)
                        && target[after[j].0@] == after[j].1 by {
                        if j < i {
                            assert(after[j] == before[j]);
                            lemma_seq_map_entry(before, j);
                            assert(before[j].0@ != before[i as int].0@);
                        } else {
                            assert(after[j] == before[j + 1]);
                            lemma_seq_map_entry(before, j + 1);
                            assert(before[j + 1].0@ != before[i as int].0@);
                        }
                    }
                    assert forall|k2: Seq<char>| #[trigger] target.contains_key(k2) implies seq_has(after, k2) by {
                        let j = seq_index(before, k2);
                        if j < i {
                            assert(after[j] == before[j]);
                        } else {
                            assert(j != i);
                            assert(after[j - 1] == before[j]);
                        }
                    }
                    assert forall|a: int, b: int|
                        0 <= a < after.len() && 0 <= b < after.len() && a != b implies #[trigger] after[a].0@
                        != #[trigger] after[b].0@ by {
                        let a0 = if a < i { a } else { a + 1 };
                        let b0 = if b < i { b } else { b + 1 };
                        assert(after[a] == before[a0]);
                        assert(after[b] == before[b0]);
                    }
                    lemma_seq_map_ext(after, target);
                }
                Some(v)
            },
            None => {
                proof {
                    assert(old(self).view().remove(k@) =~= old(self).view());
                }
                None
            },
        }
    }
}

/// Plain items with equality and an order in which sets keep them.
pub trait Ranked: Sized + Copy {
    /// Whether `self` comes strictly before `other` in the order.
    spec fn precedes(&self, other: &Self) -> bool;

    fn same(&self, other: &Self) -> (r: bool)
        ensures
            r == (*self == *other),
    ;

    fn before(&self, other: &Self) -> (r: bool)
        ensures
            r == self.precedes(other),
    ;

    /// `precedes` is a strict total order.
    proof fn lemma_precedes_order(a: Self, b: Self, c: Self)
        ensures
            !a.precedes(&a),
            a != b ==> a.precedes(&b) || b.precedes(&a),
            a.precedes(&b) && b.precedes(&c) ==> a.precedes(&c),
    ;
}

impl Ranked for usize {
    open spec fn precedes(&self, other: &Self) -> bool {
        *self < *other
    }

    fn same(&self, other: &Self) -> (r: bool) {
        *self == *other
    }

    fn before(&self, other: &Self) -> (r: bool) {
        *self < *other
    }

    proof fn lemma_precedes_order(a: Self, b: Self, c: Self) {
    }
}

/// The items come in their order.
pub open spec fn items_sorted<T: Ranked>(s: Seq<T>) -> bool {
    forall|i: int, j: int| #![trigger s[i], s[j]] 0 <= i < j < s.len() ==> s[i].precedes(&s[j])
}

/// A set of plain items, kept in their order.
pub struct ItemSet<T> {
    pub items: Vec<T>,
}

impl<T: Ranked> ItemSet<T> {
    pub open spec fn wf(&self) -> bool {
        self.items@.no_duplicates() && items_sorted(self.items@)
    }

    pub open spec fn view(&self) -> Set<T> {
        self.items@.to_set()
    }

    pub fn new() -> (s: ItemSet<T>)
        ensures
            s.wf(),
            s.view() == Set::<T>::empty(),
            s.items@.len() == 0,
    {
        let s = ItemSet { items: Vec::new() };
        assert(s.view() =~= Set::<T>::empty());
        s
    }

    pub fn len(&self) -> (n: usize)
        ensures
            n == self.items@.len(),
    {
        self.items.len()
    }

    pub fn find(&self, x: &T) -> (r: Option<usize>)
        ensures
            match r {
                Some(i) => i < self.items@.len() && self.items@[i as int] == *x,
                None => !self.view().contains(*x),
            },
    {
        let mut i: usize = 0;
        while i < self.items.len()
            invariant
                i <= self.items@.len(),
                forall|j: int| 0 <= j < i ==> self.items@[j] != *x,
            decreases self.items@.len() - i,
        {
            if self.items[i].same(x) {
                return Some(i);
            }
            i = i + 1;
        }
        None
    }

    pub fn contains(&self, x: &T) -> (r: bool)
        ensures
            r == self.view().contains(*x),
    {
        match self.find(x) {
            Some(i) => {
                proof {
                    assert(self.items@.contains(*x));
                }
                true
            },
            None => false,
        }
    }

    /// Adds `x`; returns whether it was not there before.
    pub fn insert(&mut self, x: T) -> (added: bool)
        requires
            old(self).wf(),
        ensures
            final(self).wf(),
            final(self).view() == old(self).view().insert(x),
            added == !old(self).view().contains(x),
    {
        match self.find(&x) {
            Some(i) => {
                proof {
                    assert(self.items@.contains(x));
                    assert(old(self).view().insert(x) =~= old(self).view());
                }
                false
            },
            None => {
                let mut p: usize = 0;
                while p < self.items.len()
                    invariant
                        p <= self.items@.len(),
                        forall|j: int| #![trigger self.items@[j]] 0 <= j < p ==> !x.precedes(&self.items@[j]),
                    ensures
                        p <= self.items@.len(),
                        forall|j: int| #![trigger self.items@[j]] 0 <= j < p ==> !x.precedes(&self.items@[j]),
                        p < self.items@.len() ==> x.precedes(&self.items@[p as int]),
                    decreases self.items@.len() - p,
                {
                    if x.before(&self.items[p]) {
                        break;
                    }
                    p = p + 1;
                }
                let ghost before = self.items@;
                self.items.insert(p, x);
                proof {
                    let after = self.items@;
                    assert forall|a: int| 0 <= a < p implies before[a].precedes(&x) by {
                        T::lemma_precedes_order(before[a], x, x);
                    }
                    assert forall|a: int| p <= a < before.len() implies x.precedes(&before[a]) by {
                        if a > p {
                            T::lemma_precedes_order(x, before[p as int], before[a]);
                        }
                    }
                    assert forall|a: int, b: int| #![trigger after[a], after[b]] 0 <= a < b < after.len() implies after[a].precedes(&after[b]) by {
                        if b < p {
                            assert(after[a] == before[a] && after[b] == before[b]);
                        } else if b == p {
                            assert(after[a] == before[a]);
                        } else if a < p {
                            assert(after[a] == before[a] && after[b] == before[b - 1]);
                            T::lemma_precedes_order(before[a], x, before[b - 1]);
                        } else if a == p {
                            assert(after[b] == before[b - 1]);
                        } else {
                            assert(after[a] == before[a - 1] && after[b] == before[b - 1]);
                        }
                    }
                    assert forall|a: int, b: int| 0 <= a < after.len() && 0 <= b < after.len() && a != b
                        implies after[a] != after[b] by {
                        let a0 = if a < p { a } else { a - 1 };
                        let b0 = if b < p { b } else { b - 1 };
                        if a != p && b != p {
                            assert(after[a] == before[a0]);
                            assert(after[b] == before[b0]);
                        } else if a == p {
                            assert(after[b] == before[b0]);
                            assert(before.contains(before[b0]));
                        } else {
                            assert(after[a] == before[a0]);
                            assert(before.contains(before[a0]));
                        }
                    }
                    assert forall|y: T| after.to_set().contains(y) == before.to_set().insert(x).contains(y) by {
                        if after.contains(y) {
                            let j = choose|j: int| 0 <= j < after.len() && after[j] == y;
                            if j < p {
                                assert(after[j] == before[j]);
                            } else if j > p {
                                assert(after[j] == before[j - 1]);
                            }
                        }
                        if before.contains(y) {
                            let j = choose|j: int| 0 <= j < before.len() && before[j] == y;
                            if j < p {
                                assert(after[j] == before[j]);
                            } else {
                                assert(after[j + 1] == before[j]);
                            }
                        }
                        if y == x {
                            assert(after[p as int] == x);
                        }
                    }
                    assert(after.to_set() =~= before.to_set().insert(x));
                }
                true
            },
        }
    }

    /// Removes `x` if it is there.
    pub fn remove(&mut self, x: &T)
        requires
            old(self).wf(),
        ensures
            final(self).wf(),
            final(self).view() == old(self).view().remove(*x),
    {
        match self.find(x) {
            Some(i) => {
                let ghost before = self.items@;
                self.items.remove(i);
                proof {
                    let after = self.items@;
                    assert forall|a: int, b: int| #![trigger after[a], after[b]] 0 <= a < b < after.len() implies after[a].precedes(&after[b]) by {
                        let a0 = if a < i { a } else { a + 1 };
                        let b0 = if b < i { b } else { b + 1 };
                        assert(after[a] == before[a0]);
                        assert(after[b] == before[b0]);
                    }
                    assert forall|a: int, b: int| 0 <= a < after.len() && 0 <= b < after.len() && a != b
                        implies after[a] != after[b] by {
                        let a0 = if a < i { a } else { a + 1 };
                        let b0 = if b < i { b } else { b + 1 };
                        assert(after[a] == before[a0]);
                        assert(after[b] == before[b0]);
                    }
                    assert forall|y: T| after.to_set().contains(y) == before.to_set().remove(*x).contains(y) by {
                        if after.contains(y) {
                            let j = choose|j: int| 0 <= j < after.len() && after[j] == y;
                            if j < i {
                                assert(after[j] == before[j]);
                            } else {
                                assert(after[j] == before[j + 1]);
                            }
                        }
                        if before.contains(y) && y != *x {
                            let j = choose|j: int| 0 <= j < before.len() && before[j] == y;
                            if j < i {
                                assert(after[j] == before[j]);
                            } else {
                                assert(j != i);
                                assert(after[j - 1] == before[j]);
                            }
                        }
                    }
                    assert(after.to_set() =~= before.to_set().remove(*x));
                }
            },
            None => {
                proof {
                    assert(old(self).view().remove(*x) =~= old(self).view());
                }
            },
        }
    }
}

/// A copy of a vector of plain items.
pub fn copy_items<T: Copy>(v: &Vec<T>) -> (r: Vec<T>)
    ensures
        r@ == v@,
{
    let mut r: Vec<T> = Vec::new();
    let mut i: usize = 0;
    while i < v.len()
        invariant
            i <= v@.len(),
            r@ == v@.take(i as int),
        decreases v@.len() - i,
    {
        r.push(v[i]);
        i = i + 1;
        proof {
            assert(r@ =~= v@.take(i as int));
        }
    }
    proof {
        assert(r@ =~= v@);
    }
    r
}

} // verus!

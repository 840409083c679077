//! Verified string-keyed containers: an association map that keeps keys in
//! first-insertion order, and a set of distinct strings.
//!
//! Keys are compared by content, the view is a `Map` over character
//! sequences, and iteration order is deterministic — which the merge
//! algebra's contracts depend on.
use vstd::prelude::*;

verus! {

/// The map denoted by a key sequence and a value sequence, position by
/// position.
pub open spec fn map_of<V>(ks: Seq<Seq<char>>, vs: Seq<V>) -> Map<Seq<char>, V>
    decreases ks.len(),
{
    if ks.len() == 0 {
        Map::empty()
    } else {
        map_of(ks.drop_last(), vs).insert(ks.last(), vs[ks.len() - 1])
    }
}

/// No key occurs twice.
pub open spec fn distinct_keys(ks: Seq<Seq<char>>) -> bool {
    forall|i: int, j: int| 0 <= i < j < ks.len() ==> ks[i] != ks[j]
}

/// The key occurs in the sequence.
pub open spec fn has_key(ks: Seq<Seq<char>>, k: Seq<char>) -> bool {
    exists|i: int| 0 <= i < ks.len() && ks[i] == k
}

pub proof fn lemma_map_of<V>(ks: Seq<Seq<char>>, vs: Seq<V>)
    requires
        ks.len() <= vs.len(),
        distinct_keys(ks),
    ensures
        forall|i: int|
            0 <= i < ks.len() ==> map_of(ks, vs).dom().contains(#[trigger] ks[i]) && map_of(
                ks,
                vs,
            )[ks[i]] == vs[i],
        forall|k: Seq<char>|
            #[trigger] map_of(ks, vs).dom().contains(k) ==> exists|i: int|
                0 <= i < ks.len() && ks[i] == k,
    decreases ks.len(),
{
    if ks.len() > 0 {
        lemma_map_of(ks.drop_last(), vs);
        assert forall|i: int|
            0 <= i < ks.len() implies map_of(ks, vs).dom().contains(#[trigger] ks[i]) && map_of(
            ks,
            vs,
        )[ks[i]] == vs[i] by {
            if i < ks.len() - 1 {
                assert(ks.drop_last()[i] == ks[i]);
                assert(map_of(ks.drop_last(), vs).dom().contains(ks.drop_last()[i]));
                assert(ks[i] != ks.last());
            }
        }
        assert forall|k: Seq<char>| #[trigger] map_of(ks, vs).dom().contains(k) implies exists|
            i: int,
        |
            0 <= i < ks.len() && ks[i] == k by {
            if k == ks.last() {
                assert(ks[ks.len() - 1] == k);
            } else {
                assert(map_of(ks.drop_last(), vs).dom().contains(k));
                let i = choose|i: int| 0 <= i < ks.drop_last().len() && ks.drop_last()[i] == k;
                assert(ks.drop_last()[i] == ks[i]);
                assert(ks[i] == k);
            }
        }
    }
}

/// The denoted map reads only the first `ks.len()` values.
pub proof fn lemma_map_of_agree<V>(ks: Seq<Seq<char>>, vs1: Seq<V>, vs2: Seq<V>)
    requires
        forall|i: int| 0 <= i < ks.len() ==> vs1[i] == vs2[i],
    ensures
        map_of(ks, vs1) == map_of(ks, vs2),
    decreases ks.len(),
{
    if ks.len() > 0 {
        lemma_map_of_agree(ks.drop_last(), vs1, vs2);
        assert(map_of(ks, vs1) =~= map_of(ks, vs2));
    }
}

/// Updating one value position updates the denoted map at that key.
pub proof fn lemma_map_of_update<V>(ks: Seq<Seq<char>>, vs: Seq<V>, i: int, v: V)
    requires
        ks.len() <= vs.len(),
        distinct_keys(ks),
        0 <= i < ks.len(),
    ensures
        map_of(ks, vs.update(i, v)) == map_of(ks, vs).insert(ks[i], v),
    decreases ks.len(),
{
    let n = ks.len() as int;
    if i == n - 1 {
        lemma_map_of_agree(ks.drop_last(), vs.update(i, v), vs);
        assert(map_of(ks, vs.update(i, v)) =~= map_of(ks, vs).insert(ks[i], v));
    } else {
        lemma_map_of_update(ks.drop_last(), vs, i, v);
        assert(ks.drop_last()[i] == ks[i]);
        assert(ks[i] != ks.last());
        assert(vs.update(i, v)[n - 1] == vs[n - 1]);
        assert(map_of(ks, vs.update(i, v)) =~= map_of(ks, vs).insert(ks[i], v));
    }
}

/// Pushing a fresh key-value pair inserts it into the denoted map.
pub proof fn lemma_map_of_push<V>(ks: Seq<Seq<char>>, vs: Seq<V>, k: Seq<char>, v: V)
    requires
        ks.len() == vs.len(),
    ensures
        map_of(ks.push(k), vs.push(v)) == map_of(ks, vs).insert(k, v),
{
    assert(ks.push(k).drop_last() =~= ks);
    assert(ks.push(k).last() == k);
    assert(vs.push(v)[ks.len() as int] == v);
    lemma_map_of_agree(ks, vs.push(v), vs);
}

/// Sum of a sequence of counters.
pub open spec fn sum_vals(vs: Seq<usize>) -> nat
    decreases vs.len(),
{
    if vs.len() == 0 {
        0
    } else {
        (sum_vals(vs.drop_last()) + vs.last()) as nat
    }
}

pub proof fn lemma_sum_update(vs: Seq<usize>, i: int, v: usize)
    requires
        0 <= i < vs.len(),
    ensures
        sum_vals(vs.update(i, v)) == sum_vals(vs) - vs[i] + v,
    decreases vs.len(),
{
    let n = vs.len() as int;
    if i == n - 1 {
        assert(vs.update(i, v).drop_last() =~= vs.drop_last());
    } else {
        lemma_sum_update(vs.drop_last(), i, v);
        assert(vs.update(i, v).drop_last() =~= vs.drop_last().update(i, v));
        assert(vs.update(i, v).last() == vs.last());
    }
}

pub proof fn lemma_sum_push(vs: Seq<usize>, v: usize)
    ensures
        sum_vals(vs.push(v)) == sum_vals(vs) + v,
{
    assert(vs.push(v).drop_last() =~= vs);
}

pub proof fn lemma_sum_take_step(vs: Seq<usize>, i: int)
    requires
        0 <= i < vs.len(),
    ensures
        sum_vals(vs.take(i + 1)) == sum_vals(vs.take(i)) + vs[i],
{
    assert(vs.take(i + 1).drop_last() =~= vs.take(i));
    assert(vs.take(i + 1).last() == vs[i]);
}

pub proof fn lemma_sum_take_le(vs: Seq<usize>, i: int)
    requires
        0 <= i <= vs.len(),
    ensures
        sum_vals(vs.take(i)) <= sum_vals(vs),
    decreases vs.len() - i,
{
    if i == vs.len() {
        assert(vs.take(i) =~= vs);
    } else {
        lemma_sum_take_step(vs, i);
        lemma_sum_take_le(vs, i + 1);
    }
}

/// Every counter is bounded by the sum.
pub proof fn lemma_sum_bounds(vs: Seq<usize>)
    ensures
        forall|i: int| 0 <= i < vs.len() ==> vs[i] <= sum_vals(vs),
    decreases vs.len(),
{
    if vs.len() > 0 {
        lemma_sum_bounds(vs.drop_last());
        assert forall|i: int| 0 <= i < vs.len() implies vs[i] <= sum_vals(vs) by {
            if i < vs.len() - 1 {
                assert(vs.drop_last()[i] == vs[i]);
            }
        }
    }
}

/// No counter exceeds the sum of all counters.
pub proof fn lemma_get_le_total(m: &KvMap<usize>)
    requires
        m.wf(),
    ensures
        forall|k: Seq<char>|
            #[trigger] m.as_map().dom().contains(k) ==> m.as_map()[k] <= m.total(),
{
    lemma_map_of(m.key_seq(), m.val_seq());
    lemma_sum_bounds(m.val_seq());
    assert forall|k: Seq<char>| #[trigger] m.as_map().dom().contains(k) implies m.as_map()[k]
        <= m.total() by {
        let i = choose|i: int| 0 <= i < m.key_seq().len() && m.key_seq()[i] == k;
        assert(m.as_map()[m.key_seq()[i]] == m.val_seq()[i]);
        assert(m.val_seq()[i] <= sum_vals(m.val_seq()));
    }
}

/// The state of building a string map: the keys inserted so far, in order,
/// and the map built so far.
pub struct FlatState {
    pub ks: Seq<Seq<char>>,
    pub m: Map<Seq<char>, Seq<char>>,
}

/// One insertion: replaces the value, records a fresh key at the back.
pub open spec fn flat_insert(st: FlatState, k: Seq<char>, v: Seq<char>) -> FlatState {
    FlatState {
        ks: if has_key(st.ks, k) {
            st.ks
        } else {
            st.ks.push(k)
        },
        m: st.m.insert(k, v),
    }
}

/// An association map from strings to values, keyed by string content, with
/// keys kept in first-insertion order.
pub struct KvMap<V> {
    pub keys: Vec<String>,
    pub vals: Vec<V>,
}

impl<V> KvMap<V> {
    /// The keys, in first-insertion order.
    pub open spec fn key_seq(&self) -> Seq<Seq<char>> {
        self.keys.deep_view()
    }

    /// The values, in the same order as the keys.
    pub open spec fn val_seq(&self) -> Seq<V> {
        self.vals@
    }

    /// Keys are distinct and aligned with the values.
    pub open spec fn wf(&self) -> bool {
        &&& self.keys@.len() == self.vals@.len()
        &&& distinct_keys(self.key_seq())
    }

    /// The map this container denotes.
    pub open spec fn as_map(&self) -> Map<Seq<char>, V> {
        map_of(self.key_seq(), self.val_seq())
    }

    pub open spec fn spec_contains(&self, k: Seq<char>) -> bool {
        has_key(self.key_seq(), k)
    }

    pub fn new() -> (r: KvMap<V>)
        ensures
            r.wf(),
            r.key_seq() =~= Seq::<Seq<char>>::empty(),
            r.val_seq() =~= Seq::<V>::empty(),
            r.as_map() =~= Map::<Seq<char>, V>::empty(),
    {
        let r = KvMap { keys: Vec::new(), vals: Vec::new() };
        proof {
            assert(r.keys.deep_view() =~= Seq::<Seq<char>>::empty());
        }
        r
    }

    pub fn len(&self) -> (r: usize)
        requires
            self.wf(),
        ensures
            r == self.key_seq().len(),
    {
        self.keys.len()
    }

    pub fn is_empty(&self) -> (r: bool)
        requires
            self.wf(),
        ensures
            r == (self.key_seq().len() == 0),
    {
        self.keys.is_empty()
    }

    /// The position of a key, if present.
    fn find(&self, key: &str) -> (r: Option<usize>)
        requires
            self.wf(),
        ensures
            match r {
                Some(i) => i < self.key_seq().len() && self.key_seq()[i as int] == key@,
                None => !self.spec_contains(key@),
            },
    {
        let n = self.keys.len();
        let mut i: usize = 0;
        while i < n
            invariant
                0 <= i <= n,
                n == self.keys@.len(),
                forall|j: int| 0 <= j < i ==> self.key_seq()[j] != key@,
            decreases n - i,
        {
            assert(self.key_seq()[i as int] == self.keys@[i as int]@);
            if crate::text::str_eq(self.keys[i].as_str(), key) {
                return Some(i);
            }
            i += 1;
        }
        None
    }

    /// Looks a key up by content.
    pub fn get(&self, key: &str) -> (r: Option<&V>)
        requires
            self.wf(),
        ensures
            match r {
                Some(v) => self.as_map().dom().contains(key@) && *v == self.as_map()[key@],
                None => !self.as_map().dom().contains(key@),
            },
    {
        proof {
            lemma_map_of(self.key_seq(), self.val_seq());
        }
        match self.find(key) {
            Some(i) => Some(&self.vals[i]),
            None => None,
        }
    }

    pub fn contains_key(&self, key: &str) -> (r: bool)
        requires
            self.wf(),
        ensures
            r == self.as_map().dom().contains(key@),
    {
        self.get(key).is_some()
    }

    /// The key at a position, in first-insertion order.
    pub fn key_at(&self, i: usize) -> (r: &String)
        requires
            self.wf(),
            i < self.key_seq().len(),
        ensures
            r@ == self.key_seq()[i as int],
    {
        &self.keys[i]
    }

    /// The value at a position, in first-insertion order.
    pub fn val_at(&self, i: usize) -> (r: &V)
        requires
            self.wf(),
            i < self.key_seq().len(),
        ensures
            *r == self.val_seq()[i as int],
            self.as_map().dom().contains(self.key_seq()[i as int]),
            *r == self.as_map()[self.key_seq()[i as int]],
    {
        proof {
            lemma_map_of(self.key_seq(), self.val_seq());
        }
        &self.vals[i]
    }

    /// Inserts or replaces the value under a key.
    pub fn insert(&mut self, key: &str, v: V)
        requires
            old(self).wf(),
        ensures
            final(self).wf(),
            final(self).as_map() == old(self).as_map().insert(key@, v),
            final(self).key_seq() == if old(self).spec_contains(key@) {
                old(self).key_seq()
            } else {
                old(self).key_seq().push(key@)
            },
    {
        match self.find(key) {
            Some(i) => {
                proof {
                    lemma_map_of_update(self.key_seq(), self.val_seq(), i as int, v);
                }
                self.vals[i] = v;
                proof {
                    assert(self.key_seq() =~= old(self).key_seq());
                }
            },
            None => {
                proof {
                    lemma_map_of_push(self.key_seq(), self.val_seq(), key@, v);
                }
                self.keys.push(key.to_owned());
                self.vals.push(v);
                proof {
                    assert(self.key_seq() =~= old(self).key_seq().push(key@));
                    lemma_map_of_agree(old(self).key_seq(), self.val_seq(), old(self).val_seq());
                    assert forall|i: int, j: int|
                        0 <= i < j < self.key_seq().len() implies self.key_seq()[i]
                        != self.key_seq()[j] by {
                        if j < self.key_seq().len() - 1 {
                            assert(old(self).key_seq()[i] != old(self).key_seq()[j]);
                        } else {
                            assert(self.key_seq()[j] == key@);
                        }
                    }
                }
            },
        }
    }
}

impl KvMap<usize> {
    /// The value under a key, zero when absent.
    pub open spec fn spec_get(&self, k: Seq<char>) -> nat {
        if self.as_map().dom().contains(k) {
            self.as_map()[k] as nat
        } else {
            0
        }
    }

    /// Sum of all counters.
    pub open spec fn total(&self) -> nat {
        sum_vals(self.val_seq())
    }

    /// Adds `by` to the counter under a key, starting it at zero.
    pub fn bump(&mut self, key: &str, by: usize)
        requires
            old(self).wf(),
            old(self).spec_get(key@) + by <= usize::MAX,
        ensures
            final(self).wf(),
            final(self).as_map() == old(self).as_map().insert(
                key@,
                (old(self).spec_get(key@) + by) as usize,
            ),
            final(self).key_seq() == if old(self).spec_contains(key@) {
                old(self).key_seq()
            } else {
                old(self).key_seq().push(key@)
            },
            final(self).total() == old(self).total() + by,
    {
        proof {
            lemma_map_of(self.key_seq(), self.val_seq());
        }
        match self.find(key) {
            Some(i) => {
                proof {
                    lemma_map_of_update(self.key_seq(), self.val_seq(), i as int, (self.vals@[
                        i as int] + by) as usize);
                    lemma_sum_update(self.val_seq(), i as int, (self.vals@[i as int] + by) as usize);
                    lemma_sum_bounds(self.val_seq());
                }
                let cur = self.vals[i];
                self.vals[i] = cur + by;
                proof {
                    assert(self.key_seq() =~= old(self).key_seq());
                    assert(old(self).as_map()[key@] == old(self).val_seq()[i as int]);
                    assert(old(self).key_seq()[i as int] == key@);
                    assert(final(self).as_map() =~= old(self).as_map().insert(
                        key@,
                        (old(self).spec_get(key@) + by) as usize,
                    ));
                }
            },
            None => {
                proof {
                    lemma_map_of_push(self.key_seq(), self.val_seq(), key@, by);
                    lemma_sum_push(self.val_seq(), by);
                }
                self.keys.push(key.to_owned());
                self.vals.push(by);
                proof {
                    assert(self.key_seq() =~= old(self).key_seq().push(key@));
                    lemma_map_of_agree(old(self).key_seq(), self.val_seq(), old(self).val_seq());
                    assert forall|i: int, j: int|
                        0 <= i < j < self.key_seq().len() implies self.key_seq()[i]
                        != self.key_seq()[j] by {
                        if j < self.key_seq().len() - 1 {
                            assert(old(self).key_seq()[i] != old(self).key_seq()[j]);
                        } else {
                            assert(self.key_seq()[j] == key@);
                        }
                    }
                }
            },
        }
    }
}

/// The set denoted by a sequence of items.
pub open spec fn set_of(items: Seq<Seq<char>>) -> Set<Seq<char>>
    decreases items.len(),
{
    if items.len() == 0 {
        Set::empty()
    } else {
        set_of(items.drop_last()).insert(items.last())
    }
}

pub proof fn lemma_set_of(items: Seq<Seq<char>>)
    ensures
        forall|i: int| 0 <= i < items.len() ==> set_of(items).contains(#[trigger] items[i]),
        forall|k: Seq<char>|
            #[trigger] set_of(items).contains(k) ==> exists|i: int|
                0 <= i < items.len() && items[i] == k,
    decreases items.len(),
{
    if items.len() > 0 {
        lemma_set_of(items.drop_last());
        assert forall|i: int| 0 <= i < items.len() implies set_of(items).contains(
            #[trigger] items[i],
        ) by {
            if i < items.len() - 1 {
                assert(items.drop_last()[i] == items[i]);
                assert(set_of(items.drop_last()).contains(items.drop_last()[i]));
            }
        }
        assert forall|k: Seq<char>| #[trigger] set_of(items).contains(k) implies exists|i: int|
            0 <= i < items.len() && items[i] == k by {
            if k == items.last() {
                assert(items[items.len() - 1] == k);
            } else {
                assert(set_of(items.drop_last()).contains(k));
                let i = choose|i: int|
                    0 <= i < items.drop_last().len() && items.drop_last()[i] == k;
                assert(items.drop_last()[i] == items[i]);
                assert(items[i] == k);
            }
        }
    }
}

pub proof fn lemma_set_of_push(items: Seq<Seq<char>>, k: Seq<char>)
    ensures
        set_of(items.push(k)) == set_of(items).insert(k),
{
    assert(items.push(k).drop_last() =~= items);
}

/// A set of distinct strings, in first-insertion order.
pub struct StrSet {
    pub items: Vec<String>,
}

impl StrSet {
    /// The items, in first-insertion order.
    pub open spec fn item_seq(&self) -> Seq<Seq<char>> {
        self.items.deep_view()
    }

    pub open spec fn wf(&self) -> bool {
        distinct_keys(self.item_seq())
    }

    /// The set this container denotes.
    pub open spec fn as_set(&self) -> Set<Seq<char>> {
        set_of(self.item_seq())
    }

    pub fn new() -> (r: StrSet)
        ensures
            r.wf(),
            r.item_seq() =~= Seq::<Seq<char>>::empty(),
            r.as_set() =~= Set::<Seq<char>>::empty(),
    {
        let r = StrSet { items: Vec::new() };
        proof {
            assert(r.items.deep_view() =~= Seq::<Seq<char>>::empty());
        }
        r
    }

    pub fn len(&self) -> (r: usize)
        ensures
            r == self.item_seq().len(),
    {
        self.items.len()
    }

    pub fn contains(&self, key: &str) -> (r: bool)
        ensures
            r == self.as_set().contains(key@),
    {
        proof {
            lemma_set_of(self.item_seq());
        }
        let n = self.items.len();
        let mut i: usize = 0;
        while i < n
            invariant
                0 <= i <= n,
                n == self.items@.len(),
                forall|j: int| 0 <= j < i ==> self.item_seq()[j] != key@,
            decreases n - i,
        {
            proof {
                lemma_set_of(self.item_seq());
            }
            assert(self.item_seq()[i as int] == self.items@[i as int]@);
            if crate::text::str_eq(self.items[i].as_str(), key) {
                assert(self.as_set().contains(self.item_seq()[i as int]));
                return true;
            }
            i += 1;
        }
        false
    }

    /// The item at a position, in first-insertion order.
    pub fn item_at(&self, i: usize) -> (r: &String)
        requires
            i < self.item_seq().len(),
        ensures
            r@ == self.item_seq()[i as int],
    {
        &self.items[i]
    }

    /// Inserts a string; a string already present is not duplicated.
    pub fn insert(&mut self, key: String)
        requires
            old(self).wf(),
        ensures
            final(self).wf(),
            final(self).as_set() == old(self).as_set().insert(key@),
            final(self).item_seq() == if old(self).as_set().contains(key@) {
                old(self).item_seq()
            } else {
                old(self).item_seq().push(key@)
            },
    {
        if self.contains(key.as_str()) {
            proof {
                assert(final(self).as_set() =~= old(self).as_set().insert(key@));
            }
        } else {
            proof {
                lemma_set_of_push(self.item_seq(), key@);
                lemma_set_of(self.item_seq());
            }
            self.items.push(key);
            proof {
                assert(self.item_seq() =~= old(self).item_seq().push(key@));
                assert forall|i: int, j: int|
                    0 <= i < j < self.item_seq().len() implies self.item_seq()[i]
                    != self.item_seq()[j] by {
                    if j < self.item_seq().len() - 1 {
                        assert(old(self).item_seq()[i] != old(self).item_seq()[j]);
                    } else {
                        assert(self.item_seq()[j] == key@);
                    }
                }
            }
        }
    }
}

} // verus!

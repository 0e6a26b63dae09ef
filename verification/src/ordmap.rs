//! A map kept as a vector of entries in strictly increasing key order.
use vstd::prelude::*;

verus! {

/// Keys that are ordered by an integer rank.
pub trait OrderedKey: Copy {
    spec fn rank(self) -> int;

    proof fn rank_injective(left: Self, right: Self)
        requires
            left.rank() == right.rank(),
        ensures
            left == right,
    ;

    fn precedes(&self, other: &Self) -> (before: bool)
        ensures
            before == (self.rank() < other.rank()),
    ;
}

impl OrderedKey for u64 {
    open spec fn rank(self) -> int {
        self as int
    }

    proof fn rank_injective(left: Self, right: Self) {
    }

    fn precedes(&self, other: &Self) -> (before: bool) {
        *self < *other
    }
}

pub struct OrderedMap<K, V> {
    pub entries: Vec<(K, V)>,
}

/// Whether the keys of `entries` strictly increase.
pub open spec fn ordered<K: OrderedKey, V>(entries: Seq<(K, V)>) -> bool {
    forall|i: int, j: int|
        0 <= i < j < entries.len() ==> (#[trigger] entries[i]).0.rank() < (
        #[trigger] entries[j]).0.rank()
}

/// Whether some entry has the key.
pub open spec fn has_key<K, V>(entries: Seq<(K, V)>, key: K) -> bool {
    exists|i: int| 0 <= i < entries.len() && (#[trigger] entries[i]).0 == key
}

/// The position of the entry with the key.
pub open spec fn key_index<K, V>(entries: Seq<(K, V)>, key: K) -> int {
    choose|i: int| 0 <= i < entries.len() && (#[trigger] entries[i]).0 == key
}

pub open spec fn as_map<K, V>(entries: Seq<(K, V)>) -> Map<K, V> {
    Map::new(|key: K| has_key(entries, key), |key: K| entries[key_index(entries, key)].1)
}

impl<K: OrderedKey, V> View for OrderedMap<K, V> {
    type V = Map<K, V>;

    open spec fn view(&self) -> Map<K, V> {
        as_map(self.entries@)
    }
}

/// In an ordered sequence the entry of a key is the only one.
pub(crate) proof fn lookup_at<K: OrderedKey, V>(entries: Seq<(K, V)>, i: int)
    requires
        ordered(entries),
        0 <= i < entries.len(),
    ensures
        has_key(entries, entries[i].0),
        key_index(entries, entries[i].0) == i,
        as_map(entries).contains_key(entries[i].0),
        as_map(entries)[entries[i].0] == entries[i].1,
{
    let key = entries[i].0;
    assert(entries[i].0 == key);
    let j = key_index(entries, key);
    assert(0 <= j < entries.len() && entries[j].0 == key);
    if j < i {
        assert(entries[j].0.rank() < entries[i].0.rank());
    } else if i < j {
        assert(entries[i].0.rank() < entries[j].0.rank());
    }
}

/// Replacing the value at a position is an insertion at its key.
pub(crate) proof fn update_is_insert<K: OrderedKey, V>(entries: Seq<(K, V)>, i: int, value: V)
    requires
        ordered(entries),
        0 <= i < entries.len(),
    ensures
        ordered(entries.update(i, (entries[i].0, value))),
        as_map(entries.update(i, (entries[i].0, value))) == as_map(entries).insert(
            entries[i].0,
            value,
        ),
{
    let key = entries[i].0;
    let next = entries.update(i, (key, value));
    assert(ordered(next));
    assert forall|k: K| #[trigger] as_map(next).contains_key(k) == as_map(entries).insert(
        key,
        value,
    ).contains_key(k) by {
        if has_key(entries, k) {
            let j = key_index(entries, k);
            assert(next[j].0 == k);
        }
        if has_key(next, k) {
            let j = key_index(next, k);
            assert(entries[j].0 == k);
        }
        assert(next[i].0 == key);
    }
    assert forall|k: K| #[trigger] as_map(next).contains_key(k) implies as_map(next)[k] == as_map(
        entries,
    ).insert(key, value)[k] by {
        let j = key_index(next, k);
        lookup_at(next, j);
        lookup_at(entries, j);
        lookup_at(next, i);
    }
    assert(as_map(next) =~= as_map(entries).insert(key, value));
}

/// Placing a fresh key between its neighbours is an insertion.
pub(crate) proof fn place_is_insert<K: OrderedKey, V>(entries: Seq<(K, V)>, i: int, key: K, value: V)
    requires
        ordered(entries),
        0 <= i <= entries.len(),
        forall|j: int| 0 <= j < i ==> (#[trigger] entries[j]).0.rank() < key.rank(),
        forall|j: int| i <= j < entries.len() ==> key.rank() < (#[trigger] entries[j]).0.rank(),
    ensures
        !as_map(entries).contains_key(key),
        ordered(entries.insert(i, (key, value))),
        as_map(entries.insert(i, (key, value))) == as_map(entries).insert(key, value),
{
    let next = entries.insert(i, (key, value));
    assert(forall|j: int|
        0 <= j < next.len() ==> #[trigger] next[j] == (if j < i {
            entries[j]
        } else if j == i {
            (key, value)
        } else {
            entries[j - 1]
        }));
    assert(ordered(next));
    assert(!has_key(entries, key)) by {
        if has_key(entries, key) {
            let j = key_index(entries, key);
            assert(entries[j].0 == key);
        }
    }
    assert forall|k: K| #[trigger] as_map(next).contains_key(k) == as_map(entries).insert(
        key,
        value,
    ).contains_key(k) by {
        if has_key(entries, k) {
            let j = key_index(entries, k);
            assert(entries[j].0 == k);
            let target = if j < i {
                j
            } else {
                j + 1
            };
            assert(next[target].0 == k);
        }
        if has_key(next, k) {
            let j = key_index(next, k);
            assert(next[j].0 == k);
            if j < i {
                assert(entries[j].0 == k);
            } else if j > i {
                assert(entries[j - 1].0 == k);
            }
        }
        assert(next[i].0 == key);
    }
    assert forall|k: K| #[trigger] as_map(next).contains_key(k) implies as_map(next)[k] == as_map(
        entries,
    ).insert(key, value)[k] by {
        let j = key_index(next, k);
        assert(next[j].0 == k);
        lookup_at(next, j);
        if j < i {
            lookup_at(entries, j);
        } else if j > i {
            lookup_at(entries, j - 1);
        }
    }
    assert(as_map(next) =~= as_map(entries).insert(key, value));
}

/// Dropping a position is a removal of its key.
pub(crate) proof fn drop_is_remove<K: OrderedKey, V>(entries: Seq<(K, V)>, i: int)
    requires
        ordered(entries),
        0 <= i < entries.len(),
    ensures
        ordered(entries.remove(i)),
        as_map(entries.remove(i)) == as_map(entries).remove(entries[i].0),
{
    let key = entries[i].0;
    let next = entries.remove(i);
    assert(forall|j: int|
        0 <= j < next.len() ==> #[trigger] next[j] == (if j < i {
            entries[j]
        } else {
            entries[j + 1]
        }));
    assert(ordered(next));
    assert forall|k: K| #[trigger] as_map(next).contains_key(k) == as_map(entries).remove(
        key,
    ).contains_key(k) by {
        if has_key(entries, k) && k != key {
            let j = key_index(entries, k);
            assert(entries[j].0 == k);
            let target = if j < i {
                j
            } else {
                j - 1
            };
            assert(next[target].0 == k);
        }
        if has_key(next, k) {
            let j = key_index(next, k);
            assert(next[j].0 == k);
            let source = if j < i {
                j
            } else {
                j + 1
            };
            assert(entries[source].0 == k);
            lookup_at(entries, source);
            lookup_at(entries, i);
        }
    }
    assert forall|k: K| #[trigger] as_map(next).contains_key(k) implies as_map(next)[k] == as_map(
        entries,
    ).remove(key)[k] by {
        let j = key_index(next, k);
        assert(next[j].0 == k);
        lookup_at(next, j);
        if j < i {
            lookup_at(entries, j);
        } else {
            lookup_at(entries, j + 1);
        }
    }
    assert(as_map(next) =~= as_map(entries).remove(key));
}

impl<K: OrderedKey, V> OrderedMap<K, V> {
    pub open spec fn wf(&self) -> bool {
        ordered(self.entries@)
    }

    pub fn new() -> (map: Self)
        ensures
            map.wf(),
            map.entries@.len() == 0,
            map@ == Map::<K, V>::empty(),
    {
        let map = OrderedMap { entries: Vec::new() };
        assert(map@ =~= Map::<K, V>::empty());
        map
    }

    pub fn len(&self) -> (len: usize)
        ensures
            len == self.entries@.len(),
    {
        self.entries.len()
    }

    /// The first position whose key does not precede `key`.
    pub fn position(&self, key: &K) -> (at: usize)
        requires
            self.wf(),
        ensures
            at <= self.entries@.len(),
            forall|j: int| 0 <= j < at ==> (#[trigger] self.entries@[j]).0.rank() < key.rank(),
            forall|j: int|
                at <= j < self.entries@.len() ==> key.rank() <= (
                #[trigger] self.entries@[j]).0.rank(),
    {
        let mut low: usize = 0;
        let mut high: usize = self.entries.len();
        while low < high
            invariant
                self.wf(),
                low <= high <= self.entries@.len(),
                forall|j: int|
                    0 <= j < low ==> (#[trigger] self.entries@[j]).0.rank() < key.rank(),
                forall|j: int|
                    high <= j < self.entries@.len() ==> key.rank() <= (
                    #[trigger] self.entries@[j]).0.rank(),
            decreases high - low,
        {
            let middle: usize = low + (high - low) / 2;
            let entry = &self.entries[middle];
            if entry.0.precedes(key) {
                assert forall|j: int| 0 <= j < middle + 1 implies (
                #[trigger] self.entries@[j]).0.rank() < key.rank() by {
                    if j < middle {
                        assert(self.entries@[j].0.rank() < self.entries@[middle as int].0.rank());
                    }
                }
                low = middle + 1;
            } else {
                assert forall|j: int| middle <= j < self.entries@.len() implies key.rank() <= (
                #[trigger] self.entries@[j]).0.rank() by {
                    if middle < j {
                        assert(self.entries@[middle as int].0.rank() < self.entries@[j].0.rank());
                    }
                }
                high = middle;
            }
        }
        low
    }

    /// The position of `key`, if it is present.
    pub fn find(&self, key: &K) -> (found: Option<usize>)
        requires
            self.wf(),
        ensures
            match found {
                Some(at) => at < self.entries@.len() && self.entries@[at as int].0 == *key
                    && self@.contains_key(*key) && self@[*key] == self.entries@[at as int].1,
                None => !self@.contains_key(*key),
            },
    {
        let at: usize = self.position(key);
        if at < self.entries.len() && !key.precedes(&self.entries[at].0) {
            proof {
                K::rank_injective(self.entries@[at as int].0, *key);
                lookup_at(self.entries@, at as int);
            }
            Some(at)
        } else {
            proof {
                if self@.contains_key(*key) {
                    let j = key_index(self.entries@, *key);
                    assert(self.entries@[j].0 == *key);
                    if at < self.entries@.len() && at < j {
                        assert(self.entries@[at as int].0.rank() < self.entries@[j].0.rank());
                    }
                }
            }
            None
        }
    }

    pub fn contains_key(&self, key: &K) -> (present: bool)
        requires
            self.wf(),
        ensures
            present == self@.contains_key(*key),
    {
        self.find(key).is_some()
    }

    pub fn get(&self, key: &K) -> (value: Option<&V>)
        requires
            self.wf(),
        ensures
            match value {
                Some(v) => self@.contains_key(*key) && *v == self@[*key],
                None => !self@.contains_key(*key),
            },
    {
        match self.find(key) {
            Some(at) => Some(&self.entries[at].1),
            None => None,
        }
    }

    /// The value at a position, for update in place.
    pub fn value_mut(&mut self, at: usize) -> (value: &mut V)
        requires
            old(self).wf(),
            at < old(self).entries@.len(),
        ensures
            *value == old(self).entries@[at as int].1,
            final(self).entries@ == old(self).entries@.update(
                at as int,
                (old(self).entries@[at as int].0, *final(value)),
            ),
    {
        &mut self.entries[at].1
    }

    /// Removes the entry with the least key.
    pub fn remove_first(&mut self)
        requires
            old(self).wf(),
            old(self).entries@.len() > 0,
        ensures
            final(self).wf(),
            final(self).entries@ == old(self).entries@.remove(0),
            final(self)@ == old(self)@.remove(old(self).entries@[0].0),
    {
        proof {
            drop_is_remove(self.entries@, 0);
        }
        self.entries.remove(0);
    }

    /// Sets the value of `key`.
    pub fn insert(&mut self, key: K, value: V)
        requires
            old(self).wf(),
        ensures
            final(self).wf(),
            final(self)@ == old(self)@.insert(key, value),
            old(self)@.contains_key(key) ==> final(self).entries@.len() == old(
                self,
            ).entries@.len(),
            !old(self)@.contains_key(key) ==> final(self).entries@.len() == old(
                self,
            ).entries@.len() + 1,
            final(self).entries@ == placed(old(self).entries@, key, value),
    {
        let at: usize = self.position(&key);
        proof {
            placed_at(self.entries@, at as int, key, value);
        }
        if at < self.entries.len() && !key.precedes(&self.entries[at].0) {
            proof {
                K::rank_injective(self.entries@[at as int].0, key);
                lookup_at(self.entries@, at as int);
                update_is_insert(self.entries@, at as int, value);
            }
            self.entries[at] = (key, value);
        } else {
            proof {
                place_is_insert(self.entries@, at as int, key, value);
            }
            self.entries.insert(at, (key, value));
        }
    }
}

/// The entries after `key` was set to `value`, in key order.
pub open spec fn placed<K: OrderedKey, V>(entries: Seq<(K, V)>, key: K, value: V) -> Seq<(K, V)>
    decreases entries.len(),
{
    if entries.len() == 0 {
        seq![(key, value)]
    } else if entries.last().0.rank() < key.rank() {
        entries.push((key, value))
    } else if entries.last().0.rank() == key.rank() {
        entries.drop_last().push((key, value))
    } else {
        placed(entries.drop_last(), key, value).push(entries.last())
    }
}

proof fn placed_at<K: OrderedKey, V>(entries: Seq<(K, V)>, at: int, key: K, value: V)
    requires
        ordered(entries),
        0 <= at <= entries.len(),
        forall|j: int| 0 <= j < at ==> (#[trigger] entries[j]).0.rank() < key.rank(),
        forall|j: int| at <= j < entries.len() ==> key.rank() <= (#[trigger] entries[j]).0.rank(),
    ensures
        at < entries.len() && entries[at].0.rank() == key.rank() ==> placed(entries, key, value)
            == entries.update(at, (key, value)),
        !(at < entries.len() && entries[at].0.rank() == key.rank()) ==> placed(entries, key, value)
            == entries.insert(at, (key, value)),
    decreases entries.len(),
{
    if entries.len() == 0 {
        assert(entries.insert(at, (key, value)) =~= seq![(key, value)]);
    } else if entries.last().0.rank() < key.rank() {
        assert(at == entries.len());
        assert(entries.insert(at, (key, value)) =~= entries.push((key, value)));
    } else if entries.last().0.rank() == key.rank() {
        assert(at == entries.len() - 1) by {
            assert(at < entries.len());
            if at < entries.len() - 1 {
                assert(entries[at].0.rank() < entries[entries.len() - 1].0.rank());
            }
        }
        assert(entries.update(at, (key, value)) =~= entries.drop_last().push((key, value)));
    } else {
        assert(at < entries.len());
        let rest = entries.drop_last();
        assert(ordered(rest));
        placed_at(rest, at, key, value);
        if at < rest.len() && rest[at].0.rank() == key.rank() {
            assert(entries.update(at, (key, value)) =~= rest.update(at, (key, value)).push(
                entries.last(),
            ));
        } else {
            assert(entries.insert(at, (key, value)) =~= rest.insert(at, (key, value)).push(
                entries.last(),
            ));
        }
    }
}

/// Where a key stands, or would stand, among ordered entries.
proof fn place_of<K: OrderedKey, V>(entries: Seq<(K, V)>, key: K) -> (at: int)
    requires
        ordered(entries),
    ensures
        0 <= at <= entries.len(),
        forall|j: int| 0 <= j < at ==> (#[trigger] entries[j]).0.rank() < key.rank(),
        forall|j: int| at <= j < entries.len() ==> key.rank() <= (#[trigger] entries[j]).0.rank(),
    decreases entries.len(),
{
    if entries.len() == 0 {
        0
    } else if entries.last().0.rank() < key.rank() {
        assert forall|j: int| 0 <= j < entries.len() implies (#[trigger] entries[j]).0.rank()
            < key.rank() by {
            if j < entries.len() - 1 {
                assert(entries[j].0.rank() < entries[entries.len() - 1].0.rank());
            }
        }
        entries.len() as int
    } else {
        let front = entries.drop_last();
        assert(ordered(front)) by {
            assert forall|i: int, j: int| 0 <= i < j < front.len() implies (
            #[trigger] front[i]).0.rank() < (#[trigger] front[j]).0.rank() by {
                assert(entries[i].0.rank() < entries[j].0.rank());
            }
        }
        let at = place_of(front, key);
        assert forall|j: int| 0 <= j < at implies (#[trigger] entries[j]).0.rank()
            < key.rank() by {
            assert(front[j].0.rank() < key.rank());
        }
        assert forall|j: int| at <= j < entries.len() implies key.rank() <= (
        #[trigger] entries[j]).0.rank() by {
            if j < front.len() {
                assert(key.rank() <= front[j].0.rank());
            }
        }
        at
    }
}

/// Setting a key keeps the order and changes the map at that key alone.
pub(crate) proof fn placed_is_insert<K: OrderedKey, V>(entries: Seq<(K, V)>, key: K, value: V)
    requires
        ordered(entries),
    ensures
        ordered(placed(entries, key, value)),
        as_map(placed(entries, key, value)) == as_map(entries).insert(key, value),
{
    let at = place_of(entries, key);
    placed_at(entries, at, key, value);
    if at < entries.len() && entries[at].0.rank() == key.rank() {
        K::rank_injective(entries[at].0, key);
        update_is_insert(entries, at, value);
    } else {
        assert forall|j: int| at <= j < entries.len() implies key.rank() < (
        #[trigger] entries[j]).0.rank() by {
            if j > at {
                assert(entries[at].0.rank() < entries[j].0.rank());
            }
        }
        place_is_insert(entries, at, key, value);
    }
}

} // verus!

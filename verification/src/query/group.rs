//! Splitting a list of keys by table, and putting the answers back in place.
use vstd::prelude::*;

use super::batch;
use crate::error::{self, Error, Result};
use crate::ordmap::OrderedKey;
use crate::types::{StreamKey, TableId};

verus! {

/// Ordered keys with one more among them, unless it is there already.
pub open spec fn with_key(sorted: Seq<StreamKey>, key: StreamKey) -> Seq<StreamKey>
    decreases sorted.len(),
{
    if sorted.len() == 0 || sorted.last().rank() < key.rank() {
        sorted.push(key)
    } else if sorted.last().rank() == key.rank() {
        sorted
    } else {
        with_key(sorted.drop_last(), key).push(sorted.last())
    }
}

/// The distinct keys in order.
pub open spec fn sorted_keys(keys: Seq<StreamKey>) -> Seq<StreamKey>
    decreases keys.len(),
{
    if keys.len() == 0 {
        Seq::empty()
    } else {
        with_key(sorted_keys(keys.drop_last()), keys.last())
    }
}

/// The positions at which the key stands, in order.
pub open spec fn positions(keys: Seq<StreamKey>, key: StreamKey) -> Seq<usize>
    decreases keys.len(),
{
    if keys.len() == 0 {
        Seq::empty()
    } else {
        let earlier = positions(keys.drop_last(), key);
        if keys.last() == key {
            earlier.push((keys.len() - 1) as usize)
        } else {
            earlier
        }
    }
}

/// Where the keys of the table at `from` end.
pub open spec fn run_end(sorted: Seq<StreamKey>, table: TableId, from: int) -> int
    decreases sorted.len() - from,
{
    if from < 0 || from >= sorted.len() || sorted[from].table != table {
        from
    } else {
        run_end(sorted, table, from + 1)
    }
}

pub proof fn run_end_facts(sorted: Seq<StreamKey>, table: TableId, from: int)
    requires
        0 <= from <= sorted.len(),
    ensures
        from <= run_end(sorted, table, from) <= sorted.len(),
        forall|i: int|
            from <= i < run_end(sorted, table, from) ==> (#[trigger] sorted[i]).table == table,
        run_end(sorted, table, from) < sorted.len() ==> sorted[run_end(sorted, table, from)].table
            != table,
        from < sorted.len() && sorted[from].table == table ==> from < run_end(sorted, table, from),
    decreases sorted.len() - from,
{
    if from < sorted.len() && sorted[from].table == table {
        run_end_facts(sorted, table, from + 1);
    }
}

/// Ordered keys from `from` on, split by table.
pub open spec fn groups_of(sorted: Seq<StreamKey>, from: int) -> Seq<Seq<StreamKey>>
    decreases sorted.len() - from,
{
    if from < 0 || from >= sorted.len() {
        Seq::empty()
    } else {
        let end = run_end(sorted, sorted[from].table, from);
        proof {
            run_end_facts(sorted, sorted[from].table, from);
        }
        seq![sorted.subrange(from, end)] + groups_of(sorted, end)
    }
}

/// The keys of one table, and for each where its answers belong.
pub struct TableKeyGroup {
    pub table: TableId,
    pub keys: Vec<StreamKey>,
    pub destinations: Vec<Vec<usize>>,
}

/// Whether a group stands for its keys among all keys.
pub open spec fn group_holds(group: TableKeyGroup, members: Seq<StreamKey>, keys: Seq<StreamKey>)
    -> bool {
    &&& group.keys@ == members
    &&& members.len() > 0
    &&& group.table == members[0].table
    &&& destinations_hold(group.destinations@, members, keys)
}

pub open spec fn destinations_hold(
    destinations: Seq<Vec<usize>>,
    members: Seq<StreamKey>,
    keys: Seq<StreamKey>,
) -> bool {
    &&& destinations.len() == members.len()
    &&& forall|i: int|
        0 <= i < destinations.len() ==> (#[trigger] destinations[i])@ == positions(keys, members[i])
}

impl TableKeyGroup {
    pub fn table(&self) -> (table: TableId)
        ensures
            table == self.table,
    {
        self.table
    }

    pub fn keys(&self) -> (keys: &[StreamKey])
        ensures
            keys@ == self.keys@,
    {
        self.keys.as_slice()
    }

    pub fn destinations(&self) -> (destinations: &[Vec<usize>])
        ensures
            destinations@ == self.destinations@,
    {
        self.destinations.as_slice()
    }
}

proof fn with_key_facts(sorted: Seq<StreamKey>, key: StreamKey)
    requires
        batch::keys_ordered(sorted),
    ensures
        batch::keys_ordered(with_key(sorted, key)),
        with_key(sorted, key).contains(key),
        forall|k: StreamKey| #[trigger]
            with_key(sorted, key).contains(k) <==> sorted.contains(k) || k == key,
        forall|i: int|
            0 <= i < with_key(sorted, key).len() ==> (#[trigger] with_key(sorted, key)[i]).rank()
                <= key.rank() || (sorted.len() > 0 && with_key(sorted, key)[i].rank()
                <= sorted.last().rank()),
    decreases sorted.len(),
{
    let after = with_key(sorted, key);
    if sorted.len() == 0 || sorted.last().rank() < key.rank() {
        assert forall|i: int, j: int| 0 <= i < j < after.len() implies (
        #[trigger] after[i]).rank() < (#[trigger] after[j]).rank() by {
            if j < sorted.len() {
                assert(sorted[i].rank() < sorted[j].rank());
            } else if i < sorted.len() - 1 {
                assert(sorted[i].rank() < sorted[sorted.len() - 1].rank());
            }
        }
        assert(after[after.len() - 1] == key);
        assert forall|k: StreamKey| #[trigger] after.contains(k) <==> sorted.contains(k) || k
            == key by {
            if sorted.contains(k) {
                let i = choose|i: int| 0 <= i < sorted.len() && sorted[i] == k;
                assert(after[i] == k);
            }
            if after.contains(k) {
                let i = choose|i: int| 0 <= i < after.len() && after[i] == k;
                if i < sorted.len() {
                    assert(sorted[i] == k);
                }
            }
        }
        assert forall|i: int| 0 <= i < after.len() implies (#[trigger] after[i]).rank()
            <= key.rank() by {
            if i < after.len() - 1 {
                assert(after[i].rank() < after[after.len() - 1].rank());
            }
        }
    } else if sorted.last().rank() == key.rank() {
        StreamKey::rank_injective(sorted.last(), key);
        assert(sorted[sorted.len() - 1] == key);
        assert forall|i: int| 0 <= i < after.len() implies (#[trigger] after[i]).rank()
            <= key.rank() by {
            if i < after.len() - 1 {
                assert(sorted[i].rank() < sorted[sorted.len() - 1].rank());
            }
        }
    } else {
        let front = sorted.drop_last();
        let last = sorted.last();
        assert(batch::keys_ordered(front));
        with_key_facts(front, key);
        let earlier = with_key(front, key);
        assert forall|i: int, j: int| 0 <= i < j < after.len() implies (
        #[trigger] after[i]).rank() < (#[trigger] after[j]).rank() by {
            if j < earlier.len() {
                assert(earlier[i].rank() < earlier[j].rank());
            } else {
                assert(after[i] == earlier[i]);
                if front.len() > 0 {
                    assert(sorted[front.len() - 1].rank() < sorted[sorted.len() - 1].rank());
                }
            }
        }
        assert forall|k: StreamKey| #[trigger] after.contains(k) <==> sorted.contains(k) || k
            == key by {
            if after.contains(k) {
                let i = choose|i: int| 0 <= i < after.len() && after[i] == k;
                if i < earlier.len() {
                    assert(earlier[i] == k);
                    assert(earlier.contains(k));
                    if front.contains(k) {
                        let j = choose|j: int| 0 <= j < front.len() && front[j] == k;
                        assert(sorted[j] == k);
                    }
                } else {
                    assert(sorted[sorted.len() - 1] == k);
                }
            }
            if sorted.contains(k) || k == key {
                if sorted.contains(k) {
                    let j = choose|j: int| 0 <= j < sorted.len() && sorted[j] == k;
                    if j < front.len() {
                        assert(front[j] == k);
                        assert(front.contains(k));
                    }
                }
                if front.contains(k) || k == key {
                    assert(earlier.contains(k));
                    let i = choose|i: int| 0 <= i < earlier.len() && earlier[i] == k;
                    assert(after[i] == k);
                } else {
                    assert(after[after.len() - 1] == k);
                }
            }
        }
        assert(after.contains(key));
        assert forall|i: int| 0 <= i < after.len() implies (#[trigger] after[i]).rank()
            <= last.rank() by {
            if i < after.len() - 1 {
                assert(after[i].rank() < after[after.len() - 1].rank());
            }
        }
    }
}

/// The ordered keys are the given ones, each once.
pub(crate) proof fn sorted_keys_facts(keys: Seq<StreamKey>)
    ensures
        batch::keys_ordered(sorted_keys(keys)),
        forall|k: StreamKey| #[trigger] sorted_keys(keys).contains(k) <==> keys.contains(k),
    decreases keys.len(),
{
    if keys.len() > 0 {
        let front = keys.drop_last();
        sorted_keys_facts(front);
        with_key_facts(sorted_keys(front), keys.last());
        assert forall|k: StreamKey| #[trigger] sorted_keys(keys).contains(k) <==> keys.contains(
            k,
        ) by {
            if keys.contains(k) {
                let i = choose|i: int| 0 <= i < keys.len() && keys[i] == k;
                if i < front.len() {
                    assert(front[i] == k);
                    assert(front.contains(k));
                    assert(sorted_keys(front).contains(k));
                }
            }
            if sorted_keys(keys).contains(k) {
                if sorted_keys(front).contains(k) {
                    assert(front.contains(k));
                    let i = choose|i: int| 0 <= i < front.len() && front[i] == k;
                    assert(keys[i] == k);
                } else {
                    assert(keys[keys.len() - 1] == k);
                }
            }
        }
    }
}

/// The positions are those of the key.
pub(crate) proof fn positions_facts(keys: Seq<StreamKey>, key: StreamKey)
    requires
        keys.len() <= usize::MAX,
    ensures
        forall|p: usize| #[trigger]
            positions(keys, key).contains(p) <==> p < keys.len() && keys[p as int] == key,
    decreases keys.len(),
{
    if keys.len() > 0 {
        let front = keys.drop_last();
        positions_facts(front, key);
        let earlier = positions(front, key);
        let all = positions(keys, key);
        assert forall|p: usize| #[trigger] all.contains(p) <==> p < keys.len() && keys[p as int]
            == key by {
            if all.contains(p) {
                let i = choose|i: int| 0 <= i < all.len() && all[i] == p;
                if i < earlier.len() {
                    assert(earlier[i] == p);
                    assert(earlier.contains(p));
                }
            }
            if p < keys.len() && keys[p as int] == key {
                if p < front.len() {
                    assert(front[p as int] == key);
                    assert(earlier.contains(p));
                    let i = choose|i: int| 0 <= i < earlier.len() && earlier[i] == p;
                    assert(all[i] == p);
                } else {
                    assert(all[all.len() - 1] == p);
                }
            }
        }
    }
}

/// Inserting in place is what `with_key` describes.
proof fn with_key_at(sorted: Seq<StreamKey>, at: int, key: StreamKey)
    requires
        batch::keys_ordered(sorted),
        0 <= at <= sorted.len(),
        forall|i: int| 0 <= i < at ==> (#[trigger] sorted[i]).rank() < key.rank(),
        forall|i: int| at <= i < sorted.len() ==> key.rank() <= (#[trigger] sorted[i]).rank(),
    ensures
        at < sorted.len() && sorted[at].rank() == key.rank() ==> with_key(sorted, key) == sorted,
        !(at < sorted.len() && sorted[at].rank() == key.rank()) ==> with_key(sorted, key)
            == sorted.insert(at, key),
    decreases sorted.len(),
{
    if sorted.len() == 0 {
        assert(sorted.push(key) =~= sorted.insert(at, key));
    } else {
        let last = sorted.len() - 1;
        if sorted[last].rank() < key.rank() {
            assert(at == sorted.len());
            assert(sorted.push(key) =~= sorted.insert(at, key));
        } else if sorted[last].rank() == key.rank() {
            if at < last {
                assert(sorted[at].rank() < sorted[last].rank());
                assert(key.rank() <= sorted[at].rank());
            }
            assert(at == last);
        } else {
            let front = sorted.drop_last();
            with_key_at(front, at, key);
            if at < front.len() && front[at].rank() == key.rank() {
                assert(front.push(sorted[last]) =~= sorted);
            } else {
                assert(front.insert(at, key).push(sorted[last]) =~= sorted.insert(at, key));
            }
        }
    }
}

/// The first position whose key does not precede `key`.
fn key_place(sorted: &Vec<StreamKey>, key: StreamKey) -> (at: usize)
    requires
        batch::keys_ordered(sorted@),
    ensures
        at <= sorted@.len(),
        forall|i: int| 0 <= i < at ==> (#[trigger] sorted@[i]).rank() < key.rank(),
        forall|i: int| at <= i < sorted@.len() ==> key.rank() <= (#[trigger] sorted@[i]).rank(),
{
    let mut low: usize = 0;
    let mut high: usize = sorted.len();
    while low < high
        invariant
            batch::keys_ordered(sorted@),
            low <= high <= sorted@.len(),
            forall|i: int| 0 <= i < low ==> (#[trigger] sorted@[i]).rank() < key.rank(),
            forall|i: int|
                high <= i < sorted@.len() ==> key.rank() <= (#[trigger] sorted@[i]).rank(),
        decreases high - low,
    {
        let middle: usize = low + (high - low) / 2;
        if sorted[middle].precedes(&key) {
            assert forall|i: int| 0 <= i < middle + 1 implies (#[trigger] sorted@[i]).rank()
                < key.rank() by {
                if i < middle {
                    assert(sorted@[i].rank() < sorted@[middle as int].rank());
                }
            }
            low = middle + 1;
        } else {
            assert forall|i: int| middle <= i < sorted@.len() implies key.rank() <= (
            #[trigger] sorted@[i]).rank() by {
                if middle < i {
                    assert(sorted@[middle as int].rank() < sorted@[i].rank());
                }
            }
            high = middle;
        }
    }
    low
}

/// The distinct keys in order, with the positions of each.
fn sort_keys(keys: &[StreamKey]) -> (r: (Vec<StreamKey>, Vec<Vec<usize>>))
    ensures
        r.0@ == sorted_keys(keys@),
        destinations_hold(r.1@, r.0@, keys@),
{
    let mut sorted: Vec<StreamKey> = Vec::new();
    let mut places: Vec<Vec<usize>> = Vec::new();
    let mut index: usize = 0;
    assert(keys@.take(0) =~= Seq::empty());
    while index < keys.len()
        invariant
            index <= keys@.len(),
            sorted@ == sorted_keys(keys@.take(index as int)),
            destinations_hold(places@, sorted@, keys@.take(index as int)),
        decreases keys@.len() - index,
    {
        let key = keys[index];
        let ghost seen = keys@.take(index as int);
        let ghost now = keys@.take(index + 1);
        let ghost before = sorted@;
        let ghost old_places = places@;
        proof {
            sorted_keys_facts(seen);
            assert(now.drop_last() =~= seen);
            assert(now.last() == key);
            positions_facts(seen, key);
        }
        let at: usize = key_place(&sorted, key);
        proof {
            with_key_at(sorted@, at as int, key);
        }
        if at < sorted.len() && !key.precedes(&sorted[at]) {
            proof {
                StreamKey::rank_injective(sorted@[at as int], key);
            }
            places[at].push(index);
            proof {
                assert forall|i: int| 0 <= i < places@.len() implies (#[trigger] places@[i])@
                    == positions(now, sorted@[i]) by {
                    assert(old_places[i]@ == positions(seen, before[i]));
                    if i < at {
                        assert(before[i].rank() < before[at as int].rank());
                    } else if at < i {
                        assert(before[at as int].rank() < before[i].rank());
                    }
                }
            }
        } else {
            let mut list: Vec<usize> = Vec::new();
            list.push(index);
            proof {
                assert(!before.contains(key)) by {
                    if before.contains(key) {
                        let i = choose|i: int| 0 <= i < before.len() && before[i] == key;
                        if at < i {
                            assert(before[at as int].rank() < before[i].rank());
                        }
                    }
                }
                if positions(seen, key).len() > 0 {
                    let p = positions(seen, key)[0];
                    assert(positions(seen, key).contains(p));
                    assert(seen.contains(key));
                }
                assert(positions(seen, key) =~= Seq::empty());
                assert(list@ =~= positions(now, key));
            }
            sorted.insert(at, key);
            places.insert(at, list);
            proof {
                assert forall|i: int| 0 <= i < places@.len() implies (#[trigger] places@[i])@
                    == positions(now, sorted@[i]) by {
                    if i < at {
                        assert(old_places[i]@ == positions(seen, before[i]));
                        assert(sorted@[i] == before[i]);
                        assert(before.contains(before[i]));
                    } else if i > at {
                        assert(old_places[i - 1]@ == positions(seen, before[i - 1]));
                        assert(sorted@[i] == before[i - 1]);
                        assert(before.contains(before[i - 1]));
                    }
                }
            }
        }
        index += 1;
    }
    assert(keys@.take(index as int) =~= keys@);
    (sorted, places)
}

/// Splits keys by table, in table order, each key once.
pub fn group_keys(keys: &[StreamKey]) -> (groups: Vec<TableKeyGroup>)
    ensures
        groups@.len() == groups_of(sorted_keys(keys@), 0).len(),
        forall|i: int|
            0 <= i < groups@.len() ==> group_holds(
                #[trigger] groups@[i],
                groups_of(sorted_keys(keys@), 0)[i],
                keys@,
            ),
{
    let (sorted, places) = sort_keys(keys);
    let mut groups: Vec<TableKeyGroup> = Vec::new();
    let mut start: usize = 0;
    let ghost all = groups_of(sorted@, 0);
    while start < sorted.len()
        invariant
            sorted@ == sorted_keys(keys@),
            destinations_hold(places@, sorted@, keys@),
            start <= sorted@.len(),
            all == groups_of(sorted@, 0),
            all.len() == groups@.len() + groups_of(sorted@, start as int).len(),
            forall|i: int|
                0 <= i < groups_of(sorted@, start as int).len() ==> all[groups@.len() + i]
                    == #[trigger] groups_of(sorted@, start as int)[i],
            forall|i: int|
                0 <= i < groups@.len() ==> group_holds(#[trigger] groups@[i], all[i], keys@),
        decreases sorted@.len() - start,
    {
        let table = sorted[start].table;
        let ghost end_at = run_end(sorted@, table, start as int);
        proof {
            run_end_facts(sorted@, table, start as int);
        }
        let mut members: Vec<StreamKey> = Vec::new();
        let mut destinations: Vec<Vec<usize>> = Vec::new();
        let mut end: usize = start;
        while end < sorted.len() && sorted[end].table == table
            invariant
                sorted@ == sorted_keys(keys@),
                destinations_hold(places@, sorted@, keys@),
                start <= end <= sorted@.len(),
                end_at == run_end(sorted@, table, end as int),
                members@ == sorted@.subrange(start as int, end as int),
                destinations_hold(destinations@, members@, keys@),
            decreases sorted@.len() - end,
        {
            members.push(sorted[end]);
            destinations.push(copy_positions(&places[end]));
            end += 1;
            proof {
                assert(members@ =~= sorted@.subrange(start as int, end as int));
                assert forall|i: int| 0 <= i < destinations@.len() implies (
                #[trigger] destinations@[i])@ == positions(keys@, members@[i]) by {
                    if i == destinations@.len() - 1 {
                        assert(places@[end - 1]@ == positions(keys@, sorted@[end - 1]));
                    }
                }
            }
        }
        let ghost rest = groups_of(sorted@, start as int);
        let ghost later = groups_of(sorted@, end as int);
        proof {
            assert(end == end_at);
            assert(rest =~= seq![sorted@.subrange(start as int, end as int)] + later);
            assert(rest[0] == members@);
            assert(all[groups@.len() + 0int] == rest[0]);
            assert forall|i: int| 0 <= i < later.len() implies all[groups@.len() + 1 + i]
                == #[trigger] later[i] by {
                assert(rest[i + 1] == later[i]);
                assert(all[groups@.len() + (i + 1)] == rest[i + 1]);
            }
        }
        groups.push(TableKeyGroup { table, keys: members, destinations });
        start = end;
    }
    groups
}

fn copy_positions(list: &Vec<usize>) -> (copy: Vec<usize>)
    ensures
        copy@ == list@,
{
    let mut copy: Vec<usize> = Vec::new();
    let mut index: usize = 0;
    while index < list.len()
        invariant
            index <= list@.len(),
            copy@ == list@.take(index as int),
        decreases list@.len() - index,
    {
        copy.push(list[index]);
        index += 1;
        assert(copy@ =~= list@.take(index as int));
    }
    assert(copy@ =~= list@);
    copy
}

/// Values that can be handed out more than once.
pub trait Duplicate: View + Sized {
    fn duplicate(&self) -> (copy: Self)
        ensures
            copy@ == self@,
    ;
}

pub open spec fn option_views<T: View>(list: Seq<Option<T>>) -> Seq<Option<<T as View>::V>> {
    list.map_values(
        |item: Option<T>|
            match item {
                Some(value) => Some(value@),
                None => None,
            },
    )
}

/// The value put at the first `count` of the positions.
pub open spec fn put_at<V>(
    output: Seq<Option<V>>,
    places: Seq<usize>,
    value: V,
    count: int,
) -> Result<Seq<Option<V>>>
    decreases count,
{
    if count <= 0 {
        Ok(output)
    } else {
        match put_at(output, places, value, count - 1) {
            Err(e) => Err(e),
            Ok(before) => if places[count - 1] < before.len() {
                Ok(before.update(places[count - 1] as int, Some(value)))
            } else {
                Err(error::corruption("batch query", "output position is invalid"))
            },
        }
    }
}

/// The first `count` values put at their positions.
pub open spec fn scattered<V>(
    output: Seq<Option<V>>,
    destinations: Seq<Vec<usize>>,
    values: Seq<V>,
    count: int,
) -> Result<Seq<Option<V>>>
    decreases count,
{
    if count <= 0 {
        Ok(output)
    } else {
        match scattered(output, destinations, values, count - 1) {
            Err(e) => Err(e),
            Ok(before) => put_at(
                before,
                destinations[count - 1]@,
                values[count - 1],
                destinations[count - 1]@.len() as int,
            ),
        }
    }
}

/// Whether putting values broke off at a position that there is not, with everything before it put.
pub open spec fn broke_off_at<V>(
    output: Seq<Option<V>>,
    destinations: Seq<Vec<usize>>,
    values: Seq<V>,
    after: Seq<Option<V>>,
    k: int,
    a: int,
) -> bool {
    &&& 0 <= k < destinations.len()
    &&& 0 <= a < destinations[k]@.len()
    &&& destinations[k]@[a] >= after.len()
    &&& scattered(output, destinations, values, k) matches Ok(before)
    &&& put_at(before, destinations[k]@, values[k], a) == Ok::<Seq<Option<V>>, Error>(after)
}

pub open spec fn broke_off<V>(
    output: Seq<Option<V>>,
    destinations: Seq<Vec<usize>>,
    values: Seq<V>,
    after: Seq<Option<V>>,
) -> bool {
    exists|k: int, a: int| #[trigger]
        broke_off_at(output, destinations, values, after, k, a)
}

proof fn put_refusal_is_final<V>(
    output: Seq<Option<V>>,
    places: Seq<usize>,
    value: V,
    count: int,
)
    requires
        0 <= count <= places.len(),
        put_at(output, places, value, count) is Err,
    ensures
        put_at(output, places, value, places.len() as int) == put_at(output, places, value, count),
    decreases places.len() - count,
{
    if count < places.len() {
        put_refusal_is_final(output, places, value, count + 1);
    }
}

proof fn scatter_refusal_is_final<V>(
    output: Seq<Option<V>>,
    destinations: Seq<Vec<usize>>,
    values: Seq<V>,
    count: int,
)
    requires
        0 <= count <= destinations.len(),
        scattered(output, destinations, values, count) is Err,
    ensures
        scattered(output, destinations, values, destinations.len() as int) == scattered(
            output,
            destinations,
            values,
            count,
        ),
    decreases destinations.len() - count,
{
    if count < destinations.len() {
        scatter_refusal_is_final(output, destinations, values, count + 1);
    }
}

/// Puts each value at all of its positions.
pub fn scatter<T: Duplicate>(
    output: &mut Vec<Option<T>>,
    destinations: &[Vec<usize>],
    values: Vec<T>,
) -> (r: Result<()>)
    ensures
        if destinations@.len() != values@.len() {
            &&& r matches Err(e) && e == error::corruption("batch query", "result shape mismatch")
            &&& final(output)@ == old(output)@
        } else {
            match scattered(
                option_views(old(output)@),
                destinations@,
                values@.map_values(|value: T| value@),
                destinations@.len() as int,
            ) {
                Ok(after) => r is Ok && option_views(final(output)@) == after,
                Err(e) => r matches Err(f) && f == e && broke_off(
                    option_views(old(output)@),
                    destinations@,
                    values@.map_values(|value: T| value@),
                    option_views(final(output)@),
                ),
            }
        },
{
    if destinations.len() != values.len() {
        return Err(Error::corruption("batch query", "result shape mismatch"));
    }
    let ghost before = option_views(output@);
    let ghost views = values@.map_values(|value: T| value@);
    let mut index: usize = 0;
    while index < destinations.len()
        invariant
            destinations@.len() == values@.len(),
            views == values@.map_values(|value: T| value@),
            before == option_views(old(output)@),
            index <= destinations@.len(),
            scattered(before, destinations@, views, index as int) == Ok::<
                Seq<Option<<T as View>::V>>,
                Error,
            >(option_views(output@)),
        decreases destinations@.len() - index,
    {
        let value = &values[index];
        let places = &destinations[index];
        let ghost here = option_views(output@);
        assert(views[index as int] == value@);
        let mut at: usize = 0;
        while at < places.len()
            invariant
                destinations@.len() == values@.len(),
                before == option_views(old(output)@),
                index < destinations@.len(),
                *places == destinations@[index as int],
                views[index as int] == value@,
                views == values@.map_values(|value: T| value@),
                at <= places@.len(),
                scattered(before, destinations@, views, index as int) == Ok::<
                    Seq<Option<<T as View>::V>>,
                    Error,
                >(here),
                put_at(here, places@, value@, at as int) == Ok::<
                    Seq<Option<<T as View>::V>>,
                    Error,
                >(option_views(output@)),
            decreases places@.len() - at,
        {
            let place: usize = places[at];
            if place >= output.len() {
                proof {
                    put_refusal_is_final(here, places@, value@, at + 1);
                    scatter_refusal_is_final(before, destinations@, views, index + 1);
                    assert(broke_off_at(
                        before,
                        destinations@,
                        views,
                        option_views(output@),
                        index as int,
                        at as int,
                    ));
                }
                return Err(Error::corruption("batch query", "output position is invalid"));
            }
            let ghost earlier = output@;
            output.set(place, Some(value.duplicate()));
            assert(option_views(output@) =~= option_views(earlier).update(
                place as int,
                Some(value@),
            ));
            at += 1;
        }
        index += 1;
    }
    Ok(())
}

/// Whether every place is filled.
pub open spec fn all_filled<T>(output: Seq<Option<T>>) -> bool {
    forall|i: int| 0 <= i < output.len() ==> (#[trigger] output[i]) is Some
}

/// The values of a list in which every place is filled.
pub fn collect_output<T>(output: Vec<Option<T>>) -> (r: Result<Vec<T>>)
    ensures
        match r {
            Ok(list) => all_filled(output@) && list@ == output@.map_values(
                |item: Option<T>| item->Some_0,
            ),
            Err(e) => !all_filled(output@) && e == error::corruption(
                "batch query",
                "result is absent",
            ),
        },
{
    let ghost all = output@;
    let mut left = output;
    let mut reversed: Vec<T> = Vec::new();
    while left.len() > 0
        invariant
            all == output@,
            left@.len() <= all.len(),
            left@ == all.take(left@.len() as int),
            reversed@.len() == all.len() - left@.len(),
            forall|i: int|
                0 <= i < reversed@.len() ==> all[all.len() - 1 - i] == Some(
                    #[trigger] reversed@[i],
                ),
        decreases left@.len(),
    {
        let ghost last = left@.len() - 1;
        match left.pop() {
            Some(Some(value)) => {
                assert(all[last] == Some(value));
                reversed.push(value);
            },
            _ => {
                assert(all[last] is None);
                return Err(Error::corruption("batch query", "result is absent"));
            },
        }
        assert(left@ =~= all.take(left@.len() as int));
    }
    let ghost turned = reversed@;
    assert forall|i: int| 0 <= i < all.len() implies (#[trigger] all[i]) is Some by {
        assert(all[all.len() - 1 - (all.len() - 1 - i)] == Some(turned[all.len() - 1 - i]));
    }
    let mut list: Vec<T> = Vec::new();
    while reversed.len() > 0
        invariant
            turned.len() == all.len(),
            forall|i: int|
                0 <= i < turned.len() ==> all[all.len() - 1 - i] == Some(#[trigger] turned[i]),
            reversed@.len() <= turned.len(),
            reversed@ == turned.take(reversed@.len() as int),
            list@.len() == all.len() - reversed@.len(),
            forall|i: int| 0 <= i < list@.len() ==> all[i] == Some(#[trigger] list@[i]),
        decreases reversed@.len(),
    {
        let ghost last = reversed@.len() - 1;
        if let Some(value) = reversed.pop() {
            assert(turned[last] == value);
            assert(all[all.len() - 1 - last] == Some(turned[last]));
            list.push(value);
        }
        assert(reversed@ =~= turned.take(reversed@.len() as int));
    }
    assert(list@ =~= all.map_values(|item: Option<T>| item->Some_0));
    Ok(list)
}

/// The answers of the first `count` groups, one after the other.
pub open spec fn over_groups<T>(
    groups: Seq<Seq<StreamKey>>,
    answer: spec_fn(Seq<StreamKey>) -> Result<Seq<T>>,
    count: int,
) -> Result<Seq<T>>
    decreases count,
{
    if count <= 0 {
        Ok(Seq::empty())
    } else {
        match over_groups(groups, answer, count - 1) {
            Err(e) => Err(e),
            Ok(list) => match answer(groups[count - 1]) {
                Err(e) => Err(e),
                Ok(values) => Ok(list + values),
            },
        }
    }
}

pub(crate) proof fn groups_refusal_is_final<T>(
    groups: Seq<Seq<StreamKey>>,
    answer: spec_fn(Seq<StreamKey>) -> Result<Seq<T>>,
    count: int,
)
    requires
        0 <= count <= groups.len(),
        over_groups(groups, answer, count) is Err,
    ensures
        over_groups(groups, answer, groups.len() as int) == over_groups(groups, answer, count),
    decreases groups.len() - count,
{
    if count < groups.len() {
        groups_refusal_is_final(groups, answer, count + 1);
    }
}

/// For every key the answer of its place among the ordered keys.
pub open spec fn spread<T>(keys: Seq<StreamKey>, sorted: Seq<StreamKey>, values: Seq<T>) -> Seq<T> {
    Seq::new(keys.len(), |p: int| values[batch::key_position(sorted, keys[p])])
}

/// What several streams are answered, when those of each table are answered together.
pub open spec fn answered<T>(
    keys: Seq<StreamKey>,
    answer: spec_fn(Seq<StreamKey>) -> Result<Seq<T>>,
) -> Result<Seq<T>> {
    let sorted = sorted_keys(keys);
    let groups = groups_of(sorted, 0);
    match over_groups(groups, answer, groups.len() as int) {
        Err(e) => Err(e),
        Ok(values) => Ok(spread(keys, sorted, values)),
    }
}

/// How many keys the first `count` groups have.
pub open spec fn group_start(groups: Seq<Seq<StreamKey>>, count: int) -> int
    decreases count,
{
    if count <= 0 {
        0
    } else {
        group_start(groups, count - 1) + groups[count - 1].len()
    }
}

/// Groups are pieces of the ordered keys, one after the other.
pub(crate) proof fn groups_are_pieces(sorted: Seq<StreamKey>, from: int, count: int)
    requires
        0 <= from <= sorted.len(),
        0 <= count <= groups_of(sorted, from).len(),
    ensures
        from + group_start(groups_of(sorted, from), count) <= sorted.len(),
        count < groups_of(sorted, from).len() ==> {
            let start = from + group_start(groups_of(sorted, from), count);
            let group = groups_of(sorted, from)[count];
            &&& group.len() > 0
            &&& start + group.len() <= sorted.len()
            &&& group == sorted.subrange(start, start + group.len())
            &&& batch::keys_of(group, group[0].table)
        },
        count == groups_of(sorted, from).len() ==> from + group_start(
            groups_of(sorted, from),
            count,
        ) == sorted.len(),
    decreases sorted.len() - from,
{
    let groups = groups_of(sorted, from);
    if from < sorted.len() {
        let table = sorted[from].table;
        let end = run_end(sorted, table, from);
        run_end_facts(sorted, table, from);
        let later = groups_of(sorted, end);
        let first = sorted.subrange(from, end);
        assert(groups =~= seq![first] + later);
        if count > 0 {
            groups_are_pieces(sorted, end, count - 1);
            starts_shift(first, later, count - 1);
            if count < groups.len() {
                assert(groups[count] == later[count - 1]);
            }
        } else {
            assert(groups[0] == first);
            assert forall|i: int| 0 <= i < first.len() implies (#[trigger] first[i]).table
                == first[0].table by {
                assert(first[i] == sorted[from + i]);
            }
        }
    }
}

proof fn starts_shift(first: Seq<StreamKey>, later: Seq<Seq<StreamKey>>, count: int)
    requires
        0 <= count <= later.len(),
    ensures
        group_start(seq![first] + later, count + 1) == first.len() + group_start(later, count),
    decreases count,
{
    let groups = seq![first] + later;
    if count > 0 {
        starts_shift(first, later, count - 1);
        assert(groups[count] == later[count - 1]);
    } else {
        assert(groups[0] == first);
        assert(group_start(groups, 0) == 0);
    }
}

/// Whether exactly the places of the keys before `start` are filled, and rightly.
pub open spec fn filled_to<V>(
    output: Seq<Option<V>>,
    keys: Seq<StreamKey>,
    sorted: Seq<StreamKey>,
    values: Seq<V>,
    start: int,
) -> bool {
    &&& output.len() == keys.len()
    &&& values.len() == start
    &&& forall|p: int|
        0 <= p < keys.len() ==> (#[trigger] output[p]) == (if batch::key_position(
            sorted,
            keys[p],
        ) < start {
            Some(values[batch::key_position(sorted, keys[p])])
        } else {
            None
        })
}

proof fn put_places<V>(output: Seq<Option<V>>, places: Seq<usize>, value: V, count: int)
    requires
        0 <= count <= places.len(),
        forall|i: int| 0 <= i < places.len() ==> (#[trigger] places[i]) < output.len(),
    ensures
        put_at(output, places, value, count) matches Ok(after) && after.len() == output.len() && (
        forall|p: int|
            0 <= p < output.len() ==> (#[trigger] after[p]) == (if exists|i: int|
                0 <= i < count && places[i] == p {
                Some(value)
            } else {
                output[p]
            })),
    decreases count,
{
    if count > 0 {
        put_places(output, places, value, count - 1);
        let before = put_at(output, places, value, count - 1)->Ok_0;
        let after = put_at(output, places, value, count)->Ok_0;
        assert(places[count - 1] < output.len());
        assert forall|p: int| 0 <= p < output.len() implies (#[trigger] after[p]) == (
        if exists|i: int| 0 <= i < count && places[i] == p {
            Some(value)
        } else {
            output[p]
        }) by {
            if p == places[count - 1] {
                assert(0 <= count - 1 < count && places[count - 1] == p);
            } else {
                assert(after[p] == before[p]);
                if exists|i: int| 0 <= i < count && places[i] == p {
                    let i = choose|i: int| 0 <= i < count && places[i] == p;
                    assert(0 <= i < count - 1 && places[i] == p);
                }
            }
        }
    }
}

/// Scattering the answers of a group fills exactly the places of its keys.
proof fn scatter_places<V>(
    output: Seq<Option<V>>,
    destinations: Seq<Vec<usize>>,
    values: Seq<V>,
    members: Seq<StreamKey>,
    keys: Seq<StreamKey>,
    count: int,
)
    requires
        keys.len() <= usize::MAX,
        output.len() == keys.len(),
        batch::keys_ordered(members),
        destinations_hold(destinations, members, keys),
        values.len() == members.len(),
        0 <= count <= members.len(),
    ensures
        scattered(output, destinations, values, count) matches Ok(after) && after.len()
            == output.len() && (forall|p: int|
            0 <= p < output.len() ==> (#[trigger] after[p]) == (if members.contains(keys[p])
                && batch::key_position(members, keys[p]) < count {
                Some(values[batch::key_position(members, keys[p])])
            } else {
                output[p]
            })),
    decreases count,
{
    if count > 0 {
        scatter_places(output, destinations, values, members, keys, count - 1);
        let before = scattered(output, destinations, values, count - 1)->Ok_0;
        let key = members[count - 1];
        let places = destinations[count - 1]@;
        positions_facts(keys, key);
        assert(places == positions(keys, key));
        assert forall|i: int| 0 <= i < places.len() implies (#[trigger] places[i])
            < before.len() by {
            assert(positions(keys, key).contains(places[i]));
        }
        put_places(before, places, values[count - 1], places.len() as int);
        let after = scattered(output, destinations, values, count)->Ok_0;
        assert forall|p: int| 0 <= p < output.len() implies (#[trigger] after[p]) == (
        if members.contains(keys[p]) && batch::key_position(members, keys[p]) < count {
            Some(values[batch::key_position(members, keys[p])])
        } else {
            output[p]
        }) by {
            if keys[p] == key {
                assert(positions(keys, key).contains(p as usize));
                let i = choose|i: int| 0 <= i < places.len() && places[i] == p as usize;
                assert(0 <= i < places.len() && places[i] == p);
                assert(members.contains(key));
                position_unique(members, count - 1);
            } else {
                if exists|i: int| 0 <= i < places.len() && places[i] == p {
                    let i = choose|i: int| 0 <= i < places.len() && places[i] == p;
                    assert(positions(keys, key).contains(places[i]));
                    assert(false);
                }
                assert(after[p] == before[p]);
                if members.contains(keys[p]) {
                    let q = batch::key_position(members, keys[p]);
                    assert(0 <= q < members.len() && members[q] == keys[p]);
                    assert(q != count - 1);
                }
            }
        }
    }
}

/// In ordered keys a key has one place.
pub(crate) proof fn position_unique(sorted: Seq<StreamKey>, at: int)
    requires
        batch::keys_ordered(sorted),
        0 <= at < sorted.len(),
    ensures
        sorted.contains(sorted[at]),
        batch::key_position(sorted, sorted[at]) == at,
{
    let key = sorted[at];
    assert(sorted[at] == key);
    let i = batch::key_position(sorted, key);
    assert(0 <= i < sorted.len() && sorted[i] == key);
    if i < at {
        assert(sorted[i].rank() < sorted[at].rank());
    } else if at < i {
        assert(sorted[at].rank() < sorted[i].rank());
    }
}

/// One more group fills its part.
pub(crate) proof fn scatter_extends<V>(
    output: Seq<Option<V>>,
    destinations: Seq<Vec<usize>>,
    values: Seq<V>,
    earlier: Seq<V>,
    keys: Seq<StreamKey>,
    sorted: Seq<StreamKey>,
    start: int,
    members: Seq<StreamKey>,
)
    requires
        keys.len() <= usize::MAX,
        sorted == sorted_keys(keys),
        filled_to(output, keys, sorted, earlier, start),
        0 <= start,
        start + members.len() <= sorted.len(),
        members == sorted.subrange(start, start + members.len()),
        destinations_hold(destinations, members, keys),
        values.len() == members.len(),
    ensures
        scattered(output, destinations, values, members.len() as int) matches Ok(after)
            && filled_to(after, keys, sorted, earlier + values, start + members.len()),
{
    sorted_keys_facts(keys);
    assert forall|i: int, j: int| 0 <= i < j < members.len() implies (
    #[trigger] members[i]).rank() < (#[trigger] members[j]).rank() by {
        assert(sorted[start + i].rank() < sorted[start + j].rank());
    }
    scatter_places(output, destinations, values, members, keys, members.len() as int);
    let after = scattered(output, destinations, values, members.len() as int)->Ok_0;
    let all = earlier + values;
    assert forall|p: int| 0 <= p < keys.len() implies (#[trigger] after[p]) == (
    if batch::key_position(sorted, keys[p]) < start + members.len() {
        Some(all[batch::key_position(sorted, keys[p])])
    } else {
        None
    }) by {
        let key = keys[p];
        assert(keys.contains(key));
        assert(sorted.contains(key));
        let q = batch::key_position(sorted, key);
        assert(0 <= q < sorted.len() && sorted[q] == key);
        if start <= q < start + members.len() {
            assert(members[q - start] == key);
            position_unique(members, q - start);
        } else {
            if members.contains(key) {
                let i = choose|i: int| 0 <= i < members.len() && members[i] == key;
                assert(sorted[start + i] == key);
                position_unique(sorted, start + i);
            }
            assert(after[p] == output[p]);
        }
    }
}

/// Before any group, no place is filled.
pub(crate) proof fn nothing_filled<V>(output: Seq<Option<V>>, keys: Seq<StreamKey>)
    requires
        output.len() == keys.len(),
        forall|p: int| 0 <= p < output.len() ==> (#[trigger] output[p]) is None,
    ensures
        filled_to(output, keys, sorted_keys(keys), Seq::empty(), 0),
{
    let sorted = sorted_keys(keys);
    sorted_keys_facts(keys);
    assert forall|p: int| 0 <= p < keys.len() implies (#[trigger] output[p]) == (
    if batch::key_position(sorted, keys[p]) < 0 {
        Some(Seq::<V>::empty()[batch::key_position(sorted, keys[p])])
    } else {
        None
    }) by {
        assert(keys.contains(keys[p]));
        assert(sorted.contains(keys[p]));
        let q = batch::key_position(sorted, keys[p]);
        assert(0 <= q < sorted.len() && sorted[q] == keys[p]);
    }
}

/// After all groups, every place is filled.
pub(crate) proof fn everything_filled<V>(
    output: Seq<Option<V>>,
    keys: Seq<StreamKey>,
    values: Seq<V>,
)
    requires
        filled_to(
            output,
            keys,
            sorted_keys(keys),
            values,
            sorted_keys(keys).len() as int,
        ),
    ensures
        all_filled(output),
        output.map_values(|item: Option<V>| item->Some_0) == spread(
            keys,
            sorted_keys(keys),
            values,
        ),
{
    let sorted = sorted_keys(keys);
    sorted_keys_facts(keys);
    assert forall|p: int| 0 <= p < keys.len() implies (#[trigger] output[p]) == Some(
        values[batch::key_position(sorted, keys[p])],
    ) by {
        assert(keys.contains(keys[p]));
        assert(sorted.contains(keys[p]));
        let q = batch::key_position(sorted, keys[p]);
        assert(0 <= q < sorted.len() && sorted[q] == keys[p]);
    }
    assert(output.map_values(|item: Option<V>| item->Some_0) =~= spread(keys, sorted, values));
}

/// A list of so many empty places.
pub fn empty_output<T: View>(count: usize) -> (output: Vec<Option<T>>)
    ensures
        output@.len() == count,
        forall|p: int|
            0 <= p < count ==> (#[trigger] option_views(output@)[p]) is None && output@[p] is None,
{
    let mut output: Vec<Option<T>> = Vec::new();
    let mut index: usize = 0;
    while index < count
        invariant
            index <= count,
            output@.len() == index,
            forall|p: int| 0 <= p < index ==> (#[trigger] output@[p]) is None,
        decreases count - index,
    {
        output.push(None);
        index += 1;
    }
    output
}

/// A batch answers every key as it answers the key alone: whatever the order of the keys, the other
/// keys beside it, and how often it is asked for.
pub proof fn batch_answers_each_key<T>(
    keys: Seq<StreamKey>,
    answer: spec_fn(Seq<StreamKey>) -> Result<Seq<T>>,
    each: spec_fn(StreamKey) -> T,
)
    requires
        forall|members: Seq<StreamKey>|
            members.len() > 0 && batch::keys_ordered(members) && batch::keys_of(
                members,
                members[0].table,
            ) && (forall|i: int|
                0 <= i < members.len() ==> keys.contains(#[trigger] members[i])) ==> #[trigger]
            answer(members) == Ok::<Seq<T>, Error>(members.map_values(each)),
    ensures
        answered(keys, answer) == Ok::<Seq<T>, Error>(keys.map_values(each)),
{
    let sorted = sorted_keys(keys);
    let groups = groups_of(sorted, 0);
    sorted_keys_facts(keys);
    groups_answer_each(keys, sorted, answer, each, groups.len() as int);
    groups_are_pieces(sorted, 0, groups.len() as int);
    assert(sorted.take(sorted.len() as int) =~= sorted);
    let values = sorted.map_values(each);
    let spreading = spread(keys, sorted, values);
    assert forall|p: int| 0 <= p < keys.len() implies (#[trigger] spreading[p]) == keys.map_values(
        each,
    )[p] by {
        assert(keys.contains(keys[p]));
        assert(sorted.contains(keys[p]));
        let at = batch::key_position(sorted, keys[p]);
        assert(0 <= at < sorted.len() && sorted[at] == keys[p]);
    }
    assert(spreading =~= keys.map_values(each));
}

proof fn groups_answer_each<T>(
    keys: Seq<StreamKey>,
    sorted: Seq<StreamKey>,
    answer: spec_fn(Seq<StreamKey>) -> Result<Seq<T>>,
    each: spec_fn(StreamKey) -> T,
    count: int,
)
    requires
        0 <= count <= groups_of(sorted, 0).len(),
        batch::keys_ordered(sorted),
        forall|k: StreamKey| #[trigger] sorted.contains(k) <==> keys.contains(k),
        forall|members: Seq<StreamKey>|
            members.len() > 0 && batch::keys_ordered(members) && batch::keys_of(
                members,
                members[0].table,
            ) && (forall|i: int|
                0 <= i < members.len() ==> keys.contains(#[trigger] members[i])) ==> #[trigger]
            answer(members) == Ok::<Seq<T>, Error>(members.map_values(each)),
    ensures
        0 <= group_start(groups_of(sorted, 0), count) <= sorted.len(),
        over_groups(groups_of(sorted, 0), answer, count) == Ok::<Seq<T>, Error>(
            sorted.take(group_start(groups_of(sorted, 0), count)).map_values(each),
        ),
    decreases count,
{
    let groups = groups_of(sorted, 0);
    groups_are_pieces(sorted, 0, count);
    if count > 0 {
        groups_answer_each(keys, sorted, answer, each, count - 1);
        groups_are_pieces(sorted, 0, count - 1);
        let start = group_start(groups, count - 1);
        let members = groups[count - 1];
        assert forall|i: int| 0 <= i < members.len() implies keys.contains(
            #[trigger] members[i],
        ) by {
            assert(members[i] == sorted[start + i]);
            assert(sorted.contains(sorted[start + i]));
        }
        assert forall|i: int, j: int| 0 <= i < j < members.len() implies (
        #[trigger] members[i]).rank() < (#[trigger] members[j]).rank() by {
            assert(members[i] == sorted[start + i]);
            assert(members[j] == sorted[start + j]);
        }
        assert(answer(members) == Ok::<Seq<T>, Error>(members.map_values(each)));
        assert(sorted.take(start).map_values(each) + members.map_values(each) =~= sorted.take(
            start + members.len(),
        ).map_values(each));
    } else {
        assert(sorted.take(0).map_values(each) =~= Seq::<T>::empty());
    }
}

/// Two ways to answer that agree on every group agree on every batch, whether it is answered or
/// refused.
pub(crate) proof fn batches_agree<T>(
    keys: Seq<StreamKey>,
    answer: spec_fn(Seq<StreamKey>) -> Result<Seq<T>>,
    other: spec_fn(Seq<StreamKey>) -> Result<Seq<T>>,
)
    requires
        forall|members: Seq<StreamKey>|
            members.len() > 0 && batch::keys_ordered(members) && batch::keys_of(
                members,
                members[0].table,
            ) && (forall|i: int|
                0 <= i < members.len() ==> keys.contains(#[trigger] members[i])) ==> #[trigger]
            answer(members) == other(members),
    ensures
        answered(keys, answer) == answered(keys, other),
{
    sorted_keys_facts(keys);
    let sorted = sorted_keys(keys);
    groups_agree(keys, sorted, answer, other, groups_of(sorted, 0).len() as int);
}

proof fn groups_agree<T>(
    keys: Seq<StreamKey>,
    sorted: Seq<StreamKey>,
    answer: spec_fn(Seq<StreamKey>) -> Result<Seq<T>>,
    other: spec_fn(Seq<StreamKey>) -> Result<Seq<T>>,
    count: int,
)
    requires
        0 <= count <= groups_of(sorted, 0).len(),
        batch::keys_ordered(sorted),
        forall|k: StreamKey| #[trigger] sorted.contains(k) <==> keys.contains(k),
        forall|members: Seq<StreamKey>|
            members.len() > 0 && batch::keys_ordered(members) && batch::keys_of(
                members,
                members[0].table,
            ) && (forall|i: int|
                0 <= i < members.len() ==> keys.contains(#[trigger] members[i])) ==> #[trigger]
            answer(members) == other(members),
    ensures
        over_groups(groups_of(sorted, 0), answer, count) == over_groups(
            groups_of(sorted, 0),
            other,
            count,
        ),
    decreases count,
{
    let groups = groups_of(sorted, 0);
    if count > 0 {
        groups_agree(keys, sorted, answer, other, count - 1);
        groups_are_pieces(sorted, 0, count - 1);
        let start = group_start(groups, count - 1);
        start_is_a_count(groups, count - 1);
        let members = groups[count - 1];
        assert forall|i: int| 0 <= i < members.len() implies keys.contains(
            #[trigger] members[i],
        ) by {
            assert(members[i] == sorted[start + i]);
            assert(sorted.contains(sorted[start + i]));
        }
        assert forall|i: int, j: int| 0 <= i < j < members.len() implies (
        #[trigger] members[i]).rank() < (#[trigger] members[j]).rank() by {
            assert(members[i] == sorted[start + i]);
            assert(members[j] == sorted[start + j]);
        }
        assert(answer(members) == other(members));
    }
}

/// What a batch is answered one way it is answered the other way, if that is so of every group.
pub(crate) proof fn answered_again<T>(
    keys: Seq<StreamKey>,
    answer: spec_fn(Seq<StreamKey>) -> Result<Seq<T>>,
    other: spec_fn(Seq<StreamKey>) -> Result<Seq<T>>,
)
    requires
        forall|members: Seq<StreamKey>|
            members.len() > 0 && batch::keys_ordered(members) && batch::keys_of(
                members,
                members[0].table,
            ) && (forall|i: int|
                0 <= i < members.len() ==> keys.contains(#[trigger] members[i])) && (
            #[trigger] answer(members)) is Ok ==> other(members) == answer(members),
        answered(keys, answer) is Ok,
    ensures
        answered(keys, other) == answered(keys, answer),
{
    sorted_keys_facts(keys);
    let sorted = sorted_keys(keys);
    groups_again(keys, sorted, answer, other, groups_of(sorted, 0).len() as int);
}

proof fn groups_again<T>(
    keys: Seq<StreamKey>,
    sorted: Seq<StreamKey>,
    answer: spec_fn(Seq<StreamKey>) -> Result<Seq<T>>,
    other: spec_fn(Seq<StreamKey>) -> Result<Seq<T>>,
    count: int,
)
    requires
        0 <= count <= groups_of(sorted, 0).len(),
        batch::keys_ordered(sorted),
        forall|k: StreamKey| #[trigger] sorted.contains(k) <==> keys.contains(k),
        forall|members: Seq<StreamKey>|
            members.len() > 0 && batch::keys_ordered(members) && batch::keys_of(
                members,
                members[0].table,
            ) && (forall|i: int|
                0 <= i < members.len() ==> keys.contains(#[trigger] members[i])) && (
            #[trigger] answer(members)) is Ok ==> other(members) == answer(members),
        over_groups(groups_of(sorted, 0), answer, count) is Ok,
    ensures
        over_groups(groups_of(sorted, 0), other, count) == over_groups(
            groups_of(sorted, 0),
            answer,
            count,
        ),
    decreases count,
{
    let groups = groups_of(sorted, 0);
    if count > 0 {
        groups_again(keys, sorted, answer, other, count - 1);
        groups_are_pieces(sorted, 0, count - 1);
        let start = group_start(groups, count - 1);
        start_is_a_count(groups, count - 1);
        let members = groups[count - 1];
        assert forall|i: int| 0 <= i < members.len() implies keys.contains(
            #[trigger] members[i],
        ) by {
            assert(members[i] == sorted[start + i]);
            assert(sorted.contains(sorted[start + i]));
        }
        assert forall|i: int, j: int| 0 <= i < j < members.len() implies (
        #[trigger] members[i]).rank() < (#[trigger] members[j]).rank() by {
            assert(members[i] == sorted[start + i]);
            assert(members[j] == sorted[start + j]);
        }
        assert(answer(members) is Ok);
    }
}

/// A batch that is answered answers every key as a group alone would, if every group that is answered
/// does.
pub(crate) proof fn answered_batch_agrees<T>(
    keys: Seq<StreamKey>,
    answer: spec_fn(Seq<StreamKey>) -> Result<Seq<T>>,
    each: spec_fn(StreamKey) -> T,
)
    requires
        answered(keys, answer) is Ok,
        forall|members: Seq<StreamKey>|
            members.len() > 0 && batch::keys_ordered(members) && batch::keys_of(
                members,
                members[0].table,
            ) && (forall|i: int|
                0 <= i < members.len() ==> keys.contains(#[trigger] members[i])) && (
            #[trigger] answer(members)) is Ok ==> answer(members)->Ok_0 == members.map_values(each),
    ensures
        answered(keys, answer) == Ok::<Seq<T>, Error>(keys.map_values(each)),
{
    let known = |members: Seq<StreamKey>|
        if answer(members) is Ok {
            answer(members)
        } else {
            Ok(members.map_values(each))
        };
    batch_answers_each_key(keys, known, each);
    let groups = groups_of(sorted_keys(keys), 0);
    answered_groups_agree(groups, answer, known, groups.len() as int);
}

proof fn answered_groups_agree<T>(
    groups: Seq<Seq<StreamKey>>,
    answer: spec_fn(Seq<StreamKey>) -> Result<Seq<T>>,
    known: spec_fn(Seq<StreamKey>) -> Result<Seq<T>>,
    count: int,
)
    requires
        0 <= count <= groups.len(),
        over_groups(groups, answer, count) is Ok,
        forall|members: Seq<StreamKey>| (#[trigger] answer(members)) is Ok ==> known(members)
            == answer(members),
    ensures
        over_groups(groups, known, count) == over_groups(groups, answer, count),
    decreases count,
{
    if count > 0 {
        answered_groups_agree(groups, answer, known, count - 1);
        assert(answer(groups[count - 1]) is Ok);
    }
}

/// The group that a key of an answered batch is in. It is answered too.
pub(crate) proof fn group_with<T>(
    keys: Seq<StreamKey>,
    answer: spec_fn(Seq<StreamKey>) -> Result<Seq<T>>,
    at: int,
) -> (members: Seq<StreamKey>)
    requires
        0 <= at < keys.len(),
        answered(keys, answer) is Ok,
    ensures
        members.len() > 0,
        batch::keys_of(members, members[0].table),
        members.contains(keys[at]),
        forall|i: int| 0 <= i < members.len() ==> keys.contains(#[trigger] members[i]),
        answer(members) is Ok,
{
    let sorted = sorted_keys(keys);
    let groups = groups_of(sorted, 0);
    sorted_keys_facts(keys);
    assert(keys.contains(keys[at]));
    assert(sorted.contains(keys[at]));
    let place = choose|p: int| 0 <= p < sorted.len() && sorted[p] == keys[at];
    let count = groups.len() as int;
    groups_are_pieces(sorted, 0, count);
    let which = group_around(groups, place, count);
    groups_are_pieces(sorted, 0, which);
    let start = group_start(groups, which);
    start_is_a_count(groups, which);
    let members = groups[which];
    assert(members == sorted.subrange(start, start + members.len()));
    assert(members[place - start] == sorted[place]);
    assert forall|i: int| 0 <= i < members.len() implies keys.contains(#[trigger] members[i]) by {
        assert(members[i] == sorted[start + i]);
        assert(sorted.contains(members[i]));
    }
    if over_groups(groups, answer, which + 1) is Err {
        groups_refusal_is_final(groups, answer, which + 1);
    }
    members
}

proof fn start_is_a_count(groups: Seq<Seq<StreamKey>>, count: int)
    ensures
        group_start(groups, count) >= 0,
    decreases count,
{
    if count > 0 {
        start_is_a_count(groups, count - 1);
    }
}

proof fn group_around(
    groups: Seq<Seq<StreamKey>>,
    place: int,
    count: int,
) -> (which: int)
    requires
        0 <= place < group_start(groups, count),
        0 <= count <= groups.len(),
    ensures
        0 <= which < count,
        group_start(groups, which) <= place < group_start(groups, which) + groups[which].len(),
    decreases count,
{
    if place >= group_start(groups, count - 1) {
        count - 1
    } else {
        group_around(groups, place, count - 1)
    }
}

/// Whether an answer of a group goes to a position of a batch.
pub open spec fn delivers(groups: Seq<TableKeyGroup>, g: int, k: int, p: usize) -> bool {
    0 <= g < groups.len() && 0 <= k < groups[g].keys@.len() && groups[g].destinations@[k]@.contains(
        p,
    )
}

/// Grouping loses and mixes up nothing: every position of a batch gets the answer of some group, and
/// whatever answer a position gets is the one of its own key. The keys of a group are all of its
/// table and strictly ordered.
pub proof fn groups_deliver_every_answer(
    keys: Seq<StreamKey>,
    groups: Seq<TableKeyGroup>,
    p: usize,
    g: int,
    k: int,
)
    requires
        keys.len() <= usize::MAX,
        groups.len() == groups_of(sorted_keys(keys), 0).len(),
        forall|i: int|
            0 <= i < groups.len() ==> group_holds(
                #[trigger] groups[i],
                groups_of(sorted_keys(keys), 0)[i],
                keys,
            ),
    ensures
        p < keys.len() ==> exists|a: int, b: int| #[trigger] delivers(groups, a, b, p),
        delivers(groups, g, k, p) ==> p < keys.len() && groups[g].keys@[k] == keys[p as int],
        0 <= g < groups.len() && 0 <= k < groups[g].keys@.len() ==> groups[g].keys@[k].table
            == groups[g].table && keys.contains(groups[g].keys@[k]),
        0 <= g < groups.len() && 0 < k < groups[g].keys@.len() ==> groups[g].keys@[k - 1].rank()
            < groups[g].keys@[k].rank(),
{
    let sorted = sorted_keys(keys);
    let lists = groups_of(sorted, 0);
    sorted_keys_facts(keys);
    if p < keys.len() {
        let key = keys[p as int];
        assert(keys.contains(key));
        assert(sorted.contains(key));
        let place = choose|q: int| 0 <= q < sorted.len() && sorted[q] == key;
        let count = lists.len() as int;
        groups_are_pieces(sorted, 0, count);
        let which = group_around(lists, place, count);
        groups_are_pieces(sorted, 0, which);
        let start = group_start(lists, which);
        start_is_a_count(lists, which);
        let b = place - start;
        assert(group_holds(groups[which], lists[which], keys));
        assert(lists[which][b] == sorted[place]);
        positions_facts(keys, key);
        assert(groups[which].destinations@[b]@ == positions(keys, lists[which][b]));
        assert(delivers(groups, which, b, p));
    }
    if 0 <= g < groups.len() && 0 <= k < groups[g].keys@.len() {
        assert(group_holds(groups[g], lists[g], keys));
        positions_facts(keys, lists[g][k]);
        assert(groups[g].destinations@[k]@ == positions(keys, lists[g][k]));
        groups_are_pieces(sorted, 0, g);
        let start = group_start(lists, g);
        start_is_a_count(lists, g);
        assert(lists[g][k] == sorted[start + k]);
        assert(sorted.contains(lists[g][k]));
        if k > 0 {
            assert(lists[g][k - 1] == sorted[start + k - 1]);
            assert(sorted[start + k - 1].rank() < sorted[start + k].rank());
        }
    }
}

} // verus!

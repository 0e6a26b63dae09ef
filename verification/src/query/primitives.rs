//! Looking streams up at a time and sampling them on a grid of times.
use vstd::prelude::*;

use super::batch;
use super::contract::{self, VersionContract};
use super::facts::{self, Fact};
use super::group::{self, Duplicate};
use crate::error::{self, Error, Result};
use crate::limits;
use crate::manifest::catalog::UnitMeta;
use crate::retention::head::{self, HeadsView, RetentionHeads};
use crate::tail::{TailIndex, TailTable, TailTableView, TailView};
use crate::types::{CellValue, StreamKey};
use crate::unit::UnitSource;

verus! {

/// What a stream holds at a time.
#[derive(Clone, Copy, Debug, PartialEq, Eq, Structural)]
pub enum Lookup {
    Value { value: CellValue, at_ts: i64 },
    Null { at_ts: i64 },
    Missing,
}

/// What a stream holds at one time of a grid.
#[derive(Clone, Copy, Debug, PartialEq, Eq, Structural)]
pub enum Slot {
    Value { value: CellValue, source_ts: i64, carried: bool },
    Null { source_ts: i64, carried: bool },
    Gap,
}

impl View for Lookup {
    type V = Lookup;

    open spec fn view(&self) -> Lookup {
        *self
    }
}

impl Duplicate for Lookup {
    fn duplicate(&self) -> (copy: Self) {
        *self
    }
}

impl Duplicate for Vec<Slot> {
    fn duplicate(&self) -> (copy: Self) {
        let mut copy: Vec<Slot> = Vec::new();
        let mut index: usize = 0;
        while index < self.len()
            invariant
                index <= self@.len(),
                copy@ == self@.take(index as int),
            decreases self@.len() - index,
        {
            copy.push(self[index]);
            index += 1;
            assert(copy@ =~= self@.take(index as int));
        }
        assert(copy@ =~= self@);
        copy
    }
}

/// Whether a value is to be seen at the time: it must not have been retired since, and it must
/// still stand under the version that it was written under.
pub open spec fn visible(table: TailTableView, key: StreamKey, fact: Fact, at: i64) -> Result<bool> {
    match contract::resolved(table.versions, key.field, fact.timestamp) {
        Err(e) => Err(e),
        Ok(found) => Ok(
            !(table.cutoff(facts::spec_stream(key)) matches Some(cutoff) && at > cutoff
                && fact.timestamp <= cutoff) && contract::live(
                found.version.validity,
                fact.timestamp,
                at,
            ),
        ),
    }
}

/// What the last value of a stream amounts to at the time.
pub open spec fn lookup_of(
    schemas: TailView,
    key: StreamKey,
    fact: Option<Fact>,
    at: i64,
) -> Result<Lookup> {
    match fact {
        None => Ok(Lookup::Missing),
        Some(found) => match facts::key_refusal(schemas, key) {
            Some(e) => Err(e),
            None => match visible(schemas.tables[key.table], key, found, at) {
                Err(e) => Err(e),
                Ok(seen) => Ok(
                    if !seen {
                        Lookup::Missing
                    } else if found.value == CellValue::Null {
                        Lookup::Null { at_ts: found.timestamp }
                    } else {
                        Lookup::Value { value: found.value, at_ts: found.timestamp }
                    },
                ),
            },
        },
    }
}

/// What the last value of a stream amounts to at a time of a grid.
pub open spec fn slot_of(
    schemas: TailView,
    key: StreamKey,
    fact: Option<Fact>,
    at: i64,
) -> Result<Slot> {
    match fact {
        None => Ok(Slot::Gap),
        Some(found) => match facts::key_refusal(schemas, key) {
            Some(e) => Err(e),
            None => match visible(schemas.tables[key.table], key, found, at) {
                Err(e) => Err(e),
                Ok(seen) => Ok(
                    if !seen {
                        Slot::Gap
                    } else if found.value == CellValue::Null {
                        Slot::Null {
                            source_ts: found.timestamp,
                            carried: found.timestamp < at,
                        }
                    } else {
                        Slot::Value {
                            value: found.value,
                            source_ts: found.timestamp,
                            carried: found.timestamp < at,
                        }
                    },
                ),
            },
        },
    }
}

/// The value that was found, or else the one that retention kept.
pub open spec fn headed(
    fact: Option<Fact>,
    heads: Option<HeadsView>,
    key: StreamKey,
    at: i64,
) -> Option<Fact> {
    match fact {
        Some(found) => Some(found),
        None => match heads {
            None => None,
            Some(list) => match head::head_of(list.entries, key) {
                Some(kept) => if kept.fact_ts <= at {
                    Some(Fact { timestamp: kept.fact_ts, value: kept.value })
                } else {
                    None
                },
                None => None,
            },
        },
    }
}

/// What the first `count` keys of a group are answered.
pub open spec fn looked_up(
    schemas: TailView,
    heads: Option<HeadsView>,
    keys: Seq<StreamKey>,
    found: Seq<Option<Fact>>,
    at: i64,
    count: int,
) -> Result<Seq<Lookup>>
    decreases count,
{
    if count <= 0 {
        Ok(Seq::empty())
    } else {
        match looked_up(schemas, heads, keys, found, at, count - 1) {
            Err(e) => Err(e),
            Ok(list) => match lookup_of(
                schemas,
                keys[count - 1],
                headed(found[count - 1], heads, keys[count - 1], at),
                at,
            ) {
                Err(e) => Err(e),
                Ok(lookup) => Ok(list.push(lookup)),
            },
        }
    }
}

/// The time at which a group is looked up: the given one, or else the latest of its table.
pub open spec fn lookup_time(schemas: TailView, keys: Seq<StreamKey>, at: Option<i64>) -> Option<
    i64,
> {
    match at {
        Some(time) => Some(time),
        None => schemas.tables[keys[0].table].last_ts,
    }
}

/// What the keys of one table are answered at the time.
pub open spec fn group_lookups<S: UnitSource>(
    source: &S,
    units: Seq<UnitMeta>,
    schemas: TailView,
    heads: Option<HeadsView>,
    keys: Seq<StreamKey>,
    at: Option<i64>,
) -> Result<Seq<Lookup>> {
    match lookup_time(schemas, keys, at) {
        None => Ok(Seq::new(keys.len(), |i: int| Lookup::Missing)),
        Some(time) => match batch::predecessors_of(source, units, schemas, keys, time) {
            Err(e) => Err(e),
            Ok(found) => looked_up(schemas, heads, keys, found, time, keys.len() as int),
        },
    }
}

/// What the keys are answered at the time, or at the latest time of the table of each.
pub open spec fn lookups<S: UnitSource>(
    source: &S,
    units: Seq<UnitMeta>,
    schemas: TailView,
    heads: Option<HeadsView>,
    keys: Seq<StreamKey>,
    at: Option<i64>,
) -> Result<Seq<Lookup>> {
    match batch::keys_refusal(schemas, keys, keys.len() as int) {
        Some(e) => Err(e),
        None => match limits::memory_refusal(
            keys.len() as int,
            vstd::layout::size_of::<Lookup>() as int,
        ) {
            Some(e) => Err(e),
            None => group::answered(
                keys,
                |members: Seq<StreamKey>|
                    group_lookups(source, units, schemas, heads, members, at),
            ),
        },
    }
}

fn fact_is_visible(table: &TailTable, key: StreamKey, fact: Fact, at: i64) -> (r: Result<bool>)
    requires
        table.wf(),
    ensures
        r == visible(table@, key, fact, at),
{
    proof {
        assert forall|i: int| 0 <= i < table.versions@.len() implies (
        #[trigger] table.versions@[i]).wf() by {
            assert(table@.versions[i] == table.versions@[i]@);
            assert(table@.versions[i].wf());
        }
    }
    let found = match VersionContract::resolve(
        table.versions.as_slice(),
        key.field,
        fact.timestamp,
    ) {
        Ok(found) => found,
        Err(e) => return Err(e),
    };
    if let Some(cutoff) = table.cutoff(facts::stream_of(key)) {
        if at > cutoff && fact.timestamp <= cutoff {
            return Ok(false);
        }
    }
    Ok(found.is_live(fact.timestamp, at))
}

fn lookup(schemas: &TailIndex, key: StreamKey, fact: Option<Fact>, at: i64) -> (r: Result<Lookup>)
    requires
        schemas.wf(),
    ensures
        r == lookup_of(schemas@, key, fact, at),
{
    let found = match fact {
        Some(found) => found,
        None => return Ok(Lookup::Missing),
    };
    let table = match facts::validate_key(schemas, key) {
        Ok(table) => table,
        Err(e) => return Err(e),
    };
    match fact_is_visible(table, key, found, at) {
        Err(e) => Err(e),
        Ok(false) => Ok(Lookup::Missing),
        Ok(true) => match found.value {
            CellValue::Null => Ok(Lookup::Null { at_ts: found.timestamp }),
            value => Ok(Lookup::Value { value, at_ts: found.timestamp }),
        },
    }
}

pub(crate) fn slot(schemas: &TailIndex, key: StreamKey, fact: Option<Fact>, at: i64) -> (r: Result<Slot>)
    requires
        schemas.wf(),
    ensures
        r == slot_of(schemas@, key, fact, at),
{
    let found = match fact {
        Some(found) => found,
        None => return Ok(Slot::Gap),
    };
    let table = match facts::validate_key(schemas, key) {
        Ok(table) => table,
        Err(e) => return Err(e),
    };
    let carried = found.timestamp < at;
    match fact_is_visible(table, key, found, at) {
        Err(e) => Err(e),
        Ok(false) => Ok(Slot::Gap),
        Ok(true) => match found.value {
            CellValue::Null => Ok(Slot::Null { source_ts: found.timestamp, carried }),
            value => Ok(Slot::Value { value, source_ts: found.timestamp, carried }),
        },
    }
}

pub(crate) fn with_head(
    fact: Option<Fact>,
    heads: Option<&RetentionHeads>,
    key: StreamKey,
    at: i64,
) -> (found: Option<Fact>)
    requires
        heads matches Some(list) ==> list.valid(),
    ensures
        found == headed(fact, head::view_of(heads), key, at),
{
    if fact.is_some() {
        return fact;
    }
    match heads {
        None => None,
        Some(list) => match list.find(key) {
            Some(kept) => if kept.fact_ts <= at {
                Some(Fact { timestamp: kept.fact_ts, value: kept.value })
            } else {
                None
            },
            None => None,
        },
    }
}

proof fn lookups_refusal_is_final(
    schemas: TailView,
    heads: Option<HeadsView>,
    keys: Seq<StreamKey>,
    found: Seq<Option<Fact>>,
    at: i64,
    count: int,
)
    requires
        0 <= count <= keys.len(),
        looked_up(schemas, heads, keys, found, at, count) is Err,
    ensures
        looked_up(schemas, heads, keys, found, at, keys.len() as int) == looked_up(
            schemas,
            heads,
            keys,
            found,
            at,
            count,
        ),
    decreases keys.len() - count,
{
    if count < keys.len() {
        lookups_refusal_is_final(schemas, heads, keys, found, at, count + 1);
    }
}

fn lookup_group<S: UnitSource>(
    units: &[UnitMeta],
    source: &S,
    schemas: &TailIndex,
    heads: Option<&RetentionHeads>,
    keys: &[StreamKey],
    at: Option<i64>,
) -> (r: Result<Vec<Lookup>>)
    requires
        schemas.wf(),
        heads matches Some(list) ==> list.valid(),
        keys@.len() > 0,
        schemas@.tables.contains_key(keys@[0].table),
    ensures
        error::lists(r, group_lookups(source, units@, schemas@, head::view_of(heads), keys@, at)),
        r matches Ok(list) ==> list@.len() == keys@.len(),
{
    let time: Option<i64> = match at {
        Some(time) => Some(time),
        None => match schemas.table(keys[0].table) {
            Some(table) => table.last_ts,
            None => return Err(Error::invalid("key", "table is absent")),
        },
    };
    assert(time == lookup_time(schemas@, keys@, at));
    let mut values: Vec<Lookup> = Vec::new();
    match time {
        None => {
            let mut index: usize = 0;
            while index < keys.len()
                invariant
                    index <= keys@.len(),
                    values@.len() == index,
                    forall|i: int| 0 <= i < index ==> (#[trigger] values@[i]) == Lookup::Missing,
                decreases keys@.len() - index,
            {
                values.push(Lookup::Missing);
                index += 1;
            }
            assert(values@ =~= Seq::new(keys@.len(), |i: int| Lookup::Missing));
        },
        Some(moment) => {
            let found = match batch::predecessors(units, source, schemas, keys, moment) {
                Ok(found) => found,
                Err(e) => return Err(e),
            };
            let mut index: usize = 0;
            while index < keys.len()
                invariant
                    schemas.wf(),
                    heads matches Some(list) ==> list.valid(),
                    found@.len() == keys@.len(),
                    index <= keys@.len(),
                    values@.len() == index,
                    group_lookups(
                        source,
                        units@,
                        schemas@,
                        head::view_of(heads),
                        keys@,
                        at,
                    ) == looked_up(
                        schemas@,
                        head::view_of(heads),
                        keys@,
                        found@,
                        moment,
                        keys@.len() as int,
                    ),
                    looked_up(
                        schemas@,
                        head::view_of(heads),
                        keys@,
                        found@,
                        moment,
                        index as int,
                    ) == Ok::<Seq<Lookup>, Error>(values@),
                decreases keys@.len() - index,
            {
                proof {
                    if looked_up(
                        schemas@,
                        head::view_of(heads),
                        keys@,
                        found@,
                        moment,
                        index + 1,
                    ) is Err {
                        lookups_refusal_is_final(
                            schemas@,
                            head::view_of(heads),
                            keys@,
                            found@,
                            moment,
                            index + 1,
                        );
                    }
                }
                let key = keys[index];
                match lookup(schemas, key, with_head(found[index], heads, key, moment), moment) {
                    Ok(value) => values.push(value),
                    Err(e) => return Err(e),
                }
                index += 1;
            }
        },
    }
    Ok(values)
}

/// The views of a collected list.
pub(crate) proof fn collected<T: View>(output: Seq<Option<T>>, list: Seq<T>)
    requires
        group::all_filled(output),
        list == output.map_values(|item: Option<T>| item->Some_0),
    ensures
        list.map_values(|value: T| value@) == group::option_views(output).map_values(
            |item: Option<<T as View>::V>| item->Some_0,
        ),
{
    assert forall|i: int| 0 <= i < output.len() implies (#[trigger] list[i])@
        == group::option_views(output)[i]->Some_0 by {
        assert(output[i] is Some);
    }
    assert(list.map_values(|value: T| value@) =~= group::option_views(output).map_values(
        |item: Option<<T as View>::V>| item->Some_0,
    ));
}

fn lookup_all<S: UnitSource>(
    units: &[UnitMeta],
    source: &S,
    schemas: &TailIndex,
    heads: Option<&RetentionHeads>,
    keys: &[StreamKey],
    at: Option<i64>,
) -> (r: Result<Vec<Lookup>>)
    requires
        schemas.wf(),
        heads matches Some(list) ==> list.valid(),
    ensures
        error::lists(r, lookups(source, units@, schemas@, head::view_of(heads), keys@, at)),
{
    if let Err(e) = batch::validate_keys(schemas, keys) {
        return Err(e);
    }
    let count: usize = keys.len();
    if let Err(e) = limits::ensure_memory(count, core::mem::size_of::<Lookup>()) {
        return Err(e);
    }
    let ghost sorted = group::sorted_keys(keys@);
    let ghost parts = group::groups_of(sorted, 0);
    let ghost answer = |members: Seq<StreamKey>|
        group_lookups(source, units@, schemas@, head::view_of(heads), members, at);
    let mut output: Vec<Option<Lookup>> = group::empty_output(count);
    let ghost mut done: Seq<Lookup> = Seq::empty();
    let groups = group::group_keys(keys);
    proof {
        group::sorted_keys_facts(keys@);
        group::nothing_filled(group::option_views(output@), keys@);
    }
    let mut index: usize = 0;
    while index < groups.len()
        invariant
            schemas.wf(),
            heads matches Some(list) ==> list.valid(),
            keys@.len() == count,
            batch::keys_refusal(schemas@, keys@, keys@.len() as int) is None,
            sorted == group::sorted_keys(keys@),
            forall|k: StreamKey| #[trigger] sorted.contains(k) <==> keys@.contains(k),
            parts == group::groups_of(sorted, 0),
            answer == (|members: Seq<StreamKey>|
                group_lookups(source, units@, schemas@, head::view_of(heads), members, at)),
            lookups(source, units@, schemas@, head::view_of(heads), keys@, at) == group::answered(
                keys@,
                answer,
            ),
            groups@.len() == parts.len(),
            forall|i: int|
                0 <= i < groups@.len() ==> group::group_holds(
                    #[trigger] groups@[i],
                    parts[i],
                    keys@,
                ),
            index <= groups@.len(),
            group::over_groups(parts, answer, index as int) == Ok::<Seq<Lookup>, Error>(done),
            group::filled_to(
                group::option_views(output@),
                keys@,
                sorted,
                done,
                group::group_start(parts, index as int),
            ),
            0 <= group::group_start(parts, index as int),
        decreases groups@.len() - index,
    {
        let part = &groups[index];
        let ghost members = parts[index as int];
        let ghost start = group::group_start(parts, index as int);
        proof {
            assert(group::group_holds(groups@[index as int], members, keys@));
            group::groups_are_pieces(sorted, 0, index as int);
            assert(sorted[start] == members[0]);
            assert(sorted.contains(members[0]));
            let p = choose|p: int| 0 <= p < keys@.len() && keys@[p] == members[0];
            accepted_keys(schemas@, keys@, p);
            if group::over_groups(parts, answer, index + 1) is Err {
                group::groups_refusal_is_final(parts, answer, index + 1);
            }
        }
        let values = match lookup_group(units, source, schemas, heads, part.keys(), at) {
            Ok(values) => values,
            Err(e) => return Err(e),
        };
        let ghost views = values@.map_values(|value: Lookup| value@);
        proof {
            assert(views =~= values@);
            group::scatter_extends(
                group::option_views(output@),
                part.destinations@,
                views,
                done,
                keys@,
                sorted,
                start,
                members,
            );
            assert(answer(members) == Ok::<Seq<Lookup>, Error>(values@));
        }
        if let Err(e) = group::scatter(&mut output, part.destinations(), values) {
            assert(false);
            return Err(e);
        }
        proof {
            done = done + views;
        }
        index += 1;
    }
    proof {
        group::groups_are_pieces(sorted, 0, parts.len() as int);
        group::everything_filled(group::option_views(output@), keys@, done);
        assert forall|p: int| 0 <= p < output@.len() implies (#[trigger] output@[p]) is Some by {
            assert(group::option_views(output@)[p] is Some);
        }
    }
    let ghost places = output@;
    match group::collect_output(output) {
        Ok(list) => {
            proof {
                collected(places, list@);
                assert(list@ =~= list@.map_values(|value: Lookup| value@));
            }
            Ok(list)
        },
        Err(e) => {
            assert(false);
            Err(e)
        },
    }
}

/// Each of accepted keys can be queried.
pub(crate) proof fn accepted_keys(schemas: TailView, keys: Seq<StreamKey>, at: int)
    requires
        0 <= at < keys.len(),
        batch::keys_refusal(schemas, keys, keys.len() as int) is None,
    ensures
        facts::key_refusal(schemas, keys[at]) is None,
{
    batch::keys_refusal_is_final(schemas, keys, at + 1);
    batch::keys_refusal_is_final(schemas, keys, at);
}

/// What each stream holds at a time.
pub fn value_at<S: UnitSource>(
    units: &[UnitMeta],
    source: &S,
    schemas: &TailIndex,
    keys: &[StreamKey],
    at: i64,
) -> (r: Result<Vec<Lookup>>)
    requires
        schemas.wf(),
    ensures
        error::lists(r, lookups(source, units@, schemas@, None, keys@, Some(at))),
{
    value_at_with_heads(units, source, schemas, None, keys, at)
}

/// What each stream holds at a time, with what retention kept.
pub fn value_at_with_heads<S: UnitSource>(
    units: &[UnitMeta],
    source: &S,
    schemas: &TailIndex,
    heads: Option<&RetentionHeads>,
    keys: &[StreamKey],
    at: i64,
) -> (r: Result<Vec<Lookup>>)
    requires
        schemas.wf(),
        heads matches Some(list) ==> list.valid(),
    ensures
        error::lists(r, lookups(source, units@, schemas@, head::view_of(heads), keys@, Some(at))),
{
    lookup_all(units, source, schemas, heads, keys, Some(at))
}

/// What each stream holds at the latest time of its table.
pub fn latest<S: UnitSource>(
    units: &[UnitMeta],
    source: &S,
    schemas: &TailIndex,
    keys: &[StreamKey],
) -> (r: Result<Vec<Lookup>>)
    requires
        schemas.wf(),
    ensures
        error::lists(r, lookups(source, units@, schemas@, None, keys@, None)),
{
    latest_with_heads(units, source, schemas, None, keys)
}

/// What each stream holds at the latest time of its table, with what retention kept.
pub fn latest_with_heads<S: UnitSource>(
    units: &[UnitMeta],
    source: &S,
    schemas: &TailIndex,
    heads: Option<&RetentionHeads>,
    keys: &[StreamKey],
) -> (r: Result<Vec<Lookup>>)
    requires
        schemas.wf(),
        heads matches Some(list) ==> list.valid(),
    ensures
        error::lists(r, lookups(source, units@, schemas@, head::view_of(heads), keys@, None)),
{
    lookup_all(units, source, schemas, heads, keys, None)
}

/// After a stream was retired its earlier values are gone; values that came later are judged by
/// their validity alone.
pub proof fn retirement_hides_earlier_values(
    table: TailTableView,
    key: StreamKey,
    fact: Fact,
    at: i64,
    cutoff: i64,
)
    requires
        table.cutoff(facts::spec_stream(key)) == Some(cutoff),
        contract::resolved(table.versions, key.field, fact.timestamp) is Ok,
    ensures
        fact.timestamp <= cutoff && cutoff < at ==> visible(table, key, fact, at) == Ok::<
            bool,
            Error,
        >(false),
        cutoff < fact.timestamp || at <= cutoff ==> visible(table, key, fact, at) == Ok::<
            bool,
            Error,
        >(
            contract::live(
                contract::resolved(
                    table.versions,
                    key.field,
                    fact.timestamp,
                )->Ok_0.version.validity,
                fact.timestamp,
                at,
            ),
        ),
{
}

} // verus!

//! A sampling of a sound store has at every time of the grid what a lookup finds there.
use vstd::prelude::*;

use super::batch;
use super::facts::{self, Fact};
use super::group;
use super::meaning;
use super::plan::{self, PlannedSection};
use super::primitives::{self, Slot};
use super::recall;
use super::sample::{self, RunView, SampleRun, StateView};
use crate::error::{Error, Result};
use crate::limits::{self, Limit};
use crate::manifest::catalog::UnitMeta;
use crate::retention::head::{self, HeadsView};
use crate::tail::{RowView, TailView};
use crate::types::StreamKey;
use crate::unit::{self, SectionView, UnitSource};

verus! {

/// The values of one key among the values of several.
pub(crate) open spec fn of_index(list: Seq<(int, Fact)>, index: int) -> Seq<Fact>
    decreases list.len(),
{
    if list.len() == 0 {
        Seq::empty()
    } else {
        let earlier = of_index(list.drop_last(), index);
        if list.last().0 == index {
            earlier.push(list.last().1)
        } else {
            earlier
        }
    }
}

/// Whether every value is of one of the first `width` keys.
pub(crate) open spec fn indexed(list: Seq<(int, Fact)>, width: int) -> bool {
    forall|i: int| 0 <= i < list.len() ==> 0 <= (#[trigger] list[i]).0 < width
}

pub(crate) proof fn of_index_join(first: Seq<(int, Fact)>, second: Seq<(int, Fact)>, index: int)
    ensures
        of_index(first + second, index) == of_index(first, index) + of_index(second, index),
    decreases second.len(),
{
    let both = first + second;
    if second.len() > 0 {
        of_index_join(first, second.drop_last(), index);
        assert(both.drop_last() =~= first + second.drop_last());
        let a = of_index(first, index);
        let b = of_index(second.drop_last(), index);
        assert(a + b.push(second.last().1) =~= (a + b).push(second.last().1));
    } else {
        assert(both =~= first);
        assert(of_index(first, index) + Seq::<Fact>::empty() =~= of_index(first, index));
    }
}

proof fn of_visits(owner: int, list: Seq<Fact>, index: int)
    ensures
        of_index(batch::visits_of(owner, list), index) == (if owner == index {
            list
        } else {
            Seq::empty()
        }),
    decreases list.len(),
{
    let visits = batch::visits_of(owner, list);
    if list.len() > 0 {
        of_visits(owner, list.drop_last(), index);
        assert(visits.drop_last() =~= batch::visits_of(owner, list.drop_last()));
        if owner == index {
            assert(list.drop_last().push(list.last()) =~= list);
        }
    } else if owner == index {
        assert(list =~= Seq::<Fact>::empty());
    }
}

/// The values of a key in a beginning of the list are a beginning of its values.
pub(crate) proof fn of_index_prefix(list: Seq<(int, Fact)>, index: int, count: int)
    requires
        0 <= count <= list.len(),
    ensures
        of_index(list.take(count), index).len() <= of_index(list, index).len(),
        forall|i: int|
            0 <= i < of_index(list.take(count), index).len() ==> #[trigger] of_index(
                list.take(count),
                index,
            )[i] == of_index(list, index)[i],
{
    of_index_join(list.take(count), list.skip(count), index);
    assert(list.take(count) + list.skip(count) =~= list);
}

/// The columns of a section give every key its values in the range.
pub(crate) proof fn columns_visit(
    keys: Seq<StreamKey>,
    start: i64,
    end: i64,
    rows: SectionView,
    count: int,
)
    requires
        0 <= count <= rows.columns.len(),
        keys.len() > 0,
        batch::keys_ordered(keys),
        batch::keys_of(keys, keys[0].table),
        forall|i: int, j: int|
            0 <= i < j < rows.columns.len() ==> (#[trigger] rows.columns[i]).stream != (
            #[trigger] rows.columns[j]).stream,
        forall|k: int|
            0 <= k < rows.columns.len() ==> batch::streams_of_keys(keys).contains(
                (#[trigger] rows.columns[k]).stream,
            ),
    ensures
        ({
            let visits = batch::column_visits(keys, start, end, rows, count);
            &&& visits.failure is None
            &&& indexed(visits.list, keys.len() as int)
            &&& forall|i: int|
                0 <= i < keys.len() ==> of_index(visits.list, i) == facts::facts_within(
                    meaning::rows_facts(
                        recall::first_columns(rows, count),
                        facts::spec_stream(#[trigger] keys[i]),
                    ),
                    start,
                    end,
                )
        }),
    decreases count,
{
    let visits = batch::column_visits(keys, start, end, rows, count);
    if count > 0 {
        columns_visit(keys, start, end, rows, count - 1);
        let before = batch::column_visits(keys, start, end, rows, count - 1);
        let column = rows.columns[count - 1];
        let key = StreamKey {
            table: keys[0].table,
            series: column.stream.series,
            field: column.stream.field,
        };
        let streams = batch::streams_of_keys(keys);
        assert(streams.contains(column.stream));
        let p = choose|p: int| 0 <= p < streams.len() && streams[p] == column.stream;
        assert(keys[p].table == keys[0].table);
        assert(keys[p] == key);
        group::position_unique(keys, p);
        let list = facts::facts_within(
            facts::column_facts(rows.timestamps, column.cells),
            start,
            end,
        );
        assert forall|i: int| 0 <= i < keys.len() implies of_index(visits.list, i)
            == facts::facts_within(
            meaning::rows_facts(
                recall::first_columns(rows, count),
                facts::spec_stream(#[trigger] keys[i]),
            ),
            start,
            end,
        ) by {
            of_index_join(before.list, batch::visits_of(p, list), i);
            of_visits(p, list, i);
            recall::one_more_column(rows, count, facts::spec_stream(keys[i]));
            if i == p {
                assert(of_index(before.list, i) =~= Seq::<Fact>::empty());
                assert(Seq::<Fact>::empty() + list =~= list);
            } else {
                group::position_unique(keys, i);
                assert(keys[i].table == keys[0].table);
                assert(of_index(before.list, i) + Seq::<Fact>::empty() =~= of_index(
                    before.list,
                    i,
                ));
            }
        }
    } else {
        assert forall|i: int| 0 <= i < keys.len() implies of_index(visits.list, i)
            == facts::facts_within(
            meaning::rows_facts(
                recall::first_columns(rows, 0),
                facts::spec_stream(#[trigger] keys[i]),
            ),
            start,
            end,
        ) by {
            assert(!meaning::has_column(
                recall::first_columns(rows, 0).columns,
                facts::spec_stream(keys[i]),
            ));
        }
    }
}

/// A section gives every key its values in the range.
proof fn section_visits_each<S: UnitSource>(
    source: &S,
    units: Seq<UnitMeta>,
    schemas: TailView,
    keys: Seq<StreamKey>,
    start: i64,
    end: i64,
    planned: PlannedSection,
)
    requires
        keys.len() > 0,
        batch::keys_ordered(keys),
        batch::keys_of(keys, keys[0].table),
        meaning::section_sound(source, schemas.tables[keys[0].table].versions, planned),
    ensures
        ({
            let table = schemas.tables[keys[0].table];
            let visits = batch::section_visits(source, table, keys, start, end, planned);
            &&& visits.failure is None
            &&& indexed(visits.list, keys.len() as int)
            &&& forall|i: int|
                0 <= i < keys.len() ==> of_index(visits.list, i) == facts::facts_within(
                    meaning::rows_facts(
                        meaning::section_rows(source, table.versions, planned),
                        facts::spec_stream(#[trigger] keys[i]),
                    ),
                    start,
                    end,
                )
        }),
{
    let table = schemas.tables[keys[0].table];
    let visits = batch::section_visits(source, table, keys, start, end, planned);
    let rows = meaning::section_rows(source, table.versions, planned);
    let streams = batch::streams_of_keys(keys);
    let part = SectionView {
        timestamps: rows.timestamps,
        columns: unit::columns_of(rows.columns, streams, rows.columns.len() as int),
    };
    meaning::asked_columns(rows.columns, streams, rows.columns.len() as int);
    columns_visit(keys, start, end, part, part.columns.len() as int);
    assert(recall::first_columns(part, part.columns.len() as int).columns =~= part.columns);
    assert(recall::first_columns(part, part.columns.len() as int) == part);
    assert forall|i: int| 0 <= i < keys.len() implies of_index(visits.list, i)
        == facts::facts_within(
        meaning::rows_facts(rows, facts::spec_stream(#[trigger] keys[i])),
        start,
        end,
    ) by {
        assert(streams[i] == facts::spec_stream(keys[i]));
        assert(streams.contains(facts::spec_stream(keys[i])));
        recall::asked_facts(rows, streams, facts::spec_stream(keys[i]));
    }
}

/// Planned sections give every key its values in the range.
proof fn planned_visit_each<S: UnitSource>(
    source: &S,
    units: Seq<UnitMeta>,
    schemas: TailView,
    keys: Seq<StreamKey>,
    start: i64,
    end: i64,
    planned: Seq<PlannedSection>,
    count: int,
)
    requires
        keys.len() > 0,
        batch::keys_ordered(keys),
        batch::keys_of(keys, keys[0].table),
        0 <= count <= planned.len(),
        forall|k: int|
            0 <= k < planned.len() ==> meaning::section_sound(
                source,
                schemas.tables[keys[0].table].versions,
                #[trigger] planned[k],
            ),
    ensures
        ({
            let table = schemas.tables[keys[0].table];
            let visits = batch::planned_visits(source, table, keys, start, end, planned, count);
            &&& visits.failure is None
            &&& indexed(visits.list, keys.len() as int)
            &&& forall|i: int|
                0 <= i < keys.len() ==> of_index(visits.list, i) == meaning::ranged(
                    source,
                    table.versions,
                    planned,
                    facts::spec_stream(#[trigger] keys[i]),
                    start,
                    end,
                    count,
                )
        }),
    decreases count,
{
    if count > 0 {
        let table = schemas.tables[keys[0].table];
        planned_visit_each(source, units, schemas, keys, start, end, planned, count - 1);
        section_visits_each(source, units, schemas, keys, start, end, planned[count - 1]);
        let before = batch::planned_visits(
            source,
            table,
            keys,
            start,
            end,
            planned,
            count - 1,
        );
        let here = batch::section_visits(source, table, keys, start, end, planned[count - 1]);
        let visits = batch::planned_visits(source, table, keys, start, end, planned, count);
        assert forall|i: int| 0 <= i < keys.len() implies of_index(visits.list, i)
            == meaning::ranged(
            source,
            table.versions,
            planned,
            facts::spec_stream(#[trigger] keys[i]),
            start,
            end,
            count,
        ) by {
            of_index_join(before.list, here.list, i);
        }
    }
}

/// The tail gives every key its values in the range.
pub(crate) proof fn tail_visits_each(
    rows: Seq<RowView>,
    keys: Seq<StreamKey>,
    start: i64,
    end: i64,
    count: int,
)
    requires
        0 <= count <= keys.len(),
    ensures
        indexed(batch::tail_visits(rows, keys, start, end, count), count),
        forall|i: int|
            0 <= i < count ==> of_index(
                batch::tail_visits(rows, keys, start, end, count),
                i,
            ) == facts::facts_within(
                facts::tail_facts(rows, facts::spec_stream(#[trigger] keys[i])),
                start,
                end,
            ),
        forall|i: int|
            count <= i ==> (#[trigger] of_index(
                batch::tail_visits(rows, keys, start, end, count),
                i,
            )).len() == 0,
    decreases count,
{
    if count > 0 {
        tail_visits_each(rows, keys, start, end, count - 1);
        let before = batch::tail_visits(rows, keys, start, end, count - 1);
        let after = batch::tail_visits(rows, keys, start, end, count);
        let list = facts::facts_within(
            facts::tail_facts(rows, facts::spec_stream(keys[count - 1])),
            start,
            end,
        );
        assert forall|i: int| 0 <= i < count implies of_index(after, i) == facts::facts_within(
            facts::tail_facts(rows, facts::spec_stream(#[trigger] keys[i])),
            start,
            end,
        ) by {
            of_index_join(before, batch::visits_of(count - 1, list), i);
            of_visits(count - 1, list, i);
            if i == count - 1 {
                assert(of_index(before, i) =~= Seq::<Fact>::empty());
                assert(Seq::<Fact>::empty() + list =~= list);
            } else {
                assert(of_index(before, i) + Seq::<Fact>::empty() =~= of_index(before, i));
            }
        }
        assert forall|i: int| count <= i implies (#[trigger] of_index(after, i)).len() == 0 by {
            of_index_join(before, batch::visits_of(count - 1, list), i);
            of_visits(count - 1, list, i);
        }
    }
}

/// A walk over several streams of a table gives every stream its values in the range.
proof fn visits_each_stream<S: UnitSource>(
    source: &S,
    units: Seq<UnitMeta>,
    schemas: TailView,
    keys: Seq<StreamKey>,
    start: i64,
    end: i64,
)
    requires
        keys.len() > 0,
        batch::group_refusal(schemas, keys[0].table, keys) is None,
        meaning::sound(source, units, schemas, keys[0].table),
        meaning::plan_fits(source, units, keys[0].table),
        start <= end,
    ensures
        ({
            let visits = batch::table_visits(source, units, schemas, keys, start, end);
            &&& visits.failure is None
            &&& indexed(visits.list, keys.len() as int)
            &&& forall|i: int|
                0 <= i < keys.len() ==> of_index(visits.list, i) == facts::facts_within(
                    meaning::stream_facts(source, units, schemas, #[trigger] keys[i]),
                    start,
                    end,
                )
        }),
{
    let id = keys[0].table;
    let table = schemas.tables[id];
    let all = meaning::all_sections(source, units, id, units.len() as int);
    let visits = batch::table_visits(source, units, schemas, keys, start, end);
    meaning::plan_is_what_touches(source, units, schemas, id, start, end);
    let planned = plan::planned(source, units, id, start, end)->Ok_0;
    meaning::touching_facts(all, start, end, all.len() as int);
    assert forall|k: int| 0 <= k < planned.len() implies meaning::section_sound(
        source,
        table.versions,
        #[trigger] planned[k],
    ) by {
        let at = choose|at: int| 0 <= at < all.len() && (#[trigger] all[at]) == planned[k];
        assert(meaning::section_sound(source, table.versions, all[at]));
    }
    if planned.len() > 0 && table.rows.len() > 0 {
        let last = planned.len() - 1;
        assert(planned[last] == planned.last());
        let at = choose|at: int| 0 <= at < all.len() && (#[trigger] all[at]) == planned[last];
        assert(all[at].section.max_ts < table.rows[0].timestamp);
    }
    planned_visit_each(
        source,
        units,
        schemas,
        keys,
        start,
        end,
        planned,
        planned.len() as int,
    );
    tail_visits_each(table.rows, keys, start, end, keys.len() as int);
    let sealed = batch::planned_visits(
        source,
        table,
        keys,
        start,
        end,
        planned,
        planned.len() as int,
    );
    let rest = batch::tail_visits(table.rows, keys, start, end, keys.len() as int);
    assert forall|i: int| 0 <= i < keys.len() implies of_index(visits.list, i)
        == facts::facts_within(
        meaning::stream_facts(source, units, schemas, #[trigger] keys[i]),
        start,
        end,
    ) by {
        let stream = facts::spec_stream(keys[i]);
        assert(keys[i].table == id);
        let held = meaning::sealed_facts(source, table.versions, all, stream, all.len() as int);
        of_index_join(sealed.list, rest, i);
        meaning::within_join(held, facts::tail_facts(table.rows, stream), start, end);
        if start == end {
            meaning::nothing_within(held, start, end);
        } else {
            meaning::touching_holds_range(
                source,
                units,
                schemas,
                id,
                stream,
                start,
                end,
                all.len() as int,
            );
        }
    }
}

/// The first time of the grid, from `from` on, that is not before `until`.
spec fn reach(start: i64, step: u32, slot_count: int, from: int, until: Option<i64>) -> int
    decreases slot_count - from,
{
    if from >= slot_count {
        from
    } else if until matches Some(next) && start + from * step >= next {
        from
    } else {
        reach(start, step, slot_count, from + 1, until)
    }
}

proof fn reach_facts(start: i64, step: u32, slot_count: int, from: int, until: Option<i64>)
    requires
        0 <= from <= slot_count,
    ensures
        ({
            let r = reach(start, step, slot_count, from, until);
            &&& from <= r <= slot_count
            &&& r < slot_count ==> until is Some && start + r * step >= until->Some_0
            &&& until matches Some(next) ==> forall|j: int|
                from <= j < r ==> start + #[trigger] (j * step) < next
            &&& forall|m: int|
                from <= m <= r ==> #[trigger] reach(start, step, slot_count, m, until) == r
        }),
    decreases slot_count - from,
{
    if from < slot_count {
        if until matches Some(next) && start + from * step >= next {
        } else {
            reach_facts(start, step, slot_count, from + 1, until);
        }
    }
}

/// Filling the grid with one value up to a time.
proof fn fill_with(
    schemas: TailView,
    key: StreamKey,
    start: i64,
    step: u32,
    slot_count: int,
    current: Option<Fact>,
    expected: Seq<Slot>,
    from: int,
    until: Option<i64>,
)
    requires
        0 <= from <= slot_count,
        expected.len() == slot_count,
        forall|j: int|
            0 <= j < slot_count ==> #[trigger] sample::grid_time(start, step, j) == Ok::<
                i64,
                Error,
            >((start + j * step) as i64) && i64::MIN <= start + j * step <= i64::MAX,
        forall|j: int|
            from <= j < reach(start, step, slot_count, from, until) ==> primitives::slot_of(
                schemas,
                key,
                current,
                (start + j * step) as i64,
            ) == Ok::<Slot, Error>(#[trigger] expected[j]),
    ensures
        sample::filled(
            schemas,
            key,
            start,
            step,
            slot_count,
            StateView { current, slots: expected.take(from) },
            until,
        ) == Ok::<StateView, Error>(
            StateView {
                current,
                slots: expected.take(reach(start, step, slot_count, from, until)),
            },
        ),
    decreases slot_count - from,
{
    if from < slot_count {
        assert(sample::grid_time(start, step, from) == Ok::<i64, Error>(
            (start + from * step) as i64,
        ));
        if until matches Some(next) && start + from * step >= next {
        } else {
            reach_facts(start, step, slot_count, from + 1, until);
            assert(primitives::slot_of(schemas, key, current, (start + from * step) as i64) == Ok::<
                Slot,
                Error,
            >(expected[from]));
            assert(expected.take(from).push(expected[from]) =~= expected.take(from + 1));
            fill_with(
                schemas,
                key,
                start,
                step,
                slot_count,
                current,
                expected,
                from + 1,
                until,
            );
        }
    }
}

/// The value in force after `count` of the values of the range.
spec fn current_of(initial: Option<Fact>, within: Seq<Fact>, count: int) -> Option<Fact> {
    if count <= 0 {
        initial
    } else {
        Some(within[count - 1])
    }
}

/// Whether the slots are those that the values give.
spec fn slots_fit(
    schemas: TailView,
    key: StreamKey,
    start: i64,
    step: u32,
    initial: Option<Fact>,
    within: Seq<Fact>,
    expected: Seq<Slot>,
) -> bool {
    forall|j: int, n: int|
        #![trigger expected[j], current_of(initial, within, n)]
        0 <= j < expected.len() && 0 <= n <= within.len() && (n == 0 || within[n - 1].timestamp
            <= start + j * step) && (n == within.len() || start + j * step
            < within[n].timestamp) ==> primitives::slot_of(
            schemas,
            key,
            current_of(initial, within, n),
            (start + j * step) as i64,
        ) == Ok::<Slot, Error>(expected[j])
}

/// The state of a sampled stream after `count` of its values.
spec fn state_after(
    start: i64,
    step: u32,
    initial: Option<Fact>,
    within: Seq<Fact>,
    expected: Seq<Slot>,
    count: int,
) -> StateView {
    StateView {
        current: current_of(initial, within, count),
        slots: expected.take(
            if count <= 0 {
                0
            } else {
                reach(
                    start,
                    step,
                    expected.len() as int,
                    0,
                    Some(within[count - 1].timestamp),
                )
            },
        ),
    }
}

/// Filling the grid up to the next value of the stream, or to its end.
proof fn fill_next(
    schemas: TailView,
    key: StreamKey,
    start: i64,
    step: u32,
    initial: Option<Fact>,
    within: Seq<Fact>,
    expected: Seq<Slot>,
    count: int,
)
    requires
        0 <= count <= within.len(),
        step > 0,
        facts::facts_ordered(within),
        slots_fit(schemas, key, start, step, initial, within, expected),
        forall|j: int|
            0 <= j < expected.len() ==> #[trigger] sample::grid_time(start, step, j) == Ok::<
                i64,
                Error,
            >((start + j * step) as i64) && i64::MIN <= start + j * step <= i64::MAX,
    ensures
        ({
            let slots = expected.len() as int;
            let until = if count < within.len() {
                Some(within[count].timestamp)
            } else {
                None
            };
            sample::filled(
                schemas,
                key,
                start,
                step,
                slots,
                state_after(start, step, initial, within, expected, count),
                until,
            ) == Ok::<StateView, Error>(
                StateView {
                    current: current_of(initial, within, count),
                    slots: expected.take(reach(start, step, slots, 0, until)),
                },
            )
        }),
{
    let slots = expected.len() as int;
    let until = if count < within.len() {
        Some(within[count].timestamp)
    } else {
        None
    };
    let from = if count <= 0 {
        0
    } else {
        reach(start, step, slots, 0, Some(within[count - 1].timestamp))
    };
    let current = current_of(initial, within, count);
    if count > 0 {
        reach_facts(start, step, slots, 0, Some(within[count - 1].timestamp));
    }
    reach_facts(start, step, slots, 0, until);
    let upper = reach(start, step, slots, 0, until);
    if upper < from {
        assert(within[count - 1].timestamp < within[count].timestamp);
        assert(start + upper * step < within[count - 1].timestamp);
    }
    assert(reach(start, step, slots, from, until) == upper);
    assert forall|j: int| from <= j < upper implies primitives::slot_of(
        schemas,
        key,
        current,
        (start + j * step) as i64,
    ) == Ok::<Slot, Error>(#[trigger] expected[j]) by {
        if count < within.len() {
            assert(start + j * step < within[count].timestamp);
        }
        if count > 0 {
            assert(from < slots);
            assert(from * step <= j * step) by (nonlinear_arith)
                requires
                    from <= j,
                    step > 0,
            ;
            assert(within[count - 1].timestamp <= start + j * step);
        }
        assert(current == current_of(initial, within, count));
    }
    fill_with(schemas, key, start, step, slots, current, expected, from, until);
}

/// Where a list in time order passes a time.
proof fn passes(list: Seq<Fact>, time: i64) -> (at: int)
    requires
        facts::facts_ordered(list),
    ensures
        0 <= at <= list.len(),
        forall|i: int| 0 <= i < at ==> (#[trigger] list[i]).timestamp < time,
        forall|i: int| at <= i < list.len() ==> time <= (#[trigger] list[i]).timestamp,
    decreases list.len(),
{
    if list.len() == 0 {
        0
    } else if list.last().timestamp < time {
        assert forall|i: int| 0 <= i < list.len() implies (#[trigger] list[i]).timestamp
            < time by {
            if i < list.len() - 1 {
                assert(list[i].timestamp < list[list.len() - 1].timestamp);
            }
        }
        list.len() as int
    } else {
        let front = list.drop_last();
        assert forall|i: int, j: int| 0 <= i < j < front.len() implies (
        #[trigger] front[i]).timestamp < (#[trigger] front[j]).timestamp by {
            assert(list[i].timestamp < list[j].timestamp);
        }
        let at = passes(front, time);
        assert forall|i: int| 0 <= i < at implies (#[trigger] list[i]).timestamp < time by {
            assert(front[i].timestamp < time);
        }
        assert forall|i: int| at <= i < list.len() implies time <= (
        #[trigger] list[i]).timestamp by {
            if i < front.len() {
                assert(time <= front[i].timestamp);
            }
        }
        at
    }
}

/// The last value at a time inside a range is the last one of the range so far, or else that at the
/// start of the range.
proof fn latest_inside(list: Seq<Fact>, start: i64, end: i64, at: i64, count: int)
    requires
        facts::facts_ordered(list),
        start <= at < end,
        0 <= count <= facts::facts_within(list, start, end).len(),
        count == 0 || facts::facts_within(list, start, end)[count - 1].timestamp <= at,
        count == facts::facts_within(list, start, end).len() || at < facts::facts_within(
            list,
            start,
            end,
        )[count].timestamp,
    ensures
        facts::latest_fact(list, at) == current_of(
            facts::latest_fact(list, start),
            facts::facts_within(list, start, end),
            count,
        ),
{
    let first = passes(list, start);
    let last = passes(list, end);
    if last < first {
        assert(list[last].timestamp < start);
        assert(end <= list[last].timestamp);
    }
    facts::within_is_subrange(list, start, end, first, last);
    let within = facts::facts_within(list, start, end);
    assert(within == list.subrange(first, last));
    let upper = first + count;
    assert forall|i: int| 0 <= i < upper implies (#[trigger] list[i]).timestamp <= at by {
        if i >= first {
            assert(within[count - 1] == list[upper - 1]);
            if i < upper - 1 {
                assert(list[i].timestamp < list[upper - 1].timestamp);
            }
        }
    }
    assert forall|i: int| upper <= i < list.len() implies at < (#[trigger] list[i]).timestamp by {
        if i < last {
            assert(within[count] == list[upper]);
            if i > upper {
                assert(list[upper].timestamp < list[i].timestamp);
            }
        }
    }
    facts::latest_is_last_below(list, at, upper);
    if count == 0 {
        facts::latest_is_last_below(list, start, upper);
    } else {
        assert(within[count - 1] == list[upper - 1]);
    }
}

/// What a sampling has of a stream at a time of its grid.
pub open spec fn resampled<S: UnitSource>(
    source: &S,
    units: Seq<UnitMeta>,
    schemas: TailView,
    heads: Option<HeadsView>,
    key: StreamKey,
    time: i64,
) -> Result<Slot> {
    primitives::slot_of(
        schemas,
        key,
        primitives::headed(
            facts::latest_fact(meaning::stream_facts(source, units, schemas, key), time),
            heads,
            key,
            time,
        ),
        time,
    )
}

/// All that a sampling has of a stream.
pub open spec fn resampling<S: UnitSource>(
    source: &S,
    units: Seq<UnitMeta>,
    schemas: TailView,
    heads: Option<HeadsView>,
    key: StreamKey,
    start: i64,
    step: u32,
    slot_count: int,
) -> Seq<Slot> {
    Seq::new(
        slot_count as nat,
        |j: int|
            resampled(source, units, schemas, heads, key, (start + j * step) as i64)->Ok_0,
    )
}

/// The slots of a stream are those that its values give.
proof fn stream_fits<S: UnitSource>(
    source: &S,
    units: Seq<UnitMeta>,
    schemas: TailView,
    heads: Option<HeadsView>,
    key: StreamKey,
    start: i64,
    end: i64,
    step: u32,
    slot_count: int,
)
    requires
        meaning::sound(source, units, schemas, key.table),
        heads matches Some(list) ==> list.valid() && list.floor <= start,
        sample::grid_slots(start, end, step) == Ok::<int, Error>(slot_count),
        forall|j: int|
            0 <= j < slot_count ==> #[trigger] sample::grid_time(start, step, j) is Ok
                && resampled(
                source,
                units,
                schemas,
                heads,
                key,
                sample::grid_time(start, step, j)->Ok_0,
            ) is Ok,
    ensures
        ({
            let list = meaning::stream_facts(source, units, schemas, key);
            slots_fit(
                schemas,
                key,
                start,
                step,
                primitives::headed(facts::latest_fact(list, start), heads, key, start),
                facts::facts_within(list, start, end),
                resampling(source, units, schemas, heads, key, start, step, slot_count),
            )
        }),
{
    let list = meaning::stream_facts(source, units, schemas, key);
    let within = facts::facts_within(list, start, end);
    let initial = primitives::headed(facts::latest_fact(list, start), heads, key, start);
    let expected = resampling(source, units, schemas, heads, key, start, step, slot_count);
    meaning::stream_is_in_time_order(source, units, schemas, key);
    assert forall|j: int, n: int|
        #![trigger expected[j], current_of(initial, within, n)]
        0 <= j < expected.len() && 0 <= n <= within.len() && (n == 0 || within[n - 1].timestamp
            <= start + j * step) && (n == within.len() || start + j * step
            < within[n].timestamp) implies primitives::slot_of(
        schemas,
        key,
        current_of(initial, within, n),
        (start + j * step) as i64,
    ) == Ok::<Slot, Error>(expected[j]) by {
        sample::grid_covers_its_range(start, end, step, j);
        assert(j * step >= 0) by (nonlinear_arith)
            requires
                j >= 0,
                step >= 0,
        ;
        let time = (start + j * step) as i64;
        assert(sample::grid_time(start, step, j) == Ok::<i64, Error>(time));
        assert(time == start + j * step);
        latest_inside(list, start, end, time, n);
        if n == 0 {
            if heads is Some {
                let kept = heads->Some_0;
                if head::head_of(kept.entries, key) is Some {
                    let i = choose|i: int|
                        0 <= i < kept.entries.len() && (#[trigger] kept.entries[i]).spec_key()
                            == key;
                    assert(kept.entries[i].fact_ts < kept.floor);
                }
            }
        }
    }
}

/// A walk leaves every stream in the state after its values so far.
proof fn run_after(
    run: RunView,
    list: Seq<(int, Fact)>,
    withins: Seq<Seq<Fact>>,
    expected: Seq<Seq<Slot>>,
    count: int,
)
    requires
        0 <= count <= list.len(),
        run.step > 0,
        run.states.len() == run.keys.len(),
        withins.len() == run.keys.len(),
        expected.len() == run.keys.len(),
        indexed(list, run.keys.len() as int),
        forall|i: int|
            0 <= i < run.keys.len() ==> {
                &&& of_index(list, i) == #[trigger] withins[i]
                &&& facts::facts_ordered(withins[i])
                &&& expected[i].len() == run.slot_count
                &&& run.states[i].slots.len() == 0
                &&& slots_fit(
                    run.schemas,
                    run.keys[i],
                    run.start,
                    run.step,
                    run.states[i].current,
                    withins[i],
                    expected[i],
                )
            },
        forall|j: int|
            0 <= j < run.slot_count ==> #[trigger] sample::grid_time(run.start, run.step, j)
                == Ok::<i64, Error>((run.start + j * run.step) as i64) && i64::MIN <= run.start + j
                * run.step <= i64::MAX,
    ensures
        ({
            let r = batch::folded::<SampleRun>(run, list, count);
            &&& r matches Ok(after)
            &&& after == (RunView { states: after.states, ..run })
            &&& after.states.len() == run.keys.len()
            &&& forall|i: int|
                0 <= i < run.keys.len() ==> (#[trigger] after.states[i]) == state_after(
                    run.start,
                    run.step,
                    run.states[i].current,
                    withins[i],
                    expected[i],
                    of_index(list.take(count), i).len() as int,
                )
        }),
    decreases count,
{
    let r = batch::folded::<SampleRun>(run, list, count);
    if count > 0 {
        run_after(run, list, withins, expected, count - 1);
        let before = batch::folded::<SampleRun>(run, list, count - 1)->Ok_0;
        let (index, fact) = list[count - 1];
        assert(0 <= index < run.keys.len());
        assert(withins[index] == of_index(list, index));
        let n = of_index(list.take(count - 1), index).len() as int;
        assert(list.take(count).drop_last() =~= list.take(count - 1));
        assert(list.take(count).last() == list[count - 1]);
        of_index_prefix(list, index, count);
        assert(of_index(list.take(count), index)[n] == fact);
        assert(withins[index][n] == fact);
        assert(before.states[index] == state_after(
            run.start,
            run.step,
            run.states[index].current,
            withins[index],
            expected[index],
            n,
        ));
        fill_next(
            run.schemas,
            run.keys[index],
            run.start,
            run.step,
            run.states[index].current,
            withins[index],
            expected[index],
            n,
        );
        let after = r->Ok_0;
        assert forall|i: int| 0 <= i < run.keys.len() implies (#[trigger] after.states[i])
            == state_after(
            run.start,
            run.step,
            run.states[i].current,
            withins[i],
            expected[i],
            of_index(list.take(count), i).len() as int,
        ) by {
            assert(before.states[i] == before.states[i]);
            if i == index {
                assert(after.states[i].current == Some(fact));
            }
        }
    } else {
        assert forall|i: int| 0 <= i < run.keys.len() implies (#[trigger] run.states[i])
            == state_after(
            run.start,
            run.step,
            run.states[i].current,
            withins[i],
            expected[i],
            of_index(list.take(0), i).len() as int,
        ) by {
            assert(withins[i] == withins[i]);
            assert(run.states[i].slots =~= expected[i].take(0));
        }
    }
}

/// Ending a walk fills the grid of every stream.
proof fn run_finished(
    run: RunView,
    initials: Seq<Option<Fact>>,
    withins: Seq<Seq<Fact>>,
    expected: Seq<Seq<Slot>>,
    count: int,
)
    requires
        0 <= count <= run.keys.len(),
        run.step > 0,
        run.states.len() == run.keys.len(),
        forall|i: int|
            0 <= i < run.keys.len() ==> {
                &&& facts::facts_ordered(#[trigger] withins[i])
                &&& expected[i].len() == run.slot_count
                &&& run.states[i] == state_after(
                    run.start,
                    run.step,
                    initials[i],
                    withins[i],
                    expected[i],
                    withins[i].len() as int,
                )
                &&& slots_fit(
                    run.schemas,
                    run.keys[i],
                    run.start,
                    run.step,
                    initials[i],
                    withins[i],
                    expected[i],
                )
            },
        forall|j: int|
            0 <= j < run.slot_count ==> #[trigger] sample::grid_time(run.start, run.step, j)
                == Ok::<i64, Error>((run.start + j * run.step) as i64) && i64::MIN <= run.start + j
                * run.step <= i64::MAX,
    ensures
        ({
            let r = run.finished(count);
            &&& r matches Ok(after)
            &&& after == (RunView { states: after.states, ..run })
            &&& after.states.len() == run.states.len()
            &&& forall|i: int|
                0 <= i < count ==> (#[trigger] after.states[i]).slots == expected[i]
            &&& forall|i: int|
                count <= i < run.states.len() ==> (#[trigger] after.states[i]) == run.states[i]
        }),
    decreases count,
{
    if count > 0 {
        run_finished(run, initials, withins, expected, count - 1);
        let before = run.finished(count - 1)->Ok_0;
        let i = count - 1;
        assert(facts::facts_ordered(withins[i]));
        assert(before.states[i] == run.states[i]);
        fill_next(
            run.schemas,
            run.keys[i],
            run.start,
            run.step,
            initials[i],
            withins[i],
            expected[i],
            withins[i].len() as int,
        );
        reach_facts(run.start, run.step, run.slot_count, 0, None);
        assert(expected[i].take(run.slot_count) =~= expected[i]);
    }
}

/// A sampling of streams of one table gives each its slots.
proof fn group_resampled<S: UnitSource>(
    source: &S,
    units: Seq<UnitMeta>,
    schemas: TailView,
    heads: Option<HeadsView>,
    keys: Seq<StreamKey>,
    start: i64,
    end: i64,
    step: u32,
    slot_count: int,
)
    requires
        keys.len() > 0,
        batch::group_refusal(schemas, keys[0].table, keys) is None,
        meaning::sound(source, units, schemas, keys[0].table),
        meaning::plan_fits(source, units, keys[0].table),
        heads matches Some(list) ==> list.valid() && list.floor <= start,
        sample::grid_slots(start, end, step) == Ok::<int, Error>(slot_count),
        forall|i: int, j: int|
            #![trigger keys[i], sample::grid_time(start, step, j)]
            0 <= i < keys.len() && 0 <= j < slot_count ==> resampled(
                source,
                units,
                schemas,
                heads,
                keys[i],
                sample::grid_time(start, step, j)->Ok_0,
            ) is Ok,
    ensures
        sample::group_samples(
            source,
            units,
            schemas,
            heads,
            keys,
            start,
            end,
            step,
            slot_count,
        ) == Ok::<Seq<Seq<Slot>>, Error>(
            keys.map_values(
                |key: StreamKey|
                    resampling(source, units, schemas, heads, key, start, step, slot_count),
            ),
        ),
{
    recall::search_finds_last_values(source, units, schemas, keys, start);
    let found = batch::predecessors_of(source, units, schemas, keys, start)->Ok_0;
    let run = sample::sample_start(schemas, heads, keys, found, start, step, slot_count);
    visits_each_stream(source, units, schemas, keys, start, end);
    let visits = batch::table_visits(source, units, schemas, keys, start, end);
    let withins = keys.map_values(
        |key: StreamKey|
            facts::facts_within(
                meaning::stream_facts(source, units, schemas, key),
                start,
                end,
            ),
    );
    let expected = keys.map_values(
        |key: StreamKey|
            resampling(source, units, schemas, heads, key, start, step, slot_count),
    );
    let initials = run.states.map_values(|state: StateView| state.current);
    assert forall|j: int| 0 <= j < slot_count implies #[trigger] sample::grid_time(start, step, j)
        == Ok::<i64, Error>((start + j * step) as i64) && i64::MIN <= start + j * step
        <= i64::MAX by {
        sample::grid_covers_its_range(start, end, step, j);
    }
    assert(slot_count >= 0) by {
        if start < end {
            vstd::arithmetic::div_mod::lemma_div_pos_is_pos(
                end - start + step - 1,
                step as int,
            );
        }
    }
    assert forall|i: int| 0 <= i < keys.len() implies {
        &&& of_index(visits.list, i) == #[trigger] withins[i]
        &&& facts::facts_ordered(withins[i])
        &&& expected[i].len() == slot_count
        &&& run.states[i].slots.len() == 0
        &&& slots_fit(
            schemas,
            keys[i],
            start,
            step,
            run.states[i].current,
            withins[i],
            expected[i],
        )
    } by {
        let list = meaning::stream_facts(source, units, schemas, keys[i]);
        assert(keys[i].table == keys[0].table);
        meaning::stream_is_in_time_order(source, units, schemas, keys[i]);
        meaning::within_in_order(list, start, end);
        assert forall|j: int| 0 <= j < slot_count implies #[trigger] sample::grid_time(
            start,
            step,
            j,
        ) is Ok && resampled(
            source,
            units,
            schemas,
            heads,
            keys[i],
            sample::grid_time(start, step, j)->Ok_0,
        ) is Ok by {
            assert(keys[i] == keys[i]);
        }
        stream_fits(
            source,
            units,
            schemas,
            heads,
            keys[i],
            start,
            end,
            step,
            slot_count,
        );
    }
    run_after(run, visits.list, withins, expected, visits.list.len() as int);
    assert(visits.list.take(visits.list.len() as int) =~= visits.list);
    let after = batch::folded::<SampleRun>(run, visits.list, visits.list.len() as int)->Ok_0;
    assert forall|i: int| 0 <= i < after.keys.len() implies {
        &&& facts::facts_ordered(#[trigger] withins[i])
        &&& expected[i].len() == after.slot_count
        &&& after.states[i] == state_after(
            after.start,
            after.step,
            initials[i],
            withins[i],
            expected[i],
            withins[i].len() as int,
        )
        &&& slots_fit(
            after.schemas,
            after.keys[i],
            after.start,
            after.step,
            initials[i],
            withins[i],
            expected[i],
        )
    } by {
        assert(after.states[i] == after.states[i]);
        assert(initials[i] == run.states[i].current);
    }
    run_finished(after, initials, withins, expected, keys.len() as int);
    let last = after.finished(keys.len() as int)->Ok_0;
    assert(last.states.map_values(|state: StateView| state.slots) =~= expected);
}

/// A sampling of any keys of a sound store has of each stream, at every time of the grid, what the
/// stream holds at that time: the last of its values, or what retention kept of it, as long as it
/// is valid.
pub proof fn samples_recall_each_time<S: UnitSource>(
    source: &S,
    units: Seq<UnitMeta>,
    schemas: TailView,
    heads: Option<HeadsView>,
    keys: Seq<StreamKey>,
    start: i64,
    end: i64,
    step: u32,
)
    requires
        batch::keys_refusal(schemas, keys, keys.len() as int) is None,
        heads matches Some(list) ==> list.valid() && list.floor <= start,
        sample::grid_slots(start, end, step) matches Ok(slot_count) && {
            let total = slot_count * keys.len();
            &&& total <= usize::MAX
            &&& total <= Limit::QuerySlots.spec_maximum()
            &&& limits::memory_refusal(total, vstd::layout::size_of::<Slot>() as int) is None
        },
        forall|i: int|
            0 <= i < keys.len() ==> meaning::sound(
                source,
                units,
                schemas,
                (#[trigger] keys[i]).table,
            ) && meaning::plan_fits(source, units, keys[i].table),
        forall|i: int, j: int|
            #![trigger keys[i], sample::grid_time(start, step, j)]
            0 <= i < keys.len() && 0 <= j < sample::grid_slots(start, end, step)->Ok_0
                ==> resampled(
                source,
                units,
                schemas,
                heads,
                keys[i],
                sample::grid_time(start, step, j)->Ok_0,
            ) is Ok,
    ensures
        sample::samples(source, units, schemas, heads, keys, start, end, step) == Ok::<
            Seq<Seq<Slot>>,
            Error,
        >(
            keys.map_values(
                |key: StreamKey|
                    resampling(
                        source,
                        units,
                        schemas,
                        heads,
                        key,
                        start,
                        step,
                        sample::grid_slots(start, end, step)->Ok_0,
                    ),
            ),
        ),
{
    let slot_count = sample::grid_slots(start, end, step)->Ok_0;
    let answer = |members: Seq<StreamKey>|
        sample::group_samples(
            source,
            units,
            schemas,
            heads,
            members,
            start,
            end,
            step,
            slot_count,
        );
    let each = |key: StreamKey|
        resampling(source, units, schemas, heads, key, start, step, slot_count);
    assert forall|members: Seq<StreamKey>|
        members.len() > 0 && batch::keys_ordered(members) && batch::keys_of(
            members,
            members[0].table,
        ) && (forall|i: int|
            0 <= i < members.len() ==> keys.contains(#[trigger] members[i])) implies #[trigger]
    answer(members) == Ok::<Seq<Seq<Slot>>, Error>(members.map_values(each)) by {
        recall::members_accepted(schemas, keys, members, members.len() as int);
        assert(keys.contains(members[0]));
        let p = choose|p: int| 0 <= p < keys.len() && keys[p] == members[0];
        assert(meaning::sound(source, units, schemas, keys[p].table));
        assert forall|i: int, j: int|
            #![trigger members[i], sample::grid_time(start, step, j)]
            0 <= i < members.len() && 0 <= j < slot_count implies resampled(
            source,
            units,
            schemas,
            heads,
            members[i],
            sample::grid_time(start, step, j)->Ok_0,
        ) is Ok by {
            assert(keys.contains(members[i]));
            let q = choose|q: int| 0 <= q < keys.len() && keys[q] == members[i];
            assert(keys[q] == members[i]);
        }
        group_resampled(
            source,
            units,
            schemas,
            heads,
            members,
            start,
            end,
            step,
            slot_count,
        );
    }
    group::batch_answers_each_key(keys, answer, each);
}

} // verus!

//! What a walk through a stream delivers, whatever store it reads.
use vstd::prelude::*;

use super::cursor::{self, CursorView, FactFlow};
use super::facts::{self, Fact};
use super::meaning;
use super::plan::{self, PlannedSection};
use crate::error::{Error, Result};
use crate::manifest::catalog::UnitMeta;
use crate::tail::TailView;
use crate::types::{StreamKey, TableId};
use crate::unit::{TableDirectoryEntry, UnitSource};

verus! {

/// The sections of a table with a time of the range, out of the first `count` units, in order.
pub open spec fn sections_within<S: UnitSource>(
    source: &S,
    units: Seq<UnitMeta>,
    table: TableId,
    start: i64,
    end: i64,
    count: int,
) -> Seq<PlannedSection>
    decreases count,
{
    if count <= 0 || start >= end {
        Seq::empty()
    } else {
        let earlier = sections_within(source, units, table, start, end, count - 1);
        let unit = units[count - 1];
        if unit.min_ts < end && unit.max_ts >= start {
            let here = meaning::unit_plan(source, unit, table);
            earlier + meaning::touching(here, start, end, here.len() as int)
        } else {
            earlier
        }
    }
}

proof fn planned_is_touching(
    earlier: Seq<PlannedSection>,
    unit: UnitMeta,
    table: TableId,
    start: i64,
    end: i64,
    sections: Seq<TableDirectoryEntry>,
    here: Seq<PlannedSection>,
    count: int,
)
    requires
        0 <= count <= sections.len(),
        here == sections.map_values(
            |section: TableDirectoryEntry| PlannedSection { unit, section },
        ),
        plan::planned_sections(earlier, unit, table, start, end, sections, count) is Ok,
    ensures
        plan::planned_sections(earlier, unit, table, start, end, sections, count)->Ok_0 == earlier
            + meaning::touching(here, start, end, count),
    decreases count,
{
    if count > 0 {
        planned_is_touching(earlier, unit, table, start, end, sections, here, count - 1);
        let before = meaning::touching(here, start, end, count - 1);
        assert(here[count - 1] == PlannedSection { unit, section: sections[count - 1] });
        assert((earlier + before).push(here[count - 1]) =~= earlier + before.push(here[count - 1]));
    } else {
        assert(earlier + meaning::touching(here, start, end, 0) =~= earlier);
    }
}

/// A plan that is made has exactly the sections with a time of the range.
pub(crate) proof fn planned_is_within<S: UnitSource>(
    source: &S,
    units: Seq<UnitMeta>,
    table: TableId,
    start: i64,
    end: i64,
    count: int,
)
    requires
        start < end,
        0 <= count <= units.len(),
        plan::planned_units(source, units, table, start, end, count) is Ok,
    ensures
        plan::planned_units(source, units, table, start, end, count)->Ok_0 == sections_within(
            source,
            units,
            table,
            start,
            end,
            count,
        ),
    decreases count,
{
    if count > 0 {
        planned_is_within(source, units, table, start, end, count - 1);
        let unit = units[count - 1];
        if unit.min_ts < end && unit.max_ts >= start {
            let sections = source.directory(unit, table)->Ok_0;
            planned_is_touching(
                sections_within(source, units, table, start, end, count - 1),
                unit,
                table,
                start,
                end,
                sections,
                meaning::unit_plan(source, unit, table),
                sections.len() as int,
            );
        }
    }
}

/// What a source gives of a stream in a section.
pub open spec fn given<S: UnitSource>(
    source: &S,
    schemas: TailView,
    key: StreamKey,
    planned: PlannedSection,
) -> Seq<Fact> {
    let rows = source.streams_of(
        planned.unit,
        planned.section,
        facts::version_numbered(
            schemas.tables[planned.section.table].versions,
            planned.section.version_no,
        )->Some_0,
        seq![facts::spec_stream(key)],
    )->Ok_0;
    if rows.columns.len() == 0 {
        Seq::empty()
    } else {
        facts::column_facts(rows.timestamps, rows.columns[0].cells)
    }
}

/// What the sections from `from` on have of a stream in a range.
pub open spec fn given_from<S: UnitSource>(
    source: &S,
    schemas: TailView,
    key: StreamKey,
    start: i64,
    end: i64,
    sections: Seq<PlannedSection>,
    from: int,
) -> Seq<Fact>
    decreases sections.len() - from,
{
    if from < 0 || from >= sections.len() {
        Seq::empty()
    } else {
        facts::facts_within(given(source, schemas, key, sections[from]), start, end) + given_from(
            source,
            schemas,
            key,
            start,
            end,
            sections,
            from + 1,
        )
    }
}

/// Every value of a stream in a range: those in the sealed sections, then those in the tail.
pub open spec fn held_within<S: UnitSource>(
    source: &S,
    units: Seq<UnitMeta>,
    schemas: TailView,
    key: StreamKey,
    start: i64,
    end: i64,
) -> Seq<Fact> {
    given_from(
        source,
        schemas,
        key,
        start,
        end,
        sections_within(source, units, key.table, start, end, units.len() as int),
        0,
    ) + facts::facts_within(
        facts::tail_facts(schemas.tables[key.table].rows, facts::spec_stream(key)),
        start,
        end,
    )
}

proof fn flow_is_given<S: UnitSource>(
    source: &S,
    schemas: TailView,
    key: StreamKey,
    start: i64,
    end: i64,
    planned: Seq<PlannedSection>,
    from: int,
    rest: Seq<Fact>,
)
    requires
        0 <= from <= planned.len(),
        cursor::flow_from(source, schemas, key, start, end, planned, from, rest).failure is None,
    ensures
        cursor::flow_from(source, schemas, key, start, end, planned, from, rest).facts
            == given_from(source, schemas, key, start, end, planned, from) + rest,
    decreases planned.len() - from,
{
    if from < planned.len() {
        flow_is_given(source, schemas, key, start, end, planned, from + 1, rest);
        let list = cursor::section_facts(source, schemas, key, start, end, planned[from])->Ok_0;
        let here = facts::facts_within(given(source, schemas, key, planned[from]), start, end);
        assert(list =~= here);
        let later = given_from(source, schemas, key, start, end, planned, from + 1);
        assert(list + (later + rest) =~= (here + later) + rest);
    } else {
        assert(given_from(source, schemas, key, start, end, planned, from) + rest =~= rest);
    }
}

/// A walk that ends without a failure has every value of the stream in the range before it.
proof fn flow_is_held<S: UnitSource>(
    source: &S,
    units: Seq<UnitMeta>,
    schemas: TailView,
    key: StreamKey,
    start: i64,
    end: i64,
)
    requires
        cursor::stream_flow(source, units, schemas, key, start, end) matches Ok(flow)
            && flow.failure is None,
    ensures
        cursor::stream_flow(source, units, schemas, key, start, end)->Ok_0.facts == held_within(
            source,
            units,
            schemas,
            key,
            start,
            end,
        ),
{
    let planned = plan::planned(source, units, key.table, start, end)->Ok_0;
    let rest = facts::facts_within(
        facts::tail_facts(schemas.tables[key.table].rows, facts::spec_stream(key)),
        start,
        end,
    );
    if start < end {
        planned_is_within(source, units, key.table, start, end, units.len() as int);
    }
    flow_is_given(source, schemas, key, start, end, planned, 0, rest);
}

/// Calls of a cursor in a row: where it stood before and after each, and what it answered.
pub open spec fn walked(states: Seq<CursorView>, answers: Seq<Result<Option<Fact>>>) -> bool {
    &&& states.len() == answers.len() + 1
    &&& forall|i: int|
        0 <= i < answers.len() ==> (#[trigger] answers[i]) == cursor::advanced(states[i])
            && cursor::moved(states[i], answers[i], states[i + 1])
}

/// Whether a call gave a value.
pub open spec fn gave(answer: Result<Option<Fact>>) -> bool {
    answer matches Ok(Some(_))
}

/// Whether the first `count` calls all gave a value.
spec fn all_values(answers: Seq<Result<Option<Fact>>>, count: int) -> bool {
    forall|i: int| 0 <= i < count ==> gave(#[trigger] answers[i])
}

proof fn values_in_a_row(
    states: Seq<CursorView>,
    answers: Seq<Result<Option<Fact>>>,
    flow: FactFlow,
    count: int,
)
    requires
        walked(states, answers),
        states[0] == (CursorView { flow, last_emitted: None, failed: false }),
        0 <= count <= answers.len(),
        all_values(answers, count),
    ensures
        count <= flow.facts.len(),
        states[count].flow.facts == flow.facts.skip(count),
        states[count].flow.failure == flow.failure,
        !states[count].failed,
        states[count].last_emitted == (if count == 0 {
            None
        } else {
            Some(flow.facts[count - 1].timestamp)
        }),
        forall|i: int|
            0 <= i < count ==> (#[trigger] answers[i]) == Ok::<Option<Fact>, Error>(
                Some(flow.facts[i]),
            ),
        facts::facts_ordered(flow.facts.take(count)),
    decreases count,
{
    if count == 0 {
        assert(flow.facts.skip(0) =~= flow.facts);
    } else {
        values_in_a_row(states, answers, flow, count - 1);
        assert(gave(answers[count - 1]));
        let before = flow.facts.skip(count - 1);
        assert(before[0] == flow.facts[count - 1]);
        assert(before.skip(1) =~= flow.facts.skip(count));
        let earlier = flow.facts.take(count - 1);
        let now = flow.facts.take(count);
        assert forall|i: int, j: int| 0 <= i < j < now.len() implies (
        #[trigger] now[i]).timestamp < (#[trigger] now[j]).timestamp by {
            if j < count - 1 {
                assert(earlier[i].timestamp < earlier[j].timestamp);
            } else if i < count - 2 {
                assert(earlier[i].timestamp < earlier[count - 2].timestamp);
            }
        }
    }
}

/// After the end every call says so, and after a failure every call fails.
proof fn endings_are_final(
    states: Seq<CursorView>,
    answers: Seq<Result<Option<Fact>>>,
    from: int,
    to: int,
)
    requires
        walked(states, answers),
        0 <= from < to < answers.len(),
    ensures
        answers[from] == Ok::<Option<Fact>, Error>(None) ==> answers[to] == answers[from],
        answers[from] is Err ==> answers[to] == Err::<Option<Fact>, Error>(
            cursor::cursor_corruption("cursor already failed"),
        ),
    decreases to - from,
{
    assert(answers[from] == cursor::advanced(states[from]));
    assert(answers[to] == cursor::advanced(states[to]));
    if from + 1 < to {
        assert(answers[from + 1] == cursor::advanced(states[from + 1]));
        endings_are_final(states, answers, from + 1, to);
    }
}

/// Calls of a cursor up to the first that finds no value give every value of the stream in the
/// range, each once, at strictly increasing times. From then on every call finds none. After a
/// failure every call fails with corruption. This holds whatever the store answers.
pub proof fn a_walk_gives_everything_once<S: UnitSource>(
    source: &S,
    units: Seq<UnitMeta>,
    schemas: TailView,
    key: StreamKey,
    start: i64,
    end: i64,
    states: Seq<CursorView>,
    answers: Seq<Result<Option<Fact>>>,
)
    requires
        cursor::stream_flow(source, units, schemas, key, start, end) is Ok,
        walked(states, answers),
        states[0] == (CursorView {
            flow: cursor::stream_flow(source, units, schemas, key, start, end)->Ok_0,
            last_emitted: None,
            failed: false,
        }),
    ensures
        ({
            let all = held_within(source, units, schemas, key, start, end);
            forall|n: int|
                #![trigger answers[n]]
                0 <= n < answers.len() && answers[n] == Ok::<Option<Fact>, Error>(None) && (
                forall|i: int| 0 <= i < n ==> gave(#[trigger] answers[i])) ==> {
                    &&& n == all.len()
                    &&& facts::facts_ordered(all)
                    &&& forall|i: int|
                        0 <= i < n ==> (#[trigger] answers[i]) == Ok::<Option<Fact>, Error>(
                            Some(all[i]),
                        )
                }
        }),
        forall|i: int, j: int|
            0 <= i < j < answers.len() && gave(answers[i]) && gave(answers[j])
                ==> (#[trigger] answers[i])->Ok_0->Some_0.timestamp < (
            #[trigger] answers[j])->Ok_0->Some_0.timestamp,
        forall|i: int, j: int|
            0 <= i < j < answers.len() && #[trigger] answers[i] == Ok::<Option<Fact>, Error>(None)
                ==> #[trigger] answers[j] == Ok::<Option<Fact>, Error>(None),
        forall|i: int, j: int|
            0 <= i < j < answers.len() && (#[trigger] answers[i]) is Err ==> (
            #[trigger] answers[j]) == Err::<Option<Fact>, Error>(
                cursor::cursor_corruption("cursor already failed"),
            ),
{
    let flow = cursor::stream_flow(source, units, schemas, key, start, end)->Ok_0;
    let all = held_within(source, units, schemas, key, start, end);
    assert forall|i: int, j: int| 0 <= i < j < answers.len() implies (#[trigger] answers[i]
        == Ok::<Option<Fact>, Error>(None) ==> #[trigger] answers[j] == Ok::<Option<Fact>, Error>(
        None,
    )) && (answers[i] is Err ==> answers[j] == Err::<Option<Fact>, Error>(
        cursor::cursor_corruption("cursor already failed"),
    )) by {
        endings_are_final(states, answers, i, j);
    }
    assert forall|i: int, j: int|
        0 <= i < j < answers.len() && gave(answers[i]) && gave(answers[j]) implies (#[trigger] answers[i])->Ok_0->Some_0.timestamp < (
    #[trigger] answers[j])->Ok_0->Some_0.timestamp by {
        assert forall|k: int| 0 <= k < j + 1 implies gave(#[trigger] answers[k]) by {
            if k < j {
                endings_are_final(states, answers, k, j);
            }
        }
        values_in_a_row(states, answers, flow, j + 1);
        let now = flow.facts.take(j + 1);
        assert(now[i].timestamp < now[j].timestamp);
    }
    assert forall|n: int|
        #![trigger answers[n]]
        0 <= n < answers.len() && answers[n] == Ok::<Option<Fact>, Error>(None) && (forall|i: int|
            0 <= i < n ==> gave(#[trigger] answers[i])) implies {
        &&& n == all.len()
        &&& facts::facts_ordered(all)
        &&& forall|i: int|
            0 <= i < n ==> (#[trigger] answers[i]) == Ok::<Option<Fact>, Error>(Some(all[i]))
    } by {
        values_in_a_row(states, answers, flow, n);
        assert(answers[n] == cursor::advanced(states[n]));
        assert(states[n].flow.facts.len() == flow.facts.len() - n);
        flow_is_held(source, units, schemas, key, start, end);
        assert(flow.facts.take(n) =~= flow.facts);
    }
}

} // verus!

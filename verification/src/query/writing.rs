//! What is written is read back.
use vstd::prelude::*;

use super::facts::{self, Fact};
use super::meaning;
use super::plan::{self, PlannedSection};
use crate::manifest::catalog::UnitMeta;
use crate::tail::{self, Observation, RecordBody, RowView, Stream, TailTableView, TailView};
use crate::types::{StreamKey, TableId, VersionView};
use crate::unit::UnitSource;

verus! {

/// Whether the sealed sections of a table are read by the same versions before and after an
/// observation: none of them has a version that the observation is the first of.
pub open spec fn history_settled<S: UnitSource>(
    source: &S,
    units: Seq<UnitMeta>,
    state: TailTableView,
    table: TableId,
    timestamp: i64,
) -> bool {
    let all = meaning::all_sections(source, units, table, units.len() as int);
    forall|i: int|
        0 <= i < all.len() ==> facts::version_numbered(
            tail::activated(state.versions, timestamp),
            (#[trigger] all[i]).section.version_no,
        ) == facts::version_numbered(state.versions, all[i].section.version_no)
}

/// What an observation adds to a stream.
pub open spec fn added(table: TableId, observation: Observation, key: StreamKey) -> Seq<Fact> {
    match tail::cell_of(observation.entries@, facts::spec_stream(key)) {
        Some(value) => if key.table == table {
            seq![Fact { timestamp: observation.timestamp, value }]
        } else {
            Seq::empty()
        },
        None => Seq::empty(),
    }
}

/// One more row adds its value of the stream.
proof fn tail_grows(rows: Seq<RowView>, row: RowView, stream: Stream)
    ensures
        facts::tail_facts(rows.push(row), stream) == facts::tail_facts(rows, stream) + (
        match tail::cell_of(row.entries, stream) {
            Some(value) => seq![Fact { timestamp: row.timestamp, value }],
            None => Seq::empty(),
        }),
{
    let after = rows.push(row);
    assert(after.drop_last() =~= rows);
    tail::row_indices_facts(rows, stream);
    let list = tail::row_indices(rows, stream);
    let before = facts::tail_facts(rows, stream);
    let grown = facts::tail_facts(after, stream);
    assert forall|i: int| 0 <= i < list.len() implies grown[i] == #[trigger] before[i] by {
        assert(0 <= list[i] < rows.len());
        assert(after[list[i]] == rows[list[i]]);
    }
    match tail::cell_of(row.entries, stream) {
        Some(value) => {
            assert(tail::row_indices(after, stream) == list.push(rows.len() as int));
            assert(after[rows.len() as int] == row);
            assert(grown =~= before + seq![Fact { timestamp: row.timestamp, value }]);
        },
        None => {
            assert(grown =~= before + Seq::<Fact>::empty());
        },
    }
}

/// The sealed values do not change with a version that none of them has.
proof fn sealed_same<S: UnitSource>(
    source: &S,
    before: Seq<VersionView>,
    after: Seq<VersionView>,
    sections: Seq<PlannedSection>,
    stream: Stream,
    count: int,
)
    requires
        0 <= count <= sections.len(),
        forall|i: int|
            0 <= i < sections.len() ==> facts::version_numbered(
                after,
                (#[trigger] sections[i]).section.version_no,
            ) == facts::version_numbered(before, sections[i].section.version_no),
    ensures
        meaning::sealed_facts(source, after, sections, stream, count) == meaning::sealed_facts(
            source,
            before,
            sections,
            stream,
            count,
        ),
    decreases count,
{
    if count > 0 {
        sealed_same(source, before, after, sections, stream, count - 1);
        assert(facts::version_numbered(after, sections[count - 1].section.version_no)
            == facts::version_numbered(before, sections[count - 1].section.version_no));
    }
}

/// An accepted observation adds its value to the end of each stream that it names, and changes no
/// other stream.
pub proof fn append_extends_its_streams<S: UnitSource>(
    source: &S,
    units: Seq<UnitMeta>,
    schemas: TailView,
    seq: u64,
    table: TableId,
    observation: Observation,
    key: StreamKey,
)
    requires
        tail::applied(schemas, seq, RecordBody::AppendObservation { table, observation }) is Ok,
        history_settled(source, units, schemas.tables[table], table, observation.timestamp),
    ensures
        ({
            let after = tail::applied(
                schemas,
                seq,
                RecordBody::AppendObservation { table, observation },
            )->Ok_0;
            meaning::stream_facts(source, units, after, key) == meaning::stream_facts(
                source,
                units,
                schemas,
                key,
            ) + added(table, observation, key)
        }),
{
    let state = schemas.tables[table];
    let stream = facts::spec_stream(key);
    let before = meaning::stream_facts(source, units, schemas, key);
    if key.table == table {
        let all = meaning::all_sections(source, units, table, units.len() as int);
        let versions = tail::activated(state.versions, observation.timestamp);
        let row = RowView { timestamp: observation.timestamp, entries: observation.entries@ };
        sealed_same(source, state.versions, versions, all, stream, all.len() as int);
        tail_grows(state.rows, row, stream);
        let sealed = meaning::sealed_facts(
            source,
            state.versions,
            all,
            stream,
            all.len() as int,
        );
        let held = facts::tail_facts(state.rows, stream);
        assert(sealed + (held + added(table, observation, key)) =~= (sealed + held) + added(
            table,
            observation,
            key,
        ));
    } else {
        assert(before + added(table, observation, key) =~= before);
    }
}

/// From its time on, a value that was just written is what the stream holds; earlier the stream
/// holds what it held.
pub proof fn written_value_is_read_back<S: UnitSource>(
    source: &S,
    units: Seq<UnitMeta>,
    schemas: TailView,
    seq: u64,
    table: TableId,
    observation: Observation,
    key: StreamKey,
    at: i64,
)
    requires
        tail::applied(schemas, seq, RecordBody::AppendObservation { table, observation }) is Ok,
        history_settled(source, units, schemas.tables[table], table, observation.timestamp),
    ensures
        ({
            let after = tail::applied(
                schemas,
                seq,
                RecordBody::AppendObservation { table, observation },
            )->Ok_0;
            let new = added(table, observation, key);
            facts::latest_fact(meaning::stream_facts(source, units, after, key), at) == (if new.len()
                > 0 && observation.timestamp <= at {
                Some(new[0])
            } else {
                facts::latest_fact(meaning::stream_facts(source, units, schemas, key), at)
            })
        }),
{
    append_extends_its_streams(source, units, schemas, seq, table, observation, key);
    let before = meaning::stream_facts(source, units, schemas, key);
    let new = added(table, observation, key);
    meaning::latest_join(before, new, at);
    if new.len() > 0 {
        assert(new.last() == new[0]);
        assert(new.drop_last() =~= Seq::<Fact>::empty());
        assert(facts::latest_fact(new.drop_last(), at) is None);
    }
}

/// A store stays sound when an observation is accepted, as long as no sealed section is later than
/// the clock of the table.
pub proof fn append_keeps_the_store_sound<S: UnitSource>(
    source: &S,
    units: Seq<UnitMeta>,
    schemas: TailView,
    seq: u64,
    table: TableId,
    observation: Observation,
    other: TableId,
)
    requires
        tail::applied(schemas, seq, RecordBody::AppendObservation { table, observation }) is Ok,
        history_settled(source, units, schemas.tables[table], table, observation.timestamp),
        meaning::sound(source, units, schemas, table),
        meaning::sound(source, units, schemas, other),
        forall|i: int|
            0 <= i < meaning::all_sections(source, units, table, units.len() as int).len() ==> (
            schemas.tables[table].last_ts matches Some(last) && (
            #[trigger] meaning::all_sections(
                source,
                units,
                table,
                units.len() as int,
            )[i]).section.max_ts <= last),
    ensures
        meaning::sound(
            source,
            units,
            tail::applied(
                schemas,
                seq,
                RecordBody::AppendObservation { table, observation },
            )->Ok_0,
            other,
        ),
{
    let body = RecordBody::AppendObservation { table, observation };
    let after = tail::applied(schemas, seq, body)->Ok_0;
    if other == table {
        let before = schemas.tables[table];
        let state = after.tables[table];
        let all = meaning::all_sections(source, units, table, units.len() as int);
        let rows = before.rows;
        assert forall|i: int, j: int| 0 <= i < j < state.rows.len() implies (
        #[trigger] state.rows[i]).timestamp < (#[trigger] state.rows[j]).timestamp by {
            if j < rows.len() {
                assert(rows[i].timestamp < rows[j].timestamp);
            } else if i < rows.len() - 1 {
                assert(rows[i].timestamp < rows[rows.len() - 1].timestamp);
            }
        }
        assert forall|i: int| 0 <= i < state.rows.len() implies tail::entries_ordered(
            (#[trigger] state.rows[i]).entries,
        ) by {
            if i < rows.len() {
                assert(tail::entries_ordered(rows[i].entries));
            }
        }
        assert forall|i: int| 0 <= i < state.versions.len() implies (
        #[trigger] state.versions[i]).wf() by {
            assert(before.versions[i].wf());
        }
        assert forall|i: int, j: int| 0 <= i < j < state.versions.len() implies (
        #[trigger] state.versions[i]).version_no < (#[trigger] state.versions[j]).version_no by {
            assert(before.versions[i].version_no < before.versions[j].version_no);
        }
        assert forall|i: int| 0 <= i < all.len() implies plan::loaded_refusal(
            (#[trigger] all[i]).unit,
            table,
            all[i].section,
        ) is None && meaning::section_sound(source, state.versions, all[i]) by {
            assert(meaning::section_sound(source, before.versions, all[i]));
            assert(meaning::section_rows(source, state.versions, all[i]) == meaning::section_rows(
                source,
                before.versions,
                all[i],
            ));
        }
        assert forall|i: int| 0 <= i < all.len() && state.rows.len() > 0 implies (
        #[trigger] all[i]).section.max_ts < state.rows[0].timestamp by {
            if rows.len() > 0 {
                assert(state.rows[0] == rows[0]);
            }
        }
    }
}

} // verus!

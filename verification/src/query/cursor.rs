//! Walking through the values of one stream.
use vstd::prelude::*;

use super::batch;
use super::facts::{self, Fact};
use super::plan::{self, PlannedSection};
use crate::error::{self, Error, Result};
use crate::manifest::catalog::UnitMeta;
use crate::tail::{self, RowView, TailIndex, TailTable, TailView};
use crate::types::StreamKey;
use crate::unit::{self, UnitSource};

verus! {

pub open spec fn cursor_corruption(reason: &'static str) -> Error {
    error::corruption("Fact cursor", reason)
}

/// Values that are still to come, and the failure that follows them, if one does.
#[verifier::ext_equal]
pub struct FactFlow {
    pub facts: Seq<Fact>,
    pub failure: Option<Error>,
}

/// The values of a stream in one planned section.
pub open spec fn section_facts<S: UnitSource>(
    source: &S,
    schemas: TailView,
    key: StreamKey,
    start: i64,
    end: i64,
    planned: PlannedSection,
) -> Result<Seq<Fact>> {
    let section = planned.section;
    if !schemas.tables.contains_key(section.table) {
        Err(cursor_corruption("section table disappeared"))
    } else {
        match facts::version_numbered(
            schemas.tables[section.table].versions,
            section.version_no,
        ) {
            None => Err(cursor_corruption("section version disappeared")),
            Some(version) => match source.streams_of(
                planned.unit,
                section,
                version,
                seq![facts::spec_stream(key)],
            ) {
                Err(e) => Err(e),
                Ok(rows) => if rows.columns.len() > 1 {
                    Err(cursor_corruption("stream decoder returned multiple columns"))
                } else if rows.columns.len() == 0 {
                    Ok(Seq::empty())
                } else {
                    Ok(
                        facts::facts_within(
                            facts::column_facts(rows.timestamps, rows.columns[0].cells),
                            start,
                            end,
                        ),
                    )
                },
            },
        }
    }
}

/// What comes from the planned sections from `from` on, and then from the tail.
pub open spec fn flow_from<S: UnitSource>(
    source: &S,
    schemas: TailView,
    key: StreamKey,
    start: i64,
    end: i64,
    planned: Seq<PlannedSection>,
    from: int,
    rest: Seq<Fact>,
) -> FactFlow
    decreases planned.len() - from,
{
    if from < 0 || from >= planned.len() {
        FactFlow { facts: rest, failure: None }
    } else {
        match section_facts(source, schemas, key, start, end, planned[from]) {
            Err(e) => FactFlow { facts: Seq::empty(), failure: Some(e) },
            Ok(list) => {
                let later = flow_from(
                    source,
                    schemas,
                    key,
                    start,
                    end,
                    planned,
                    from + 1,
                    rest,
                );
                FactFlow { facts: list + later.facts, failure: later.failure }
            },
        }
    }
}

/// Why the planned sections cannot precede the tail.
pub open spec fn join_refusal(planned: Seq<PlannedSection>, rows: Seq<RowView>) -> Option<Error> {
    if planned.len() > 0 && rows.len() > 0 && planned.last().section.max_ts >= rows[0].timestamp {
        Some(cursor_corruption("Seal and WAL tail ranges overlap"))
    } else {
        None
    }
}

/// What a cursor over a stream delivers, or why there is no such cursor.
pub open spec fn stream_flow<S: UnitSource>(
    source: &S,
    units: Seq<UnitMeta>,
    schemas: TailView,
    key: StreamKey,
    start: i64,
    end: i64,
) -> Result<FactFlow> {
    match facts::key_refusal(schemas, key) {
        Some(e) => Err(e),
        None => match plan::planned(source, units, key.table, start, end) {
            Err(e) => Err(e),
            Ok(planned) => {
                let rows = schemas.tables[key.table].rows;
                match join_refusal(planned, rows) {
                    Some(e) => Err(e),
                    None => Ok(
                        flow_from(
                            source,
                            schemas,
                            key,
                            start,
                            end,
                            planned,
                            0,
                            facts::facts_within(
                                facts::tail_facts(rows, facts::spec_stream(key)),
                                start,
                                end,
                            ),
                        ),
                    ),
                }
            },
        },
    }
}

/// A walk through the values of one stream in a range of time, first the sealed ones, then those
/// of the tail.
pub struct FactCursor<'a, S: UnitSource> {
    pub source: &'a S,
    pub schemas: &'a TailIndex,
    pub key: StreamKey,
    pub start: i64,
    pub end: i64,
    pub planned: Vec<PlannedSection>,
    pub next_section: usize,
    pub current: Vec<Fact>,
    pub current_index: usize,
    pub tail_table: &'a TailTable,
    pub tail_postings: &'a [u32],
    pub tail_index: usize,
    pub last_emitted: Option<i64>,
    pub failed: bool,
}

pub struct CursorView {
    pub flow: FactFlow,
    pub last_emitted: Option<i64>,
    pub failed: bool,
}

impl<'a, S: UnitSource> View for FactCursor<'a, S> {
    type V = CursorView;

    open spec fn view(&self) -> CursorView {
        CursorView {
            flow: self.flow(),
            last_emitted: self.last_emitted,
            failed: self.failed,
        }
    }
}

pub open spec fn unordered_sources() -> Error {
    cursor_corruption("sources emitted unordered or duplicate timestamps")
}

/// What a cursor answers next. Values that do not advance in time are a failure, and a failure is
/// final.
pub open spec fn advanced(cursor: CursorView) -> Result<Option<Fact>> {
    if cursor.failed {
        Err(cursor_corruption("cursor already failed"))
    } else if cursor.flow.facts.len() > 0 {
        if cursor.last_emitted matches Some(last) && last >= cursor.flow.facts[0].timestamp {
            Err(unordered_sources())
        } else {
            Ok(Some(cursor.flow.facts[0]))
        }
    } else {
        match cursor.flow.failure {
            Some(e) => Err(e),
            None => Ok(None),
        }
    }
}

/// Where a cursor stands after it answered.
pub open spec fn moved(cursor: CursorView, answer: Result<Option<Fact>>, after: CursorView) -> bool {
    match answer {
        Err(_) => after.failed,
        Ok(None) => after == cursor,
        Ok(Some(fact)) => after == (CursorView {
            flow: FactFlow {
                facts: cursor.flow.facts.skip(1),
                failure: cursor.flow.failure,
            },
            last_emitted: Some(fact.timestamp),
            failed: false,
        }),
    }
}

impl<'a, S: UnitSource> FactCursor<'a, S> {
    pub open spec fn wf(&self) -> bool {
        &&& self.schemas.wf()
        &&& self.tail_table.wf()
        &&& facts::postings_hold(
            self.tail_table@.rows,
            self.tail_postings@,
            facts::spec_stream(self.key),
        )
        &&& self.tail_index <= self.tail_postings@.len()
        &&& self.next_section <= self.planned@.len()
        &&& self.current_index <= self.current@.len()
    }

    /// The values that the tail still holds for this walk.
    pub open spec fn tail_left(&self) -> Seq<Fact> {
        facts::posting_facts(
            self.tail_table@.rows,
            self.tail_postings@,
            facts::spec_stream(self.key),
        ).skip(self.tail_index as int)
    }

    pub open spec fn sections_left(&self) -> FactFlow {
        flow_from(
            self.source,
            self.schemas@,
            self.key,
            self.start,
            self.end,
            self.planned@,
            self.next_section as int,
            self.tail_left(),
        )
    }

    /// Everything that is still to come.
    pub open spec fn flow(&self) -> FactFlow {
        FactFlow {
            facts: self.current@.skip(self.current_index as int) + self.sections_left().facts,
            failure: self.sections_left().failure,
        }
    }

    pub fn new(
        units: &[UnitMeta],
        source: &'a S,
        schemas: &'a TailIndex,
        key: StreamKey,
        start: i64,
        end: i64,
    ) -> (r: Result<Self>)
        requires
            schemas.wf(),
        ensures
            match (r, stream_flow(source, units@, schemas@, key, start, end)) {
                (Ok(cursor), Ok(flow)) => cursor.wf() && cursor@ == (CursorView {
                    flow,
                    last_emitted: None,
                    failed: false,
                }),
                (Err(e), Err(f)) => e == f,
                _ => false,
            },
    {
        let table = match facts::validate_key(schemas, key) {
            Ok(table) => table,
            Err(e) => return Err(e),
        };
        let planned = match plan::range(units, key.table, start, end, source) {
            Ok(planned) => planned,
            Err(e) => return Err(e),
        };
        let postings = facts::tail_postings(table, facts::stream_of(key), start, end);
        if let Err(e) = validate_join(planned.as_slice(), table) {
            return Err(e);
        }
        let cursor = FactCursor {
            source,
            schemas,
            key,
            start,
            end,
            planned,
            next_section: 0,
            current: Vec::new(),
            current_index: 0,
            tail_table: table,
            tail_postings: postings,
            tail_index: 0,
            last_emitted: None,
            failed: false,
        };
        proof {
            let left = facts::posting_facts(table@.rows, postings@, facts::spec_stream(key));
            assert(left.skip(0) =~= left);
            assert(cursor.current@.skip(0) + cursor.sections_left().facts
                =~= cursor.sections_left().facts);
        }
        Ok(cursor)
    }

    /// The next value, or none at the end.
    pub fn next_fact(&mut self) -> (r: Result<Option<Fact>>)
        requires
            old(self).wf(),
        ensures
            final(self).wf(),
            r == advanced(old(self)@),
            moved(old(self)@, r, final(self)@),
    {
        if self.failed {
            return Err(Error::corruption("Fact cursor", "cursor already failed"));
        }
        match self.advance() {
            Ok(fact) => Ok(fact),
            Err(e) => {
                self.failed = true;
                Err(e)
            },
        }
    }

    fn advance(&mut self) -> (r: Result<Option<Fact>>)
        requires
            old(self).wf(),
            !old(self).failed,
        ensures
            final(self).wf(),
            r == advanced(old(self)@),
            r is Ok ==> moved(old(self)@, r, final(self)@),
    {
        let ghost before = self@;
        loop
            invariant
                before == old(self)@,
                self.wf(),
                !self.failed,
                self@ == before,
            decreases self.planned@.len() - self.next_section,
        {
            if self.current_index < self.current.len() {
                let fact = self.current[self.current_index];
                proof {
                    let left = self.current@.skip(self.current_index as int);
                    assert(left[0] == fact);
                    assert((left + self.sections_left().facts).skip(1) =~= self.current@.skip(
                        self.current_index + 1,
                    ) + self.sections_left().facts);
                }
                self.current_index += 1;
                return match self.emit(fact) {
                    Ok(fact) => Ok(Some(fact)),
                    Err(e) => Err(e),
                };
            }
            assert(self.current@.skip(self.current_index as int) =~= Seq::empty());
            assert(self.flow().facts =~= self.sections_left().facts);
            if self.next_section < self.planned.len() {
                let planned = self.planned[self.next_section];
                self.next_section += 1;
                if let Err(e) = self.load_section(planned) {
                    return Err(e);
                }
                assert(self.current@.skip(0) =~= self.current@);
                assert(self.flow().facts =~= before.flow.facts);
                continue;
            }
            if self.tail_index < self.tail_postings.len() {
                let fact = self.next_tail_fact();
                return match self.emit(fact) {
                    Ok(fact) => Ok(Some(fact)),
                    Err(e) => Err(e),
                };
            }
            assert(self.tail_left() =~= Seq::empty());
            return Ok(None);
        }
    }

    fn load_section(&mut self, planned: PlannedSection) -> (r: Result<()>)
        requires
            old(self).wf(),
        ensures
            final(self).wf(),
            match section_facts(
                old(self).source,
                old(self).schemas@,
                old(self).key,
                old(self).start,
                old(self).end,
                planned,
            ) {
                Ok(list) => r is Ok && final(self).current@ == list && final(self).current_index
                    == 0 && *final(self) == (FactCursor {
                    current: final(self).current,
                    current_index: 0,
                    ..*old(self)
                }),
                Err(e) => r matches Err(f) && f == e && *final(self) == *old(self),
            },
    {
        let section = planned.section;
        let table = match self.schemas.table(section.table) {
            Some(table) => table,
            None => return Err(Error::corruption("Fact cursor", "section table disappeared")),
        };
        let version = match facts::find_version(table.versions.as_slice(), section.version_no) {
            Some(version) => version,
            None => return Err(Error::corruption("Fact cursor", "section version disappeared")),
        };
        let stream = facts::stream_of(self.key);
        let wanted = [stream];
        assert(wanted@ =~= seq![stream]);
        let rows = match self.source.decode_streams(
            planned.unit,
            section,
            version,
            wanted.as_slice(),
        ) {
            Ok(rows) => rows,
            Err(e) => return Err(e),
        };
        let columns: usize = rows.columns.len();
        assert(rows@.columns.len() == columns);
        if columns > 1 {
            return Err(
                Error::corruption("Fact cursor", "stream decoder returned multiple columns"),
            );
        }
        let mut current: Vec<Fact> = Vec::new();
        if columns == 1 {
            let column = &rows.columns[0];
            assert(rows@.columns[0] == column@);
            let ghost times = rows.timestamps@;
            let ghost cells = column.cells@;
            let mut index: usize = 0;
            while index < rows.timestamps.len() && index < column.cells.len()
                invariant
                    times == rows.timestamps@,
                    cells == column.cells@,
                    index <= times.len(),
                    index <= cells.len(),
                    current@ == facts::facts_within(
                        facts::cell_facts(times, cells, index as int),
                        self.start,
                        self.end,
                    ),
                decreases times.len() - index,
            {
                let timestamp: i64 = rows.timestamps[index];
                proof {
                    let earlier = facts::cell_facts(times, cells, index as int);
                    if let Some(value) = cells[index as int] {
                        assert(earlier.push(Fact { timestamp, value }).drop_last() =~= earlier);
                    }
                }
                if let Some(value) = column.cells[index] {
                    if timestamp >= self.start && timestamp < self.end {
                        current.push(Fact { timestamp, value });
                    }
                }
                index += 1;
            }
        }
        self.current = current;
        self.current_index = 0;
        Ok(())
    }

    fn next_tail_fact(&mut self) -> (fact: Fact)
        requires
            old(self).wf(),
            old(self).tail_index < old(self).tail_postings@.len(),
        ensures
            final(self).wf(),
            old(self).tail_left().len() > 0,
            fact == old(self).tail_left()[0],
            final(self).tail_left() == old(self).tail_left().skip(1),
            *final(self) == (FactCursor {
                tail_index: final(self).tail_index,
                ..*old(self)
            }),
    {
        let row: u32 = self.tail_postings[self.tail_index];
        let fact = facts::posted_fact(self.tail_table, row, facts::stream_of(self.key));
        self.tail_index += 1;
        assert(self.tail_left() =~= old(self).tail_left().skip(1));
        fact
    }

    fn emit(&mut self, fact: Fact) -> (r: Result<Fact>)
        requires
            old(self).wf(),
        ensures
            final(self).wf(),
            match r {
                Ok(emitted) => emitted == fact && !(old(self).last_emitted matches Some(last)
                    && last >= fact.timestamp) && *final(self) == (FactCursor {
                    last_emitted: Some(fact.timestamp),
                    ..*old(self)
                }),
                Err(e) => (old(self).last_emitted matches Some(last) && last >= fact.timestamp)
                    && e == unordered_sources() && *final(self) == *old(self),
            },
    {
        if let Some(last) = self.last_emitted {
            if last >= fact.timestamp {
                return Err(
                    Error::corruption(
                        "Fact cursor",
                        "sources emitted unordered or duplicate timestamps",
                    ),
                );
            }
        }
        self.last_emitted = Some(fact.timestamp);
        Ok(fact)
    }
}

fn validate_join(planned: &[PlannedSection], table: &TailTable) -> (r: Result<()>)
    ensures
        error::refuses(r, join_refusal(planned@, table@.rows)),
{
    let count: usize = planned.len();
    assert(table@.rows.len() == table.rows@.len());
    if count > 0 && table.rows.len() > 0 {
        assert(table@.rows[0] == table.rows@[0]@);
        if planned[count - 1].section.max_ts >= table.rows[0].timestamp {
            return Err(Error::corruption("Fact cursor", "Seal and WAL tail ranges overlap"));
        }
    }
    Ok(())
}

/// The last value of one stream at or before a time.
pub fn predecessor_fact<S: UnitSource>(
    units: &[UnitMeta],
    source: &S,
    schemas: &TailIndex,
    key: StreamKey,
    at: i64,
) -> (r: Result<Option<Fact>>)
    requires
        schemas.wf(),
    ensures
        match batch::predecessors_of(source, units@, schemas@, seq![key], at) {
            Ok(list) => r == Ok::<Option<Fact>, Error>(list[0]),
            Err(e) => r == Err::<Option<Fact>, Error>(e),
        },
{
    let keys = [key];
    assert(keys@ =~= seq![key]);
    match batch::predecessors(units, source, schemas, keys.as_slice(), at) {
        Ok(list) => Ok(list[0]),
        Err(e) => Err(e),
    }
}

} // verus!

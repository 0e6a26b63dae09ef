//! Which sections of which units a query has to read.
use vstd::prelude::*;

use crate::error::{self, Error, Result};
use crate::limits::{self, Limit};
use crate::manifest::catalog::{self, UnitMeta};
use crate::types::TableId;
use crate::unit::{TableDirectoryEntry, UnitSource};

verus! {

/// A section that a query reads, with the unit that holds it.
#[derive(Clone, Copy, Debug, PartialEq, Eq, Structural)]
pub struct PlannedSection {
    pub unit: UnitMeta,
    pub section: TableDirectoryEntry,
}

impl PlannedSection {
    pub fn unit(self) -> (unit: UnitMeta)
        ensures
            unit == self.unit,
    {
        self.unit
    }

    pub fn section(self) -> (section: TableDirectoryEntry)
        ensures
            section == self.section,
    {
        self.section
    }
}

pub open spec fn plan_corruption(reason: &'static str) -> Error {
    error::corruption("query plan", reason)
}

/// Why the units cannot route a query.
pub open spec fn units_refusal(units: Seq<UnitMeta>) -> Option<Error> {
    if !catalog::units_ordered(units) {
        Some(plan_corruption("units are not in routing order"))
    } else if !catalog::ids_distinct(units) {
        Some(plan_corruption("unit identifier is duplicated"))
    } else {
        None
    }
}

/// Why a loaded section contradicts what it was loaded for.
pub open spec fn loaded_refusal(unit: UnitMeta, table: TableId, section: TableDirectoryEntry)
    -> Option<Error> {
    if section.table != table || section.min_ts < unit.min_ts || section.max_ts > unit.max_ts {
        Some(plan_corruption("loaded section contradicts table or unit range"))
    } else {
        None
    }
}

/// Why a section cannot follow another one.
pub open spec fn after_refusal(
    previous: Option<TableDirectoryEntry>,
    current: TableDirectoryEntry,
) -> Option<Error> {
    if previous matches Some(entry) && (entry.min_ts >= current.min_ts || entry.max_ts
        >= current.min_ts) {
        Some(plan_corruption("table sections are unordered or overlap"))
    } else {
        None
    }
}

pub open spec fn last_section(planned: Seq<PlannedSection>) -> Option<TableDirectoryEntry> {
    if planned.len() == 0 {
        None
    } else {
        Some(planned.last().section)
    }
}

/// A plan with one more section, unless it is out of order or the plan grows too large.
pub open spec fn extended(planned: Seq<PlannedSection>, candidate: PlannedSection) -> Result<
    Seq<PlannedSection>,
> {
    match after_refusal(last_section(planned), candidate.section) {
        Some(e) => Err(e),
        None => if planned.len() + 1 > usize::MAX {
            Err(
                error::limit(
                    "operation_memory_bytes",
                    u64::MAX,
                    Limit::OperationMemoryBytes.spec_maximum(),
                ),
            )
        } else {
            match limits::memory_refusal(
                (planned.len() + 1) as int,
                vstd::layout::size_of::<PlannedSection>() as int,
            ) {
                Some(e) => Err(e),
                None => Ok(planned.push(candidate)),
            }
        },
    }
}

/// Whether a section holds any time of the range.
pub open spec fn touches(section: TableDirectoryEntry, start: i64, end: i64) -> bool {
    section.min_ts < end && section.max_ts >= start
}

/// A plan extended by the first `count` sections of a unit.
pub open spec fn planned_sections(
    planned: Seq<PlannedSection>,
    unit: UnitMeta,
    table: TableId,
    start: i64,
    end: i64,
    sections: Seq<TableDirectoryEntry>,
    count: int,
) -> Result<Seq<PlannedSection>>
    decreases count,
{
    if count <= 0 {
        Ok(planned)
    } else {
        match planned_sections(planned, unit, table, start, end, sections, count - 1) {
            Err(e) => Err(e),
            Ok(list) => {
                let section = sections[count - 1];
                match loaded_refusal(unit, table, section) {
                    Some(e) => Err(e),
                    None => if touches(section, start, end) {
                        extended(list, PlannedSection { unit, section })
                    } else {
                        Ok(list)
                    },
                }
            },
        }
    }
}

/// The plan over the first `count` units.
pub open spec fn planned_units<S: UnitSource>(
    source: &S,
    units: Seq<UnitMeta>,
    table: TableId,
    start: i64,
    end: i64,
    count: int,
) -> Result<Seq<PlannedSection>>
    decreases count,
{
    if count <= 0 {
        Ok(Seq::empty())
    } else {
        match planned_units(source, units, table, start, end, count - 1) {
            Err(e) => Err(e),
            Ok(list) => {
                let unit = units[count - 1];
                if unit.min_ts >= end || unit.max_ts < start {
                    Ok(list)
                } else {
                    match source.directory(unit, table) {
                        Err(e) => Err(e),
                        Ok(sections) => planned_sections(
                            list,
                            unit,
                            table,
                            start,
                            end,
                            sections,
                            sections.len() as int,
                        ),
                    }
                }
            },
        }
    }
}

/// The sections of a table that hold any time of the range, in order.
pub open spec fn planned<S: UnitSource>(
    source: &S,
    units: Seq<UnitMeta>,
    table: TableId,
    start: i64,
    end: i64,
) -> Result<Seq<PlannedSection>> {
    match units_refusal(units) {
        Some(e) => Err(e),
        None => if start > end {
            Err(error::invalid("range", "start must not exceed end"))
        } else if start == end {
            Ok(Seq::empty())
        } else {
            planned_units(source, units, table, start, end, units.len() as int)
        },
    }
}

proof fn sections_refusal_is_final(
    planned: Seq<PlannedSection>,
    unit: UnitMeta,
    table: TableId,
    start: i64,
    end: i64,
    sections: Seq<TableDirectoryEntry>,
    count: int,
)
    requires
        0 <= count <= sections.len(),
        planned_sections(planned, unit, table, start, end, sections, count) is Err,
    ensures
        planned_sections(planned, unit, table, start, end, sections, sections.len() as int)
            == planned_sections(planned, unit, table, start, end, sections, count),
    decreases sections.len() - count,
{
    if count < sections.len() {
        sections_refusal_is_final(planned, unit, table, start, end, sections, count + 1);
    }
}

proof fn units_refusal_is_final<S: UnitSource>(
    source: &S,
    units: Seq<UnitMeta>,
    table: TableId,
    start: i64,
    end: i64,
    count: int,
)
    requires
        0 <= count <= units.len(),
        planned_units(source, units, table, start, end, count) is Err,
    ensures
        planned_units(source, units, table, start, end, units.len() as int) == planned_units(
            source,
            units,
            table,
            start,
            end,
            count,
        ),
    decreases units.len() - count,
{
    if count < units.len() {
        units_refusal_is_final(source, units, table, start, end, count + 1);
    }
}

/// Units that start behind the range add nothing.
proof fn later_units_add_nothing<S: UnitSource>(
    source: &S,
    units: Seq<UnitMeta>,
    table: TableId,
    start: i64,
    end: i64,
    from: int,
    count: int,
)
    requires
        0 <= from <= count <= units.len(),
        forall|i: int| from <= i < units.len() ==> (#[trigger] units[i]).min_ts >= end,
    ensures
        planned_units(source, units, table, start, end, count) == planned_units(
            source,
            units,
            table,
            start,
            end,
            from,
        ),
    decreases count - from,
{
    if from < count {
        later_units_add_nothing(source, units, table, start, end, from, count - 1);
        assert(units[count - 1].min_ts >= end);
    }
}

pub fn validate_units(units: &[UnitMeta]) -> (r: Result<()>)
    ensures
        error::refuses(r, units_refusal(units@)),
{
    if !catalog::check_units_ordered(units) {
        return Err(Error::corruption("query plan", "units are not in routing order"));
    }
    if !catalog::check_ids_distinct(units) {
        return Err(Error::corruption("query plan", "unit identifier is duplicated"));
    }
    Ok(())
}

pub fn validate_loaded(unit: UnitMeta, table: TableId, section: TableDirectoryEntry) -> (r: Result<
    (),
>)
    ensures
        error::refuses(r, loaded_refusal(unit, table, section)),
{
    if section.table != table || section.min_ts < unit.min_ts || section.max_ts > unit.max_ts {
        return Err(
            Error::corruption("query plan", "loaded section contradicts table or unit range"),
        );
    }
    Ok(())
}

pub fn validate_after(
    previous: Option<TableDirectoryEntry>,
    current: TableDirectoryEntry,
) -> (r: Result<()>)
    ensures
        error::refuses(r, after_refusal(previous, current)),
{
    if let Some(entry) = previous {
        if entry.min_ts >= current.min_ts || entry.max_ts >= current.min_ts {
            return Err(Error::corruption("query plan", "table sections are unordered or overlap"));
        }
    }
    Ok(())
}

fn push_ordered(planned: &mut Vec<PlannedSection>, candidate: PlannedSection) -> (r: Result<()>)
    ensures
        match extended(old(planned)@, candidate) {
            Ok(list) => r is Ok && final(planned)@ == list,
            Err(e) => r matches Err(f) && f == e && final(planned)@ == old(planned)@,
        },
{
    let length: usize = planned.len();
    let last: Option<TableDirectoryEntry> = if length == 0 {
        None
    } else {
        Some(planned[length - 1].section)
    };
    if let Err(e) = validate_after(last, candidate.section) {
        return Err(e);
    }
    let grown: usize = match length.checked_add(1) {
        Some(grown) => grown,
        None => {
            return Err(
                Error::limit(
                    "operation_memory_bytes",
                    u64::MAX,
                    Limit::OperationMemoryBytes.maximum(),
                ),
            );
        },
    };
    if let Err(e) = limits::ensure_memory(grown, core::mem::size_of::<PlannedSection>()) {
        return Err(e);
    }
    planned.push(candidate);
    Ok(())
}

/// Plans the sections of a table that a range of time needs.
pub fn range<S: UnitSource>(
    units: &[UnitMeta],
    table: TableId,
    start: i64,
    end: i64,
    source: &S,
) -> (r: Result<Vec<PlannedSection>>)
    ensures
        error::lists(r, planned(source, units@, table, start, end)),
{
    if let Err(e) = validate_units(units) {
        return Err(e);
    }
    if start > end {
        return Err(Error::invalid("range", "start must not exceed end"));
    }
    if start == end {
        return Ok(Vec::new());
    }
    let mut list: Vec<PlannedSection> = Vec::new();
    let mut index: usize = 0;
    while index < units.len() && units[index].min_ts < end
        invariant
            start < end,
            units_refusal(units@) is None,
            index <= units@.len(),
            planned_units(source, units@, table, start, end, index as int) == Ok::<
                Seq<PlannedSection>,
                Error,
            >(list@),
        decreases units@.len() - index,
    {
        let unit = units[index];
        if unit.max_ts >= start {
            let ghost before = list@;
            let sections = match source.table_sections(unit, table) {
                Ok(sections) => sections,
                Err(e) => {
                    proof {
                        units_refusal_is_final(source, units@, table, start, end, index + 1);
                    }
                    return Err(e);
                },
            };
            let mut at: usize = 0;
            while at < sections.len()
                invariant
                    start < end,
                    units_refusal(units@) is None,
                    index < units@.len(),
                    unit == units@[index as int],
                    unit.min_ts < end,
                    unit.max_ts >= start,
                    planned_units(source, units@, table, start, end, index as int) == Ok::<
                        Seq<PlannedSection>,
                        Error,
                    >(before),
                    source.directory(unit, table) == Ok::<Seq<TableDirectoryEntry>, Error>(
                        sections@,
                    ),
                    at <= sections@.len(),
                    planned_sections(
                        before,
                        unit,
                        table,
                        start,
                        end,
                        sections@,
                        at as int,
                    ) == Ok::<Seq<PlannedSection>, Error>(list@),
                decreases sections@.len() - at,
            {
                let section = sections[at];
                proof {
                    if planned_sections(
                        before,
                        unit,
                        table,
                        start,
                        end,
                        sections@,
                        at + 1,
                    ) is Err {
                        sections_refusal_is_final(
                            before,
                            unit,
                            table,
                            start,
                            end,
                            sections@,
                            at + 1,
                        );
                        units_refusal_is_final(source, units@, table, start, end, index + 1);
                    }
                }
                if let Err(e) = validate_loaded(unit, table, section) {
                    return Err(e);
                }
                if section.min_ts < end && section.max_ts >= start {
                    if let Err(e) = push_ordered(&mut list, PlannedSection { unit, section }) {
                        return Err(e);
                    }
                }
                at += 1;
            }
        }
        index += 1;
    }
    proof {
        assert forall|i: int| index <= i < units@.len() implies (#[trigger] units@[i]).min_ts
            >= end by {
            if index < i {
                assert(units@[index as int].spec_before(units@[i]));
            }
        }
        later_units_add_nothing(
            source,
            units@,
            table,
            start,
            end,
            index as int,
            units@.len() as int,
        );
    }
    Ok(list)
}

} // verus!

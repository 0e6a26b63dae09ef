//! Sealing the tail, compacting units and letting old ones expire.
//!
//! Each operation is decided in steps. The embedding program does the file work between them: it
//! makes the log durable, writes the unit that is asked for, and publishes the catalog that comes
//! back. Only then is the new state installed.
use vstd::prelude::*;

use crate::db::Db;
use crate::error::{self, Error, Result};
use crate::files::{self, Area};
use crate::manifest::catalog::{
    self, Manifest, ManifestView, RetentionState, TableView, UnitMeta,
};
use crate::manifest::replay;
use crate::manifest::transition;
use crate::ordmap;
use crate::retention::fold;
use crate::retention::head::{self, HeadsView, RetentionHeads};
use crate::tail::{TailIndex, TailTableView, TailView};
use crate::types::TableId;
use crate::unit::UnitSource;
use crate::wal::{Checkpoint, DurablePosition};

verus! {

/// Which units are merged into which.
#[derive(Clone, Copy, Debug, PartialEq, Eq, Structural)]
#[non_exhaustive]
pub enum CompactLevel {
    Level0To1,
    Level1To2,
}

impl CompactLevel {
    pub open spec fn spec_source(self) -> u8 {
        match self {
            CompactLevel::Level0To1 => 0,
            CompactLevel::Level1To2 => 1,
        }
    }

    /// The level that is merged.
    pub fn source(self) -> (level: u8)
        ensures
            level == self.spec_source(),
    {
        match self {
            CompactLevel::Level0To1 => 0,
            CompactLevel::Level1To2 => 1,
        }
    }
}

/// What sealing did.
#[derive(Clone, Copy, Debug, PartialEq, Eq, Structural)]
pub struct SealReport {
    pub unit_id: Option<u64>,
    pub checkpointed_records: u64,
}

impl Default for SealReport {
    fn default() -> (report: Self)
        ensures
            report == (SealReport { unit_id: None, checkpointed_records: 0 }),
    {
        SealReport { unit_id: None, checkpointed_records: 0 }
    }
}

impl SealReport {
    pub fn unit_id(self) -> (unit_id: Option<u64>)
        ensures
            unit_id == self.unit_id,
    {
        self.unit_id
    }

    pub fn checkpointed_records(self) -> (records: u64)
        ensures
            records == self.checkpointed_records,
    {
        self.checkpointed_records
    }
}

/// What compaction did.
#[derive(Clone, Copy, Debug, PartialEq, Eq, Structural)]
pub struct CompactReport {
    pub input_units: u32,
    pub output_unit: Option<u64>,
}

impl Default for CompactReport {
    fn default() -> (report: Self)
        ensures
            report == (CompactReport { input_units: 0, output_unit: None }),
    {
        CompactReport { input_units: 0, output_unit: None }
    }
}

impl CompactReport {
    pub fn input_units(self) -> (units: u32)
        ensures
            units == self.input_units,
    {
        self.input_units
    }

    pub fn output_unit(self) -> (unit: Option<u64>)
        ensures
            unit == self.output_unit,
    {
        self.output_unit
    }
}

/// What retention did.
#[derive(Clone, Copy, Debug, PartialEq, Eq, Structural)]
pub struct RetentionReport {
    pub removed_units: u32,
    pub floor: Option<i64>,
}

impl Default for RetentionReport {
    fn default() -> (report: Self)
        ensures
            report == (RetentionReport { removed_units: 0, floor: None }),
    {
        RetentionReport { removed_units: 0, floor: None }
    }
}

impl RetentionReport {
    pub fn removed_units(self) -> (units: u32)
        ensures
            units == self.removed_units,
    {
        self.removed_units
    }

    pub fn floor(self) -> (floor: Option<i64>)
        ensures
            floor == self.floor,
    {
        self.floor
    }
}

/// The records that a seal covers, and whether the log must be made durable first.
#[derive(Clone, Copy, Debug, PartialEq, Eq, Structural)]
pub struct SealRange {
    pub start_seq: u64,
    pub end_seq: u64,
    pub sync_first: bool,
}

/// Where replay starts after a seal, and which unit is to be written, if any.
#[derive(Clone, Copy, Debug, PartialEq, Eq, Structural)]
pub struct SealOrder {
    pub range: SealRange,
    pub checkpoint: Checkpoint,
    pub unit: Option<u64>,
    pub unit_high_water: u64,
}

/// The records between the checkpoint and the end of the tail.
pub open spec fn seal_range(catalog: ManifestView, tail: TailView, unsynced: u64) -> Option<
    SealRange,
> {
    if catalog.checkpoint.next_seq == tail.next_seq {
        None
    } else {
        Some(
            SealRange {
                start_seq: catalog.checkpoint.next_seq,
                end_seq: tail.next_seq,
                sync_first: unsynced != 0,
            },
        )
    }
}

/// Whether some table has a row in the tail.
pub open spec fn has_rows(tail: TailView) -> bool {
    exists|id: TableId|
        tail.tables.contains_key(id) && (#[trigger] tail.tables[id]).rows.len() > 0
}

/// What is to be written for a seal once the log is durable up to a position.
pub open spec fn seal_order(
    catalog: ManifestView,
    tail: TailView,
    range: SealRange,
    durable: DurablePosition,
) -> Result<SealOrder> {
    match Checkpoint::restored(durable.segment, durable.offset, range.end_seq) {
        Err(e) => Err(e),
        Ok(checkpoint) => {
            let high_water = catalog.identity.unit_high_water;
            if !has_rows(tail) {
                Ok(SealOrder { range, checkpoint, unit: None, unit_high_water: high_water })
            } else if high_water == u64::MAX {
                Err(error::limit("unit_id", u64::MAX, u64::MAX))
            } else {
                let next = (high_water + 1) as u64;
                Ok(SealOrder { range, checkpoint, unit: Some(next), unit_high_water: next })
            }
        },
    }
}

/// Units in routing order with one more among them.
pub open spec fn with_unit(units: Seq<UnitMeta>, unit: UnitMeta) -> Seq<UnitMeta>
    decreases units.len(),
{
    if units.len() == 0 || units.last().spec_before(unit) {
        units.push(unit)
    } else {
        with_unit(units.drop_last(), unit).push(units.last())
    }
}

/// Placing a unit with a new identifier keeps routing order, and keeps and adds nothing else.
pub proof fn placing_keeps_order(units: Seq<UnitMeta>, unit: UnitMeta)
    requires
        catalog::units_ordered(units),
        forall|i: int| 0 <= i < units.len() ==> (#[trigger] units[i]).unit_id != unit.unit_id,
    ensures
        catalog::units_ordered(with_unit(units, unit)),
        with_unit(units, unit).len() == units.len() + 1,
        with_unit(units, unit).to_multiset() == units.to_multiset().insert(unit),
        forall|i: int|
            0 <= i < with_unit(units, unit).len() ==> (#[trigger] with_unit(units, unit)[i]) == unit
                || units.contains(with_unit(units, unit)[i]),
    decreases units.len(),
{
    broadcast use vstd::seq_lib::group_to_multiset_ensures;

    let after = with_unit(units, unit);
    if units.len() == 0 || units.last().spec_before(unit) {
        assert forall|i: int, j: int| 0 <= i < j < after.len() implies (
        #[trigger] after[i]).spec_before(#[trigger] after[j]) by {
            if j < units.len() {
                assert(units[i].spec_before(units[j]));
            } else if i < units.len() - 1 {
                assert(units[i].spec_before(units[units.len() - 1]));
            }
        }
        assert forall|i: int| 0 <= i < after.len() implies (#[trigger] after[i]) == unit
            || units.contains(after[i]) by {
            if i < units.len() {
                assert(units[i] == after[i]);
            }
        }
    } else {
        let front = units.drop_last();
        let last = units.last();
        assert(units[units.len() - 1].unit_id != unit.unit_id);
        assert(unit.spec_before(last));
        placing_keeps_order(front, unit);
        let earlier = with_unit(front, unit);
        assert forall|i: int| 0 <= i < earlier.len() implies (
        #[trigger] earlier[i]).spec_before(last) by {
            if earlier[i] != unit {
                assert(front.contains(earlier[i]));
                let k = choose|k: int| 0 <= k < front.len() && front[k] == earlier[i];
                assert(units[k].spec_before(units[units.len() - 1]));
            }
        }
        assert forall|i: int, j: int| 0 <= i < j < after.len() implies (
        #[trigger] after[i]).spec_before(#[trigger] after[j]) by {
            if j < earlier.len() {
                assert(earlier[i].spec_before(earlier[j]));
            } else {
                assert(after[i] == earlier[i]);
            }
        }
        assert forall|i: int| 0 <= i < after.len() implies (#[trigger] after[i]) == unit
            || units.contains(after[i]) by {
            if i < earlier.len() {
                assert(after[i] == earlier[i]);
                if earlier[i] != unit {
                    assert(front.contains(earlier[i]));
                    let k = choose|k: int| 0 <= k < front.len() && front[k] == earlier[i];
                    assert(units[k] == after[i]);
                }
            } else {
                assert(units[units.len() - 1] == after[i]);
            }
        }
        assert(units =~= front.push(last));
        assert(after.to_multiset() =~= units.to_multiset().insert(unit));
    }
}

/// Places a unit among units in routing order.
fn place_unit(units: &mut Vec<UnitMeta>, unit: UnitMeta)
    ensures
        final(units)@ == with_unit(old(units)@, unit),
{
    let ghost before = units@;
    let mut at: usize = units.len();
    let ghost whole = with_unit(before, unit);
    assert(before.take(at as int) =~= before);
    assert(whole =~= with_unit(before.take(at as int), unit) + before.skip(at as int));
    while at > 0 && !units[at - 1].before(unit)
        invariant
            before == units@,
            whole == with_unit(before, unit),
            at <= before.len(),
            whole == with_unit(before.take(at as int), unit) + before.skip(at as int),
        decreases at,
    {
        proof {
            let here = before.take(at as int);
            assert(here.last() == before[at - 1]);
            assert(here.drop_last() =~= before.take(at - 1));
            assert(with_unit(before.take(at - 1), unit).push(before[at - 1]) + before.skip(
                at as int,
            ) =~= with_unit(before.take(at - 1), unit) + before.skip(at - 1));
        }
        at -= 1;
    }
    proof {
        let here = before.take(at as int);
        if at > 0 {
            assert(here.last() == before[at - 1]);
        }
        assert(with_unit(here, unit) == here.push(unit));
        assert(whole =~= before.insert(at as int, unit));
    }
    units.insert(at, unit);
}

/// The units after a seal.
pub open spec fn sealed_units(units: Seq<UnitMeta>, meta: Option<UnitMeta>) -> Seq<UnitMeta> {
    match meta {
        Some(unit) => with_unit(units, unit),
        None => units,
    }
}

/// The catalog after a seal.
pub open spec fn sealed_catalog(
    catalog: ManifestView,
    tables: Seq<TableView>,
    table_high_water: u32,
    order: SealOrder,
    meta: Option<UnitMeta>,
) -> Result<ManifestView> {
    replay::sealed_after(
        catalog,
        order.checkpoint,
        tables,
        table_high_water,
        sealed_units(catalog.units, meta),
        order.unit_high_water,
    )
}

/// A sealed catalog is a valid one.
proof fn sealed_is_valid(
    current: ManifestView,
    tail: &TailIndex,
    order: SealOrder,
    meta: Option<UnitMeta>,
)
    requires
        current.valid(),
        tail.wf(),
        order.checkpoint.valid(),
        meta matches Some(unit) ==> unit.valid(),
        sealed_catalog(
            current,
            replay::cataloged_tables(tail),
            tail.table_high_water,
            order,
            meta,
        ) is Ok,
    ensures
        sealed_catalog(
            current,
            replay::cataloged_tables(tail),
            tail.table_high_water,
            order,
            meta,
        )->Ok_0.valid(),
{
    let tables = replay::cataloged_tables(tail);
    let next = sealed_catalog(current, tables, tail.table_high_water, order, meta)->Ok_0;
    assert forall|i: int| 0 <= i < tables.len() implies (#[trigger] tables[i]).valid() by {
        replay::accepted_table(tables, i);
        let entry = tail.tables.entries@[i];
        assert(entry.1.wf());
        assert(tables[i] == replay::cataloged(entry.0, entry.1@));
    }
    if let Some(unit) = meta {
        placed_units_valid(current.units, unit);
    }
}

proof fn placed_units_valid(units: Seq<UnitMeta>, unit: UnitMeta)
    requires
        unit.valid(),
        forall|i: int| 0 <= i < units.len() ==> (#[trigger] units[i]).valid(),
    ensures
        forall|i: int|
            0 <= i < with_unit(units, unit).len() ==> (#[trigger] with_unit(units, unit)[i]).valid(),
    decreases units.len(),
{
    let after = with_unit(units, unit);
    if units.len() > 0 && !units.last().spec_before(unit) {
        let earlier = with_unit(units.drop_last(), unit);
        placed_units_valid(units.drop_last(), unit);
        assert forall|i: int| 0 <= i < after.len() implies (#[trigger] after[i]).valid() by {
            if i < earlier.len() {
                assert(after[i] == earlier[i]);
            } else {
                assert(after[i] == units[units.len() - 1]);
            }
        }
    } else {
        assert forall|i: int| 0 <= i < after.len() implies (#[trigger] after[i]).valid() by {
            if i < units.len() {
                assert(after[i] == units[i]);
            }
        }
    }
}

impl<S: UnitSource> Db<S> {
    /// Which records a seal would cover. None, if the catalog covers all of them.
    pub fn seal(&self) -> (range: Option<SealRange>)
        ensures
            range == seal_range(self.manifest@, self.tail@, self.writer.unsynced_bytes),
    {
        let start_seq: u64 = self.manifest.checkpoint.next_seq;
        let end_seq: u64 = self.tail.next_seq;
        if start_seq == end_seq {
            return None;
        }
        Some(SealRange { start_seq, end_seq, sync_first: self.writer.unsynced_bytes != 0 })
    }

    fn any_rows(&self) -> (found: bool)
        requires
            self.tail.wf(),
        ensures
            found == has_rows(self.tail@),
    {
        let mut index: usize = 0;
        while index < self.tail.tables.entries.len()
            invariant
                self.tail.wf(),
                index <= self.tail.tables.entries@.len(),
                forall|i: int|
                    0 <= i < index ==> (#[trigger] self.tail.tables.entries@[i]).1.rows@.len()
                        == 0,
            decreases self.tail.tables.entries@.len() - index,
        {
            proof {
                ordmap::lookup_at(self.tail.tables.entries@, index as int);
            }
            if self.tail.tables.entries[index].1.rows.len() > 0 {
                proof {
                    let id = self.tail.tables.entries@[index as int].0;
                    assert(self.tail@.tables.contains_key(id));
                    assert(self.tail@.tables[id].rows.len() > 0);
                }
                return true;
            }
            index += 1;
        }
        proof {
            if has_rows(self.tail@) {
                let id = choose|id: TableId|
                    self.tail@.tables.contains_key(id) && (
                    #[trigger] self.tail@.tables[id]).rows.len() > 0;
                let entries = self.tail.tables.entries@;
                assert(ordmap::has_key(entries, id));
                let i = ordmap::key_index(entries, id);
                assert(entries[i].0 == id);
                assert(entries[i].1.rows@.len() == 0);
            }
        }
        false
    }

    /// What is to be written for a seal, now that the log is durable up to a position.
    pub fn order_seal(&self, range: SealRange, durable: DurablePosition) -> (r: Result<SealOrder>)
        requires
            self.wf(),
        ensures
            r == seal_order(self.manifest@, self.tail@, range, durable),
            r matches Ok(order) ==> order.checkpoint.valid(),
    {
        let checkpoint = match Checkpoint::new(durable.segment, durable.offset, range.end_seq) {
            Ok(checkpoint) => checkpoint,
            Err(e) => return Err(e),
        };
        let high_water: u64 = self.manifest.identity.unit_high_water;
        if !self.any_rows() {
            return Ok(SealOrder { range, checkpoint, unit: None, unit_high_water: high_water });
        }
        if high_water == u64::MAX {
            return Err(Error::limit("unit_id", u64::MAX, u64::MAX));
        }
        let next: u64 = high_water + 1;
        Ok(SealOrder { range, checkpoint, unit: Some(next), unit_high_water: next })
    }

    /// The catalog to publish once the ordered unit was written.
    pub fn sealed(&self, order: SealOrder, meta: Option<UnitMeta>) -> (r: Result<Manifest>)
        requires
            self.wf(),
            order.checkpoint.valid(),
            meta matches Some(unit) ==> unit.valid(),
        ensures
            transition::yields(
                r,
                sealed_catalog(
                    self.manifest@,
                    replay::cataloged_tables(&self.tail),
                    self.tail@.table_high_water,
                    order,
                    meta,
                ),
            ),
            r matches Ok(next) ==> next.valid(),
    {
        let mut units: Vec<UnitMeta> = catalog::copy_slice(self.manifest.units.as_slice());
        if let Some(unit) = meta {
            place_unit(&mut units, unit);
        }
        let r = self.manifest.successor_from_tail(
            order.checkpoint,
            &self.tail,
            units,
            order.unit_high_water,
        );
        proof {
            if r is Ok {
                sealed_is_valid(self.manifest@, &self.tail, order, meta);
            }
        }
        r
    }

    /// Installs a published catalog: what it covers is no longer in the tail.
    pub fn install_seal(&mut self, order: SealOrder, next: Manifest, source: S) -> (r: Result<
        SealReport,
    >)
        requires
            old(self).wf(),
            next.valid(),
        ensures
            final(self).wf(),
            final(self).manifest == next,
            final(self).source == source,
            final(self).tail@ == replay::unreplayed_tail(next@),
            *final(self) == (Db {
                manifest: next,
                tail: final(self).tail,
                source,
                ..*old(self)
            }),
            r == Ok::<SealReport, Error>(
                SealReport {
                    unit_id: order.unit,
                    checkpointed_records: if order.range.end_seq >= order.range.start_seq {
                        (order.range.end_seq - order.range.start_seq) as u64
                    } else {
                        0
                    },
                },
            ),
    {
        let tail = match next.replay_target() {
            Ok(tail) => tail,
            Err(e) => {
                assert(false);
                return Err(e);
            },
        };
        self.manifest = next;
        self.tail = tail;
        self.source = source;
        Ok(
            SealReport {
                unit_id: order.unit,
                checkpointed_records: order.range.end_seq.saturating_sub(order.range.start_seq),
            },
        )
    }
}

/// Sealing takes every row out of the tail and changes nothing else of a table: its clock, its
/// schema history and its retirements are those that it had.
pub proof fn sealing_keeps_tables(
    catalog: ManifestView,
    tail: &TailIndex,
    order: SealOrder,
    meta: Option<UnitMeta>,
    id: TableId,
)
    requires
        tail.wf(),
        sealed_catalog(
            catalog,
            replay::cataloged_tables(tail),
            tail.table_high_water,
            order,
            meta,
        ) is Ok,
    ensures
        ({
            let next = sealed_catalog(
                catalog,
                replay::cataloged_tables(tail),
                tail.table_high_water,
                order,
                meta,
            )->Ok_0;
            let after = replay::unreplayed_tail(next);
            &&& after.tables.contains_key(id) <==> tail@.tables.contains_key(id)
            &&& tail@.tables.contains_key(id) ==> after.tables[id] == (
            TailTableView { rows: Seq::empty(), ..tail@.tables[id] })
            &&& after.next_seq == order.checkpoint.next_seq
            &&& after.table_high_water == tail@.table_high_water
            &&& !has_rows(after)
        }),
{
    let tables = replay::cataloged_tables(tail);
    let next = sealed_catalog(catalog, tables, tail.table_high_water, order, meta)->Ok_0;
    let after = replay::unreplayed_tail(next);
    let entries = tail.tables.entries@;
    replay::unreplayed_lookup(tables, tables.len() as int, id);
    if tail@.tables.contains_key(id) {
        let i = ordmap::key_index(entries, id);
        assert(ordmap::has_key(entries, id));
        assert(entries[i].0 == id);
        ordmap::lookup_at(entries, i);
        assert(tables[i].table == id);
    }
    if after.tables.contains_key(id) {
        let i = choose|i: int| 0 <= i < tables.len() && (#[trigger] tables[i]).table == id;
        assert(entries[i].0 == id);
        ordmap::lookup_at(entries, i);
        assert(tables[i] == replay::cataloged(entries[i].0, entries[i].1@));
    }
    if has_rows(after) {
        let other = choose|other: TableId|
            after.tables.contains_key(other) && (#[trigger] after.tables[other]).rows.len() > 0;
        replay::unreplayed_lookup(tables, tables.len() as int, other);
    }
}

/// Whether two neighbours are both of the level.
pub open spec fn pair_at(units: Seq<UnitMeta>, level: u8, at: int) -> bool {
    0 <= at && at + 1 < units.len() && units[at].level == level && units[at + 1].level == level
}

/// Whether the units from `start` to `end` are a longest stretch of the level.
pub open spec fn is_run(units: Seq<UnitMeta>, level: u8, start: int, end: int) -> bool {
    &&& 0 <= start < end <= units.len()
    &&& forall|i: int| start <= i < end ==> (#[trigger] units[i]).level == level
    &&& start > 0 ==> units[start - 1].level != level
    &&& end < units.len() ==> units[end].level != level
}

/// The first longest stretch of at least two neighbours of the level.
pub fn select_run(units: &[UnitMeta], level: u8) -> (run: Option<(usize, usize)>)
    ensures
        match run {
            Some((start, end)) => is_run(units@, level, start as int, end as int) && end - start
                >= 2 && (forall|i: int| i < start ==> !#[trigger] pair_at(units@, level, i)),
            None => forall|i: int| !#[trigger] pair_at(units@, level, i),
        },
{
    let mut start: usize = 0;
    while start < units.len()
        invariant
            start <= units@.len(),
            start > 0 && start < units@.len() ==> !(units@[start - 1].level == level && units@[
                start as int
            ].level == level),
            forall|i: int| i < start ==> !#[trigger] pair_at(units@, level, i),
        decreases units@.len() - start,
    {
        if units[start].level != level {
            start += 1;
            continue ;
        }
        let mut end: usize = start + 1;
        while end < units.len() && units[end].level == level
            invariant
                start < end <= units@.len(),
                forall|i: int| start <= i < end ==> (#[trigger] units@[i]).level == level,
            decreases units@.len() - end,
        {
            end += 1;
        }
        if end - start >= 2 {
            return Some((start, end));
        }
        start = end;
    }
    None
}

/// Files with their areas.
pub open spec fn artifact_views(artifacts: Seq<(Area, Vec<u8>)>) -> Seq<(Area, Seq<u8>)> {
    artifacts.map_values(|artifact: (Area, Vec<u8>)| (artifact.0, artifact.1@))
}

/// The files of units.
pub open spec fn unit_files(units: Seq<UnitMeta>) -> Seq<(Area, Seq<u8>)> {
    units.map_values(|unit: UnitMeta| (Area::Units, files::unit_file(unit.unit_id)))
}

fn files_of(units: &[UnitMeta]) -> (artifacts: Vec<(Area, Vec<u8>)>)
    ensures
        artifact_views(artifacts@) == unit_files(units@),
{
    let mut artifacts: Vec<(Area, Vec<u8>)> = Vec::new();
    let mut index: usize = 0;
    while index < units.len()
        invariant
            index <= units@.len(),
            artifacts@.len() == index,
            forall|i: int|
                0 <= i < index ==> (#[trigger] artifacts@[i]).0 == Area::Units && artifacts@[i].1@
                    == files::unit_file(units@[i].unit_id),
        decreases units@.len() - index,
    {
        artifacts.push((Area::Units, files::unit_file_name(units[index].unit_id)));
        index += 1;
    }
    assert(artifact_views(artifacts@) =~= unit_files(units@));
    artifacts
}

/// Units to merge, and the identifier of the unit that replaces them.
#[derive(Clone, Copy, Debug, PartialEq, Eq, Structural)]
pub struct CompactOrder {
    pub start: usize,
    pub end: usize,
    pub unit_id: u64,
}

/// What is to be merged, or why not.
pub open spec fn compact_order(catalog: ManifestView, start: int, end: int) -> Result<(int, int, u64)> {
    if start >= end || end > catalog.units.len() {
        Err(error::corruption("compaction", "selected unit range is invalid"))
    } else if catalog.identity.unit_high_water == u64::MAX {
        Err(error::limit("unit_id", u64::MAX, u64::MAX))
    } else {
        Ok((start, end, (catalog.identity.unit_high_water + 1) as u64))
    }
}

/// Whether an order is the expected one, or the refusal is.
pub open spec fn orders(found: Result<CompactOrder>, expected: Result<(int, int, u64)>) -> bool {
    match (found, expected) {
        (Ok(order), Ok((start, end, unit_id))) => order.start == start && order.end == end
            && order.unit_id == unit_id,
        (Err(e), Err(f)) => e == f,
        _ => false,
    }
}

/// The units after some were merged into one.
pub open spec fn compacted_units(
    units: Seq<UnitMeta>,
    start: int,
    end: int,
    compacted: UnitMeta,
) -> Seq<UnitMeta> {
    with_unit(units.take(start) + units.skip(end), compacted)
}

impl<S: UnitSource> Db<S> {
    /// The first units of a level that lie side by side and can be merged. None, if there are none.
    pub fn compact(&self, level: CompactLevel) -> (r: Result<Option<CompactOrder>>)
        requires
            self.wf(),
        ensures
            match r {
                Err(e) => if self.writer.poisoned {
                    e == Error::Poisoned
                } else {
                    &&& exists|i: int| #[trigger]
                        pair_at(self.manifest@.units, level.spec_source(), i)
                    &&& self.manifest@.identity.unit_high_water == u64::MAX
                    &&& e == error::limit("unit_id", u64::MAX, u64::MAX)
                },
                Ok(None) => !self.writer.poisoned && (forall|i: int|
                    !#[trigger] pair_at(self.manifest@.units, level.spec_source(), i)),
                Ok(Some(order)) => {
                    &&& !self.writer.poisoned
                    &&& is_run(
                        self.manifest@.units,
                        level.spec_source(),
                        order.start as int,
                        order.end as int,
                    )
                    &&& order.end - order.start >= 2
                    &&& forall|i: int|
                        i < order.start ==> !#[trigger] pair_at(
                            self.manifest@.units,
                            level.spec_source(),
                            i,
                        )
                    &&& order.unit_id == self.manifest@.identity.unit_high_water + 1
                },
            },
    {
        if let Err(e) = self.writer.ensure_healthy() {
            return Err(e);
        }
        match select_run(self.manifest.units.as_slice(), level.source()) {
            None => Ok(None),
            Some((start, end)) => {
                assert(pair_at(self.manifest@.units, level.spec_source(), start as int));
                match self.compact_locked(start, end) {
                    Ok(order) => Ok(Some(order)),
                    Err(e) => Err(e),
                }
            },
        }
    }

    /// Orders the merge of the units from `start` to `end`.
    pub fn compact_locked(&self, start: usize, end: usize) -> (r: Result<CompactOrder>)
        ensures
            orders(r, compact_order(self.manifest@, start as int, end as int)),
    {
        if start >= end || end > self.manifest.units.len() {
            return Err(Error::corruption("compaction", "selected unit range is invalid"));
        }
        let high_water: u64 = self.manifest.identity.unit_high_water;
        if high_water == u64::MAX {
            return Err(Error::limit("unit_id", u64::MAX, u64::MAX));
        }
        Ok(CompactOrder { start, end, unit_id: high_water + 1 })
    }

    /// The catalog to publish once the merged unit was written.
    pub fn compacted(&self, order: CompactOrder, compacted: UnitMeta) -> (r: Result<Manifest>)
        requires
            self.wf(),
            order.start <= order.end <= self.manifest@.units.len(),
            compacted.valid(),
        ensures
            transition::yields(
                r,
                transition::catalog_after(
                    self.manifest@,
                    self.manifest@.retention,
                    compacted_units(
                        self.manifest@.units,
                        order.start as int,
                        order.end as int,
                        compacted,
                    ),
                    order.unit_id,
                ),
            ),
            r matches Ok(next) ==> next.valid(),
    {
        let all = self.manifest.units.as_slice();
        let total: usize = all.len();
        let mut units: Vec<UnitMeta> = catalog::copy_slice(
            vstd::slice::slice_subrange(all, 0, order.start),
        );
        let rest = vstd::slice::slice_subrange(all, order.end, total);
        units.extend_from_slice(rest);
        let ghost kept = self.manifest@.units.take(order.start as int)
            + self.manifest@.units.skip(order.end as int);
        proof {
            assert(units@ =~= kept);
            assert forall|i: int| 0 <= i < kept.len() implies (#[trigger] kept[i]).valid() by {
                if i < order.start {
                    assert(kept[i] == self.manifest@.units[i]);
                } else {
                    assert(kept[i] == self.manifest@.units[order.end + i - order.start]);
                }
            }
            placed_units_valid(kept, compacted);
        }
        place_unit(&mut units, compacted);
        self.manifest.successor_catalog(self.manifest.retention, units, order.unit_id)
    }

    /// Installs a published catalog and retires the files of the merged units.
    pub fn install_compaction(&mut self, order: CompactOrder, next: Manifest, source: S) -> (report:
        CompactReport)
        requires
            old(self).wf(),
            next.valid(),
            old(self).generation < u64::MAX,
            order.start <= order.end <= old(self).manifest@.units.len(),
        ensures
            final(self).wf(),
            final(self).manifest == next,
            final(self).source == source,
            *final(self) == (Db {
                manifest: next,
                source,
                generation: final(self).generation,
                garbage: final(self).garbage,
                ..*old(self)
            }),
            retired_files(
                final(self),
                old(self),
                unit_files(
                    old(self).manifest@.units.subrange(order.start as int, order.end as int),
                ),
            ),
            report.output_unit == Some(order.unit_id),
            report.input_units == (if order.end - order.start > u32::MAX {
                u32::MAX as int
            } else {
                order.end - order.start
            }),
    {
        let obsolete = files_of(
            vstd::slice::slice_subrange(self.manifest.units.as_slice(), order.start, order.end),
        );
        let ghost names = artifact_views(obsolete@);
        let ghost list = obsolete@;
        self.retire(obsolete);
        proof {
            retired_names(self, old(self), list, names);
        }
        self.manifest = next;
        self.source = source;
        let count: usize = order.end - order.start;
        CompactReport {
            input_units: if count as u64 > u32::MAX as u64 {
                u32::MAX
            } else {
                count as u32
            },
            output_unit: Some(order.unit_id),
        }
    }
}

/// Whether exactly these files were added to what is to be removed once the generation before is no
/// longer held.
pub open spec fn retired_files<S: UnitSource>(
    after: &Db<S>,
    before: &Db<S>,
    artifacts: Seq<(Area, Seq<u8>)>,
) -> bool {
    &&& after.generation == before.generation + 1
    &&& after.garbage@.len() == before.garbage@.len() + artifacts.len()
    &&& after.garbage@.take(before.garbage@.len() as int) == before.garbage@
    &&& forall|i: int|
        0 <= i < artifacts.len() ==> {
            let added = #[trigger] after.garbage@[before.garbage@.len() + i];
            &&& added.owner == before.generation
            &&& (added.area, added.name@) == artifacts[i]
            &&& !added.removed
        }
}

proof fn retired_names<S: UnitSource>(
    after: &Db<S>,
    before: &Db<S>,
    artifacts: Seq<(Area, Vec<u8>)>,
    names: Seq<(Area, Seq<u8>)>,
)
    requires
        names == artifact_views(artifacts),
        after.generation == before.generation + 1,
        after.garbage@.len() == before.garbage@.len() + artifacts.len(),
        after.garbage@.take(before.garbage@.len() as int) == before.garbage@,
        forall|i: int|
            0 <= i < artifacts.len() ==> {
                let added = #[trigger] after.garbage@[before.garbage@.len() + i];
                &&& added.owner == before.generation
                &&& added.area == artifacts[i].0
                &&& added.name@ == artifacts[i].1@
                &&& !added.removed
            },
    ensures
        retired_files(after, before, names),
{
    assert forall|i: int| 0 <= i < names.len() implies {
        let added = #[trigger] after.garbage@[before.garbage@.len() + i];
        &&& added.owner == before.generation
        &&& (added.area, added.name@) == names[i]
        &&& !added.removed
    } by {
        assert(names[i] == (artifacts[i].0, artifacts[i].1@));
    }
}

/// Merging keeps every unit outside the merged stretch, in order, and puts the new one among them.
pub proof fn compaction_replaces_its_inputs(
    units: Seq<UnitMeta>,
    start: int,
    end: int,
    compacted: UnitMeta,
)
    requires
        catalog::units_ordered(units),
        0 <= start < end <= units.len(),
        forall|i: int| 0 <= i < units.len() ==> (#[trigger] units[i]).unit_id != compacted.unit_id,
    ensures
        catalog::units_ordered(compacted_units(units, start, end, compacted)),
        compacted_units(units, start, end, compacted).to_multiset() == units.to_multiset().sub(
            units.subrange(start, end).to_multiset(),
        ).insert(compacted),
{
    broadcast use vstd::seq_lib::group_to_multiset_ensures;

    let kept = units.take(start) + units.skip(end);
    assert forall|i: int, j: int| 0 <= i < j < kept.len() implies (
    #[trigger] kept[i]).spec_before(#[trigger] kept[j]) by {
        let a = if i < start {
            i
        } else {
            i + (end - start)
        };
        let b = if j < start {
            j
        } else {
            j + (end - start)
        };
        assert(kept[i] == units[a] && kept[j] == units[b]);
        assert(units[a].spec_before(units[b]));
    }
    assert forall|i: int| 0 <= i < kept.len() implies (#[trigger] kept[i]).unit_id
        != compacted.unit_id by {
        if i < start {
            assert(kept[i] == units[i]);
        } else {
            assert(kept[i] == units[i + (end - start)]);
        }
    }
    placing_keeps_order(kept, compacted);
    let left = units.take(start);
    let middle = units.subrange(start, end);
    let right = units.skip(end);
    assert(units =~= left + middle + right);
    vstd::seq_lib::lemma_multiset_commutative(left, right);
    vstd::seq_lib::lemma_multiset_commutative(left, middle);
    vstd::seq_lib::lemma_multiset_commutative(left + middle, right);
    assert(kept.to_multiset() =~= units.to_multiset().sub(middle.to_multiset()));
}

/// How many leading units end before the cutoff.
pub open spec fn expired_count(units: Seq<UnitMeta>, cutoff: i64, from: int) -> int
    decreases units.len() - from,
{
    if from < 0 || from >= units.len() || units[from].max_ts >= cutoff {
        from
    } else {
        expired_count(units, cutoff, from + 1)
    }
}

/// The latest time in the first `count` units.
pub open spec fn latest_end(units: Seq<UnitMeta>, count: int) -> i64
    decreases count,
{
    if count <= 1 {
        units[0].max_ts
    } else {
        let earlier = latest_end(units, count - 1);
        if units[count - 1].max_ts > earlier {
            units[count - 1].max_ts
        } else {
            earlier
        }
    }
}

/// The files that expire: those of the units, and that of the heads which are replaced.
pub open spec fn expired_files(units: Seq<UnitMeta>, heads: Option<u64>) -> Seq<(Area, Seq<u8>)> {
    match heads {
        Some(generation) => unit_files(units).push((Area::Heads, head::head_file(generation))),
        None => unit_files(units),
    }
}

/// Units that expire, the floor that rises over them, and the heads that stand for them.
pub struct RetentionOrder {
    pub expired: usize,
    pub floor: i64,
    pub generation: u64,
    pub heads: RetentionHeads,
}

pub enum RetentionStep {
    Unchanged(RetentionReport),
    Advance(RetentionOrder),
}

/// What retention decides for a cutoff.
pub enum RetentionView {
    Unchanged(RetentionReport),
    Advance { expired: int, floor: i64, generation: u64, heads: HeadsView },
}

pub open spec fn retention_step<S: UnitSource>(db: &Db<S>, cutoff: i64) -> Result<RetentionView> {
    let catalog = db.manifest@;
    let count = expired_count(catalog.units, cutoff, 0);
    let floor = (latest_end(catalog.units, count) + 1) as i64;
    if db.writer.poisoned {
        Err(Error::Poisoned)
    } else if count == 0 {
        Ok(
            RetentionView::Unchanged(
                RetentionReport { removed_units: 0, floor: catalog.retention.floor },
            ),
        )
    } else if catalog.retention.floor matches Some(current) && floor <= current {
        Err(error::invalid("cutoff", "retention floor must advance"))
    } else {
        match fold::folded(
            match db.heads {
                Some(heads) => Some(heads@),
                None => None,
            },
            catalog.units.take(count),
            &db.source,
            &db.tail,
            floor,
        ) {
            Err(e) => Err(e),
            Ok(heads) => if catalog.identity.generation == u64::MAX {
                Err(error::limit("manifest_generation", u64::MAX, u64::MAX))
            } else {
                Ok(
                    RetentionView::Advance {
                        expired: count,
                        floor,
                        generation: (catalog.identity.generation + 1) as u64,
                        heads,
                    },
                )
            },
        }
    }
}

proof fn expired_facts(units: Seq<UnitMeta>, cutoff: i64, from: int)
    requires
        0 <= from <= units.len(),
    ensures
        from <= expired_count(units, cutoff, from) <= units.len(),
        forall|i: int|
            from <= i < expired_count(units, cutoff, from) ==> (#[trigger] units[i]).max_ts
                < cutoff,
    decreases units.len() - from,
{
    if from < units.len() && units[from].max_ts < cutoff {
        expired_facts(units, cutoff, from + 1);
    }
}

impl<S: UnitSource> Db<S> {
    /// Decides which leading units end before the cutoff, and folds them into heads.
    pub fn retain(&self, cutoff: i64) -> (r: Result<RetentionStep>)
        requires
            self.wf(),
        ensures
            match (r, retention_step(self, cutoff)) {
                (
                    Ok(RetentionStep::Unchanged(report)),
                    Ok(RetentionView::Unchanged(expected)),
                ) => report == expected,
                (
                    Ok(RetentionStep::Advance(order)),
                    Ok(RetentionView::Advance { expired, floor, generation, heads }),
                ) => order.expired == expired && order.floor == floor && order.generation
                    == generation && order.heads@ == heads && order.heads.valid()
                    && order.expired <= self.manifest@.units.len(),
                (Err(e), Err(f)) => e == f,
                _ => false,
            },
    {
        if let Err(e) = self.writer.ensure_healthy() {
            return Err(e);
        }
        let units = self.manifest.units.as_slice();
        let mut count: usize = 0;
        while count < units.len() && units[count].max_ts < cutoff
            invariant
                units@ == self.manifest@.units,
                count <= units@.len(),
                expired_count(units@, cutoff, 0) == expired_count(units@, cutoff, count as int),
            decreases units@.len() - count,
        {
            count += 1;
        }
        assert(expired_count(units@, cutoff, 0) == count);
        if count == 0 {
            return Ok(
                RetentionStep::Unchanged(
                    RetentionReport { removed_units: 0, floor: self.manifest.retention.floor },
                ),
            );
        }
        proof {
            expired_facts(units@, cutoff, 0);
        }
        let mut maximum: i64 = units[0].max_ts;
        let mut index: usize = 1;
        while index < count
            invariant
                1 <= index <= count <= units@.len(),
                maximum == latest_end(units@, index as int),
                maximum < cutoff,
                forall|i: int| 0 <= i < count ==> (#[trigger] units@[i]).max_ts < cutoff,
            decreases count - index,
        {
            if units[index].max_ts > maximum {
                maximum = units[index].max_ts;
            }
            index += 1;
        }
        let floor: i64 = maximum + 1;
        if let Some(current) = self.manifest.retention.floor {
            if floor <= current {
                return Err(Error::invalid("cutoff", "retention floor must advance"));
            }
        }
        let expired = vstd::slice::slice_subrange(units, 0, count);
        assert(expired@ =~= units@.take(count as int));
        let heads = match fold::fold(
            self.heads.as_ref(),
            expired,
            &self.source,
            &self.tail,
            floor,
        ) {
            Ok(heads) => heads,
            Err(e) => return Err(e),
        };
        let generation: u64 = self.manifest.identity.generation;
        if generation == u64::MAX {
            return Err(Error::limit("manifest_generation", u64::MAX, u64::MAX));
        }
        Ok(
            RetentionStep::Advance(
                RetentionOrder { expired: count, floor, generation: generation + 1, heads },
            ),
        )
    }

    /// The catalog to publish once the heads were written.
    pub fn retained(&self, order: &RetentionOrder) -> (r: Result<Manifest>)
        requires
            self.wf(),
            order.expired <= self.manifest@.units.len(),
        ensures
            transition::yields(
                r,
                transition::catalog_after(
                    self.manifest@,
                    RetentionState {
                        floor: Some(order.floor),
                        heads_generation: Some(order.generation),
                    },
                    self.manifest@.units.skip(order.expired as int),
                    self.manifest@.identity.unit_high_water,
                ),
            ),
            r matches Ok(next) ==> next.valid(),
    {
        let all = self.manifest.units.as_slice();
        let rest = vstd::slice::slice_subrange(all, order.expired, all.len());
        let remaining: Vec<UnitMeta> = catalog::copy_slice(rest);
        assert(remaining@ =~= self.manifest@.units.skip(order.expired as int));
        proof {
            assert forall|i: int| 0 <= i < remaining@.len() implies (
            #[trigger] remaining@[i]).valid() by {
                assert(remaining@[i] == self.manifest@.units[order.expired + i]);
            }
        }
        self.manifest.successor_catalog(
            RetentionState::new(Some(order.floor), Some(order.generation)),
            remaining,
            self.manifest.identity.unit_high_water,
        )
    }

    /// Installs a published catalog with its heads, and retires the files that they replace.
    pub fn install_retention(&mut self, order: RetentionOrder, next: Manifest, source: S) -> (report:
        RetentionReport)
        requires
            old(self).wf(),
            next.valid(),
            order.heads.valid(),
            old(self).generation < u64::MAX,
            order.expired <= old(self).manifest@.units.len(),
        ensures
            final(self).wf(),
            final(self).manifest == next,
            final(self).source == source,
            *final(self) == (Db {
                manifest: next,
                source,
                heads: Some(order.heads),
                generation: final(self).generation,
                garbage: final(self).garbage,
                ..*old(self)
            }),
            retired_files(
                final(self),
                old(self),
                expired_files(
                    old(self).manifest@.units.take(order.expired as int),
                    old(self).manifest@.retention.heads_generation,
                ),
            ),
            report.floor == Some(order.floor),
            report.removed_units == (if order.expired > u32::MAX {
                u32::MAX as int
            } else {
                order.expired as int
            }),
    {
        let expired = vstd::slice::slice_subrange(
            self.manifest.units.as_slice(),
            0,
            order.expired,
        );
        assert(expired@ =~= self.manifest@.units.take(order.expired as int));
        let mut obsolete = files_of(expired);
        let ghost units_only = obsolete@;
        if let Some(generation) = self.manifest.retention.heads_generation {
            obsolete.push((Area::Heads, head::head_name(generation)));
            assert(artifact_views(obsolete@) =~= artifact_views(units_only).push(
                (Area::Heads, head::head_file(generation)),
            ));
        }
        let ghost names = artifact_views(obsolete@);
        let ghost list = obsolete@;
        self.retire(obsolete);
        proof {
            retired_names(self, old(self), list, names);
        }
        let count: usize = order.expired;
        let floor: i64 = order.floor;
        self.manifest = next;
        self.source = source;
        self.heads = Some(order.heads);
        RetentionReport {
            removed_units: if count as u64 > u32::MAX as u64 {
                u32::MAX
            } else {
                count as u32
            },
            floor: Some(floor),
        }
    }
}

/// The floor only rises, and everything that expires lies below it.
pub proof fn floor_rises_over_what_expires<S: UnitSource>(db: &Db<S>, cutoff: i64, at: int)
    requires
        retention_step(db, cutoff) matches Ok(RetentionView::Advance { .. }),
        0 <= at < retention_step(db, cutoff)->Ok_0->expired,
    ensures
        db.manifest@.retention.floor matches Some(current) ==> current < retention_step(
            db,
            cutoff,
        )->Ok_0->floor,
        db.manifest@.units[at].max_ts < retention_step(db, cutoff)->Ok_0->floor,
        retention_step(db, cutoff)->Ok_0->floor <= cutoff,
{
    let units = db.manifest@.units;
    expired_facts(units, cutoff, 0);
    latest_end_facts(units, expired_count(units, cutoff, 0), cutoff);
}

proof fn latest_end_facts(units: Seq<UnitMeta>, count: int, cutoff: i64)
    requires
        1 <= count <= units.len(),
        forall|i: int| 0 <= i < count ==> (#[trigger] units[i]).max_ts < cutoff,
    ensures
        forall|i: int| 0 <= i < count ==> (#[trigger] units[i]).max_ts <= latest_end(units, count),
        latest_end(units, count) < cutoff,
    decreases count,
{
    if count > 1 {
        latest_end_facts(units, count - 1, cutoff);
    }
}

/// What a change drops is deferred and not lost: the files that were deferred before stay so, each
/// file of the change follows under the generation that could still read it, not removed yet, and
/// the next generation begins.
pub proof fn dropped_files_are_deferred<S: UnitSource>(
    after: &Db<S>,
    before: &Db<S>,
    artifacts: Seq<(Area, Seq<u8>)>,
    i: int,
)
    requires
        retired_files(after, before, artifacts),
    ensures
        after.generation == before.generation + 1,
        after.garbage@.len() == before.garbage@.len() + artifacts.len(),
        0 <= i < before.garbage@.len() ==> after.garbage@[i] == before.garbage@[i],
        0 <= i < artifacts.len() ==> {
            let added = after.garbage@[before.garbage@.len() + i];
            &&& added.owner == before.generation
            &&& added.area == artifacts[i].0
            &&& added.name@ == artifacts[i].1
            &&& !added.removed
        },
{
    if 0 <= i < before.garbage@.len() {
        assert(after.garbage@.take(before.garbage@.len() as int)[i] == before.garbage@[i]);
    }
}

/// The files of expired units and of the heads that are replaced expire, each once.
pub proof fn expired_files_are_those(units: Seq<UnitMeta>, heads: Option<u64>, i: int)
    ensures
        expired_files(units, heads).len() == units.len() + (if heads is Some {
            1int
        } else {
            0
        }),
        0 <= i < units.len() ==> expired_files(units, heads)[i] == (
            Area::Units,
            files::unit_file(units[i].unit_id),
        ),
        heads matches Some(generation) ==> expired_files(units, heads).last() == (
            Area::Heads,
            head::head_file(generation),
        ),
{
}

} // verus!

//! One state of a database, frozen for reading.
use std::ops::Range;
use std::sync::Arc;

use vstd::prelude::*;

use super::cursor::{self, CursorView, FactCursor};
use super::primitives::{self, Lookup, Slot};
use super::sample;
use crate::error::{self, Error, Result};
use crate::manifest::catalog::UnitMeta;
use crate::retention::head::{HeadsView, RetentionHeads};
use crate::tail::TailIndex;
use crate::types::{self, StreamKey, TableId, TableVersion};
use crate::unit::UnitSource;

verus! {

/// A state of the database. Copies share it.
pub struct Snapshot<S: UnitSource> {
    pub state: Arc<SnapshotState<S>>,
}

pub struct SnapshotState<S: UnitSource> {
    pub units: Vec<UnitMeta>,
    pub source: S,
    pub tail: TailIndex,
    pub retention_floor: Option<i64>,
    pub heads: Option<RetentionHeads>,
}

impl<S: UnitSource> SnapshotState<S> {
    pub open spec fn kept(&self) -> Option<HeadsView> {
        match self.heads {
            Some(heads) => Some(heads@),
            None => None,
        }
    }
}

/// Why a time cannot be queried: what it held is gone.
pub open spec fn point_refusal(floor: Option<i64>, timestamp: i64) -> Option<Error> {
    if floor matches Some(minimum) && timestamp < minimum {
        Some(error::invalid("timestamp", "query is below retention floor"))
    } else {
        None
    }
}

/// Why a range cannot be queried.
pub open spec fn range_refusal(floor: Option<i64>, start: i64, end: i64) -> Option<Error> {
    if start > end {
        Some(error::invalid("range", "range is inverted"))
    } else {
        point_refusal(floor, start)
    }
}

/// A refusal, or else what is computed.
pub open spec fn unless<T>(refusal: Option<Error>, otherwise: Result<T>) -> Result<T> {
    match refusal {
        Some(e) => Err(e),
        None => otherwise,
    }
}

impl<S: UnitSource> Clone for Snapshot<S> {
    fn clone(&self) -> (copy: Self)
        ensures
            copy.state == self.state,
    {
        Snapshot { state: self.state.clone() }
    }
}

impl<S: UnitSource> Snapshot<S> {
    pub open spec fn wf(&self) -> bool {
        self.state.tail.wf() && (self.state.heads matches Some(heads) ==> heads.valid())
    }

    pub fn new(
        units: Vec<UnitMeta>,
        source: S,
        tail: TailIndex,
        retention_floor: Option<i64>,
        heads: Option<RetentionHeads>,
    ) -> (snapshot: Self)
        requires
            tail.wf(),
            heads matches Some(list) ==> list.valid(),
        ensures
            snapshot.wf(),
            *snapshot.state == (SnapshotState { units, source, tail, retention_floor, heads }),
    {
        Snapshot {
            state: Arc::new(SnapshotState { units, source, tail, retention_floor, heads }),
        }
    }

    /// A walk through the values of a stream.
    pub fn scan(&self, key: StreamKey, range: Range<i64>) -> (r: Result<FactCursor<'_, S>>)
        requires
            self.wf(),
        ensures
            match (
                r,
                unless(
                    range_refusal(self.state.retention_floor, range.start, range.end),
                    cursor::stream_flow(
                        &self.state.source,
                        self.state.units@,
                        self.state.tail@,
                        key,
                        range.start,
                        range.end,
                    ),
                ),
            ) {
                (Ok(found), Ok(flow)) => found.wf() && found@ == (CursorView {
                    flow,
                    last_emitted: None,
                    failed: false,
                }),
                (Err(e), Err(f)) => e == f,
                _ => false,
            },
    {
        if let Err(e) = self.ensure_range(range.start, range.end) {
            return Err(e);
        }
        FactCursor::new(
            self.state.units.as_slice(),
            &self.state.source,
            &self.state.tail,
            key,
            range.start,
            range.end,
        )
    }

    /// What each stream holds at a time.
    pub fn value_at(&self, keys: &[StreamKey], timestamp: i64) -> (r: Result<Vec<Lookup>>)
        requires
            self.wf(),
        ensures
            error::lists(
                r,
                unless(
                    point_refusal(self.state.retention_floor, timestamp),
                    primitives::lookups(
                        &self.state.source,
                        self.state.units@,
                        self.state.tail@,
                        self.state.kept(),
                        keys@,
                        Some(timestamp),
                    ),
                ),
            ),
    {
        if let Err(e) = self.ensure_point(timestamp) {
            return Err(e);
        }
        primitives::value_at_with_heads(
            self.state.units.as_slice(),
            &self.state.source,
            &self.state.tail,
            self.state.heads.as_ref(),
            keys,
            timestamp,
        )
    }

    /// What each stream holds at the latest time of its table.
    pub fn latest(&self, keys: &[StreamKey]) -> (r: Result<Vec<Lookup>>)
        requires
            self.wf(),
        ensures
            error::lists(
                r,
                primitives::lookups(
                    &self.state.source,
                    self.state.units@,
                    self.state.tail@,
                    self.state.kept(),
                    keys@,
                    None,
                ),
            ),
    {
        primitives::latest_with_heads(
            self.state.units.as_slice(),
            &self.state.source,
            &self.state.tail,
            self.state.heads.as_ref(),
            keys,
        )
    }

    /// The slots of each stream on a grid of times.
    pub fn sample(&self, keys: &[StreamKey], range: Range<i64>, step: u32) -> (r: Result<
        Vec<Vec<Slot>>,
    >)
        requires
            self.wf(),
        ensures
            sample::slot_lists(
                r,
                unless(
                    range_refusal(self.state.retention_floor, range.start, range.end),
                    sample::samples(
                        &self.state.source,
                        self.state.units@,
                        self.state.tail@,
                        self.state.kept(),
                        keys@,
                        range.start,
                        range.end,
                        step,
                    ),
                ),
            ),
    {
        if let Err(e) = self.ensure_range(range.start, range.end) {
            return Err(e);
        }
        sample::sample_with_heads(
            self.state.units.as_slice(),
            &self.state.source,
            &self.state.tail,
            self.state.heads.as_ref(),
            keys,
            range.start,
            range.end,
            step,
        )
    }

    /// The schema history of a table.
    pub fn table_versions(&self, table: TableId) -> (r: Result<&[TableVersion]>)
        requires
            self.wf(),
        ensures
            match r {
                Ok(versions) => self.state.tail@.tables.contains_key(table)
                    && types::version_views(versions@)
                    == self.state.tail@.tables[table].versions,
                Err(e) => !self.state.tail@.tables.contains_key(table) && e == error::invalid(
                    "table",
                    "table is absent",
                ),
            },
    {
        match self.state.tail.table(table) {
            Some(found) => Ok(found.versions()),
            None => Err(Error::invalid("table", "table is absent")),
        }
    }

    /// The time before which values may be gone.
    pub fn retention_floor(&self) -> (floor: Option<i64>)
        ensures
            floor == self.state.retention_floor,
    {
        self.state.retention_floor
    }

    fn ensure_point(&self, timestamp: i64) -> (r: Result<()>)
        ensures
            error::refuses(r, point_refusal(self.state.retention_floor, timestamp)),
    {
        if let Some(floor) = self.state.retention_floor {
            if timestamp < floor {
                return Err(Error::invalid("timestamp", "query is below retention floor"));
            }
        }
        Ok(())
    }

    fn ensure_range(&self, start: i64, end: i64) -> (r: Result<()>)
        ensures
            error::refuses(r, range_refusal(self.state.retention_floor, start, end)),
    {
        if start > end {
            return Err(Error::invalid("range", "range is inverted"));
        }
        self.ensure_point(start)
    }
}

} // verus!

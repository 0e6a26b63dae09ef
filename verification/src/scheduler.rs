//! Deciding what maintenance is due.
use vstd::prelude::*;

use crate::db::Db;
use crate::error::{self, Error, Result};
use crate::maintenance::{self, CompactLevel, CompactOrder, CompactReport, SealReport};
use crate::manifest::catalog::UnitMeta;
use crate::options::Duration;
use crate::ordmap;
use crate::tail::{TailIndex, TailView};
use crate::types::TableId;
use crate::unit::UnitSource;
use crate::wal::DurablePosition;

verus! {

/// What a round of maintenance did.
#[derive(Clone, Copy, Debug, PartialEq, Eq, Structural)]
pub struct MaintenanceReport {
    pub synced: Option<DurablePosition>,
    pub sealed: Option<SealReport>,
    pub compacted_l1: Option<CompactReport>,
    pub compacted_l2: Option<CompactReport>,
    pub more_due: bool,
}

impl Default for MaintenanceReport {
    fn default() -> (report: Self)
        ensures
            report == (MaintenanceReport {
                synced: None,
                sealed: None,
                compacted_l1: None,
                compacted_l2: None,
                more_due: false,
            }),
    {
        MaintenanceReport {
            synced: None,
            sealed: None,
            compacted_l1: None,
            compacted_l2: None,
            more_due: false,
        }
    }
}

impl MaintenanceReport {
    pub fn synced(self) -> (synced: Option<DurablePosition>)
        ensures
            synced == self.synced,
    {
        self.synced
    }

    pub fn sealed(self) -> (sealed: Option<SealReport>)
        ensures
            sealed == self.sealed,
    {
        self.sealed
    }

    pub fn compacted_l1(self) -> (compacted: Option<CompactReport>)
        ensures
            compacted == self.compacted_l1,
    {
        self.compacted_l1
    }

    pub fn compacted_l2(self) -> (compacted: Option<CompactReport>)
        ensures
            compacted == self.compacted_l2,
    {
        self.compacted_l2
    }

    pub fn more_due(self) -> (due: bool)
        ensures
            due == self.more_due,
    {
        self.more_due
    }
}

/// Whether some unit or some table reaches the time.
pub open spec fn reaches(units: Seq<UnitMeta>, tail: TailView, ts: i64) -> bool {
    ||| exists|i: int| 0 <= i < units.len() && (#[trigger] units[i]).max_ts == ts
    ||| exists|id: TableId|
        tail.tables.contains_key(id) && (#[trigger] tail.tables[id]).last_ts == Some(ts)
}

/// Whether the time is the latest that is reached.
pub open spec fn is_high_water(units: Seq<UnitMeta>, tail: TailView, latest: i64) -> bool {
    reaches(units, tail, latest) && (forall|ts: i64| #[trigger]
        reaches(units, tail, ts) ==> ts <= latest)
}

/// The latest time of all units and tables.
pub open spec fn high_water(units: Seq<UnitMeta>, tail: TailView) -> Option<i64> {
    if exists|latest: i64| is_high_water(units, tail, latest) {
        Some(choose|latest: i64| is_high_water(units, tail, latest))
    } else {
        None
    }
}

/// The latest time of all units and tables.
pub fn high_water_ts(units: &[UnitMeta], tail: &TailIndex) -> (high: Option<i64>)
    requires
        tail.wf(),
    ensures
        high == high_water(units@, tail@),
        high is None ==> forall|ts: i64| !#[trigger] reaches(units@, tail@, ts),
{
    let mut high: Option<i64> = None;
    let mut index: usize = 0;
    while index < units.len()
        invariant
            index <= units@.len(),
            match high {
                Some(latest) => (exists|i: int|
                    0 <= i < index && (#[trigger] units@[i]).max_ts == latest) && (forall|i: int|
                    0 <= i < index ==> (#[trigger] units@[i]).max_ts <= latest),
                None => index == 0,
            },
        decreases units@.len() - index,
    {
        let ts: i64 = units[index].max_ts;
        let ghost before = high;
        match high {
            Some(latest) => {
                if ts > latest {
                    high = Some(ts);
                }
            },
            None => {
                high = Some(ts);
            },
        }
        proof {
            if high == Some(ts) {
                assert(units@[index as int].max_ts == ts);
            }
        }
        index += 1;
    }
    let ghost units_high = high;
    let ghost entries = tail.tables.entries@;
    let mut at: usize = 0;
    while at < tail.tables.entries.len()
        invariant
            tail.wf(),
            entries == tail.tables.entries@,
            at <= entries.len(),
            match high {
                Some(latest) => {
                    &&& (exists|i: int|
                        0 <= i < units@.len() && (#[trigger] units@[i]).max_ts == latest) || (
                    exists|i: int| 0 <= i < at && (#[trigger] entries[i]).1.last_ts == Some(latest))
                    &&& forall|i: int| 0 <= i < units@.len() ==> (#[trigger] units@[i]).max_ts
                        <= latest
                    &&& forall|i: int|
                        0 <= i < at ==> ((#[trigger] entries[i]).1.last_ts matches Some(ts)
                            ==> ts <= latest)
                },
                None => units@.len() == 0 && (forall|i: int|
                    0 <= i < at ==> (#[trigger] entries[i]).1.last_ts is None),
            },
        decreases entries.len() - at,
    {
        if let Some(ts) = tail.tables.entries[at].1.last_ts {
            match high {
                Some(latest) => {
                    if ts > latest {
                        high = Some(ts);
                    }
                },
                None => {
                    high = Some(ts);
                },
            }
            proof {
                if high == Some(ts) {
                    assert(entries[at as int].1.last_ts == Some(ts));
                }
            }
        }
        at += 1;
    }
    proof {
        assert forall|ts: i64| #[trigger] reaches(units@, tail@, ts) implies (high matches Some(
            latest,
        ) && ts <= latest) by {
            if exists|i: int| 0 <= i < units@.len() && (#[trigger] units@[i]).max_ts == ts {
            } else {
                let id = choose|id: TableId|
                    tail@.tables.contains_key(id) && (#[trigger] tail@.tables[id]).last_ts == Some(
                        ts,
                    );
                assert(ordmap::has_key(entries, id));
                let i = ordmap::key_index(entries, id);
                assert(entries[i].0 == id);
                assert(entries[i].1.last_ts == Some(ts));
            }
        }
        if let Some(latest) = high {
            if !(exists|i: int| 0 <= i < units@.len() && (#[trigger] units@[i]).max_ts == latest) {
                let i = choose|i: int|
                    0 <= i < entries.len() && (#[trigger] entries[i]).1.last_ts == Some(latest);
                ordmap::lookup_at(entries, i);
                let id = entries[i].0;
                assert(tail@.tables.contains_key(id));
                assert(tail@.tables[id].last_ts == Some(latest));
            }
            assert(is_high_water(units@, tail@, latest));
            let other = choose|other: i64| is_high_water(units@, tail@, other);
            assert(other == latest);
        } else if exists|latest: i64| is_high_water(units@, tail@, latest) {
            let latest = choose|latest: i64| is_high_water(units@, tail@, latest);
            assert(reaches(units@, tail@, latest));
        }
    }
    high
}

/// The first unit of the level from `from` on, or the end.
pub open spec fn first_of_level(units: Seq<UnitMeta>, level: u8, from: int) -> int
    decreases units.len() - from,
{
    if from < 0 || from >= units.len() || units[from].level == level {
        from
    } else {
        first_of_level(units, level, from + 1)
    }
}

/// Where the stretch of the level whose units start before the bound ends.
pub open spec fn stretch_end(units: Seq<UnitMeta>, level: u8, bound: int, from: int) -> int
    decreases units.len() - from,
{
    if from < 0 || from >= units.len() || units[from].level != level || units[from].min_ts
        >= bound {
        from
    } else {
        stretch_end(units, level, bound, from + 1)
    }
}

/// The end of the aligned window that a time lies in.
pub open spec fn window_end(ts: int, width: int) -> int {
    ts - ts % width + width
}

/// The units that a closed window holds: from the first unit of the level on, those that lie side
/// by side and start in its window. The window is closed once the database reached its end.
pub open spec fn closed_window(
    units: Seq<UnitMeta>,
    level: u8,
    width: Duration,
    high_water: Option<i64>,
) -> Result<Option<(int, int)>> {
    let start = first_of_level(units, level, 0);
    let bound = window_end(units[start].min_ts as int, width.secs as int);
    match high_water {
        None => Ok(None),
        Some(reached) => if width.secs == 0 {
            Err(error::invalid("compaction window", "window must be positive"))
        } else if start == units.len() {
            Ok(None)
        } else if reached < bound {
            Ok(None)
        } else {
            Ok(Some((start, stretch_end(units, level, bound, start + 1))))
        },
    }
}

/// Whether a selection is the expected one, or the refusal is.
pub open spec fn selects(
    found: Result<Option<(usize, usize)>>,
    expected: Result<Option<(int, int)>>,
) -> bool {
    match (found, expected) {
        (Ok(None), Ok(None)) => true,
        (Ok(Some((a, b))), Ok(Some((c, d)))) => a == c && b == d,
        (Err(e), Err(f)) => e == f,
        _ => false,
    }
}

/// The remainder of a time in a window, never negative.
fn time_in_window(ts: i64, width: u64) -> (rest: u64)
    requires
        width > 0,
    ensures
        rest == (ts as int) % (width as int),
{
    if ts >= 0 {
        return ts as u64 % width;
    }
    let back: u64 = (-(ts as i128)) as u64;
    let over: u64 = back % width;
    proof {
        let q = back as int / width as int;
        vstd::arithmetic::div_mod::lemma_fundamental_div_mod(back as int, width as int);
        assert(back == width * q + over);
        if over == 0 {
            assert(ts == (-q) * width + 0) by (nonlinear_arith)
                requires
                    ts == -(back as int),
                    back == width * q + over,
                    over == 0,
            ;
            vstd::arithmetic::div_mod::lemma_fundamental_div_mod_converse(
                ts as int,
                width as int,
                -q,
                0,
            );
        } else {
            assert(ts == (-q - 1) * width + (width - over)) by (nonlinear_arith)
                requires
                    ts == -(back as int),
                    back == width * q + over,
            ;
            vstd::arithmetic::div_mod::lemma_fundamental_div_mod_converse(
                ts as int,
                width as int,
                -q - 1,
                width - over,
            );
        }
    }
    if over == 0 {
        0
    } else {
        width - over
    }
}

/// Selects the units of the first window of the level, if that window is closed.
pub fn select_closed_window(
    units: &[UnitMeta],
    level: u8,
    width: Duration,
    high_water: Option<i64>,
) -> (r: Result<Option<(usize, usize)>>)
    ensures
        selects(r, closed_window(units@, level, width, high_water)),
{
    let reached: i64 = match high_water {
        Some(reached) => reached,
        None => return Ok(None),
    };
    if width.secs == 0 {
        return Err(Error::invalid("compaction window", "window must be positive"));
    }
    let mut start: usize = 0;
    while start < units.len() && units[start].level != level
        invariant
            start <= units@.len(),
            first_of_level(units@, level, 0) == first_of_level(units@, level, start as int),
        decreases units@.len() - start,
    {
        start += 1;
    }
    if start == units.len() {
        return Ok(None);
    }
    let first: i64 = units[start].min_ts;
    let rest: u64 = time_in_window(first, width.secs);
    let bound: i128 = first as i128 - rest as i128 + width.secs as i128;
    if (reached as i128) < bound {
        return Ok(None);
    }
    let mut end: usize = start + 1;
    while end < units.len() && units[end].level == level && (units[end].min_ts as i128) < bound
        invariant
            start < end <= units@.len(),
            stretch_end(units@, level, bound as int, start + 1) == stretch_end(
                units@,
                level,
                bound as int,
                end as int,
            ),
        decreases units@.len() - end,
    {
        end += 1;
    }
    Ok(Some((start, end)))
}

/// What a selected window holds: neighbours of one level, the first being the first of its level,
/// all starting inside one aligned window of the width, which the database has left behind.
pub proof fn selected_windows_are_closed(
    units: Seq<UnitMeta>,
    level: u8,
    width: Duration,
    reached: i64,
)
    requires
        closed_window(units, level, width, Some(reached)) matches Ok(Some(_)),
    ensures
        ({
            let (start, end) = closed_window(units, level, width, Some(reached))->Ok_0->Some_0;
            let first = units[start].min_ts as int;
            let span = width.secs as int;
            let bound = window_end(first, span);
            &&& 0 <= start < end <= units.len()
            &&& (bound - span) % span == 0
            &&& bound - span <= first < bound <= reached
            &&& forall|i: int| 0 <= i < start ==> (#[trigger] units[i]).level != level
            &&& forall|i: int|
                start <= i < end ==> (#[trigger] units[i]).level == level && units[i].min_ts
                    < bound
            &&& end < units.len() ==> units[end].level != level || units[end].min_ts >= bound
        }),
{
    let (start, end) = closed_window(units, level, width, Some(reached))->Ok_0->Some_0;
    let first = units[start].min_ts as int;
    let span = width.secs as int;
    let bound = window_end(first, span);
    first_of_level_facts(units, level, 0);
    stretch_end_facts(units, level, bound, start + 1);
    vstd::arithmetic::div_mod::lemma_fundamental_div_mod(first, span);
    let q = first / span;
    assert(0 <= first % span < span);
    assert(first - first % span == q * span + 0) by (nonlinear_arith)
        requires
            first == span * q + first % span,
    ;
    vstd::arithmetic::div_mod::lemma_fundamental_div_mod_converse(
        first - first % span,
        span,
        q,
        0,
    );
}

/// The first aligned window of a level is selected exactly once the database has reached its end,
/// however many units it holds. `first` is the first unit of the level, and the window that it starts
/// in begins at a multiple of the width and ends at `end`. The selection runs from that unit over
/// every neighbour of the level that starts before `end`.
pub proof fn closed_windows_are_selected(
    units: Seq<UnitMeta>,
    level: u8,
    width: Duration,
    reached: i64,
    first: int,
    multiple: int,
    r: Result<Option<(usize, usize)>>,
)
    requires
        selects(r, closed_window(units, level, width, Some(reached))),
        width.secs > 0,
        0 <= first < units.len(),
        units[first].level == level,
        forall|i: int| 0 <= i < first ==> (#[trigger] units[i]).level != level,
        multiple * width.secs <= units[first].min_ts < multiple * width.secs + width.secs,
    ensures
        reached < multiple * width.secs + width.secs ==> r == Ok::<Option<(usize, usize)>, Error>(
            None,
        ),
        reached >= multiple * width.secs + width.secs ==> {
            &&& r matches Ok(Some((start, end)))
            &&& start == first
            &&& start < end <= units.len()
            &&& forall|i: int|
                start <= i < end ==> (#[trigger] units[i]).level == level && units[i].min_ts
                    < multiple * width.secs + width.secs
            &&& end < units.len() ==> units[end as int].level != level || units[end as int].min_ts
                >= multiple * width.secs + width.secs
        },
{
    let span = width.secs as int;
    let start = units[first].min_ts as int;
    first_of_level_facts(units, level, 0);
    let found = first_of_level(units, level, 0);
    if found < first {
        assert(units[found].level != level);
    } else if first < found {
        assert(units[first].level != level);
    }
    vstd::arithmetic::div_mod::lemma_fundamental_div_mod_converse(
        start,
        span,
        multiple,
        start - multiple * span,
    );
    stretch_end_facts(units, level, window_end(start, span), first + 1);
}

/// A level without units has no window, and neither has a database that has reached no time. A width
/// of nothing is refused.
pub proof fn empty_levels_have_no_window(
    units: Seq<UnitMeta>,
    level: u8,
    width: Duration,
    high_water: Option<i64>,
    r: Result<Option<(usize, usize)>>,
)
    requires
        selects(r, closed_window(units, level, width, high_water)),
    ensures
        high_water is None ==> r == Ok::<Option<(usize, usize)>, Error>(None),
        high_water is Some && width.secs == 0 ==> (r matches Err(
            Error::InvalidArgument(detail),
        ) && detail.argument == "compaction window" && detail.reason == "window must be positive"),
        high_water is Some && width.secs > 0 ==> r is Ok,
        width.secs > 0 && (forall|i: int|
            0 <= i < units.len() ==> (#[trigger] units[i]).level != level) ==> r == Ok::<
            Option<(usize, usize)>,
            Error,
        >(None),
{
    first_of_level_facts(units, level, 0);
}

/// The high water is the latest time of all units and of the clocks of all tables, and there is none
/// only where there is no such time.
pub proof fn high_water_is_the_latest_time(
    units: Seq<UnitMeta>,
    tail: TailView,
    high: Option<i64>,
    latest: i64,
)
    requires
        high == high_water(units, tail),
        forall|i: int| 0 <= i < units.len() ==> (#[trigger] units[i]).max_ts <= latest,
        forall|id: TableId| #[trigger]
            tail.tables.contains_key(id) ==> (tail.tables[id].last_ts matches Some(ts) ==> ts
                <= latest),
        (exists|i: int| 0 <= i < units.len() && (#[trigger] units[i]).max_ts == latest) || (exists|
            id: TableId,
        | #[trigger]
            tail.tables.contains_key(id) && tail.tables[id].last_ts == Some(latest)),
    ensures
        high == Some(latest),
{
    if !(exists|i: int| 0 <= i < units.len() && (#[trigger] units[i]).max_ts == latest) {
        let id = choose|id: TableId| #[trigger]
            tail.tables.contains_key(id) && tail.tables[id].last_ts == Some(latest);
        assert(tail.tables[id].last_ts == Some(latest));
    }
    assert(reaches(units, tail, latest));
    assert(is_high_water(units, tail, latest));
    let other = choose|other: i64| is_high_water(units, tail, other);
    assert(reaches(units, tail, other));
}

/// A step of a round is the first that is due. A sync comes before a seal, a seal before the merges,
/// the first level before the second, and the round ends where nothing of it is left. Each of them is
/// passed over only if it is not due, and what is merged is the closed window of the level.
pub proof fn rounds_take_the_first_due_step<S: UnitSource>(
    db: &Db<S>,
    run: MaintenanceRun,
    r: Result<(MaintenanceRun, MaintenanceStep)>,
    first: Result<Option<(usize, usize)>>,
    second: Result<Option<(usize, usize)>>,
)
    requires
        steps(r, maintain_step(db, run)),
        selects(
            first,
            closed_window(
                db.manifest@.units,
                0,
                db.options.compaction.l1_window,
                high_water(db.manifest@.units, db.tail@),
            ),
        ),
        selects(
            second,
            closed_window(
                db.manifest@.units,
                1,
                db.options.compaction.l2_window,
                high_water(db.manifest@.units, db.tail@),
            ),
        ),
    ensures
        ({
            let merging = match run.stage {
                MaintenanceStage::Sync => !run.sync_due && !run.seal_due,
                MaintenanceStage::Seal => !run.seal_due,
                MaintenanceStage::CompactL1 => true,
                _ => false,
            };
            let last_unit = db.manifest@.identity.unit_high_water;
            &&& run.stage == MaintenanceStage::Sync && run.sync_due ==> r == Ok::<
                (MaintenanceRun, MaintenanceStep),
                Error,
            >((run, MaintenanceStep::Sync))
            &&& ((run.stage == MaintenanceStage::Sync && !run.sync_due) || run.stage
                == MaintenanceStage::Seal) && run.seal_due ==> (r matches Ok((now, step)) && step
                == MaintenanceStep::Seal && now == (MaintenanceRun {
                stage: MaintenanceStage::Seal,
                ..run
            }))
            &&& (merging || run.stage == MaintenanceStage::CompactL2) && db.writer.poisoned ==> r
                == Err::<(MaintenanceRun, MaintenanceStep), Error>(Error::Poisoned)
            &&& merging && !db.writer.poisoned && first is Err ==> r is Err && r->Err_0
                == first->Err_0
            &&& first matches Ok(Some((start, end))) ==> (merging && !db.writer.poisoned && last_unit
                < u64::MAX ==> (r matches Ok((now, MaintenanceStep::Compact { level, order }))
                && level == CompactLevel::Level0To1 && order.start == start && order.end == end
                && order.unit_id == last_unit + 1 && now == (MaintenanceRun {
                stage: MaintenanceStage::CompactL1,
                ..run
            })))
            &&& second matches Ok(Some((start, end))) ==> (((merging && first == Ok::<
                Option<(usize, usize)>,
                Error,
            >(None)) || run.stage == MaintenanceStage::CompactL2) && !db.writer.poisoned
                && last_unit < u64::MAX ==> (r matches Ok(
                (now, MaintenanceStep::Compact { level, order }),
            ) && level == CompactLevel::Level1To2 && order.start == start && order.end == end
                && order.unit_id == last_unit + 1 && now == (MaintenanceRun {
                stage: MaintenanceStage::CompactL2,
                ..run
            })))
            &&& (((merging && first == Ok::<Option<(usize, usize)>, Error>(None)) || run.stage
                == MaintenanceStage::CompactL2) && !db.writer.poisoned && second == Ok::<
                Option<(usize, usize)>,
                Error,
            >(None)) || run.stage == MaintenanceStage::Done ==> match (first, second) {
                (Err(e), _) => r is Err && r->Err_0 == e,
                (Ok(None), Err(e)) => r is Err && r->Err_0 == e,
                _ => {
                    &&& r matches Ok((now, MaintenanceStep::Finished { report }))
                    &&& report == (MaintenanceReport {
                        more_due: first->Ok_0 is Some || second->Ok_0 is Some,
                        ..run.report
                    })
                    &&& now == (MaintenanceRun { stage: MaintenanceStage::Done, report, ..run })
                },
            }
        }),
{
    let units = db.manifest@.units;
    let reached = high_water(units, db.tail@);
    if closed_window(units, 0, db.options.compaction.l1_window, reached) matches Ok(Some(_)) {
        selected_windows_are_closed(
            units,
            0,
            db.options.compaction.l1_window,
            reached->Some_0,
        );
    }
    if closed_window(units, 1, db.options.compaction.l2_window, reached) matches Ok(Some(_)) {
        selected_windows_are_closed(
            units,
            1,
            db.options.compaction.l2_window,
            reached->Some_0,
        );
    }
}

proof fn first_of_level_facts(units: Seq<UnitMeta>, level: u8, from: int)
    requires
        0 <= from <= units.len(),
    ensures
        from <= first_of_level(units, level, from) <= units.len(),
        forall|i: int|
            from <= i < first_of_level(units, level, from) ==> (#[trigger] units[i]).level
                != level,
        first_of_level(units, level, from) < units.len() ==> units[first_of_level(
            units,
            level,
            from,
        )].level == level,
    decreases units.len() - from,
{
    if from < units.len() && units[from].level != level {
        first_of_level_facts(units, level, from + 1);
    }
}

proof fn stretch_end_facts(units: Seq<UnitMeta>, level: u8, bound: int, from: int)
    requires
        0 <= from <= units.len(),
    ensures
        from <= stretch_end(units, level, bound, from) <= units.len(),
        forall|i: int|
            from <= i < stretch_end(units, level, bound, from) ==> (#[trigger] units[i]).level
                == level && units[i].min_ts < bound,
        ({
            let end = stretch_end(units, level, bound, from);
            end < units.len() ==> units[end].level != level || units[end].min_ts >= bound
        }),
    decreases units.len() - from,
{
    if from < units.len() && units[from].level == level && units[from].min_ts < bound {
        stretch_end_facts(units, level, bound, from + 1);
    }
}

/// What a round of maintenance has come to.
#[derive(Clone, Copy, Debug, PartialEq, Eq, Structural)]
pub enum MaintenanceStage {
    Sync,
    Seal,
    CompactL1,
    CompactL2,
    Done,
}

/// A round of maintenance: what was due when it began, how far it is, and what it did.
#[derive(Clone, Copy, Debug, PartialEq, Eq, Structural)]
pub struct MaintenanceRun {
    pub sync_due: bool,
    pub seal_due: bool,
    pub stage: MaintenanceStage,
    pub report: MaintenanceReport,
}

/// What is to be done next in a round of maintenance.
#[derive(Clone, Copy, Debug, PartialEq, Eq, Structural)]
pub enum MaintenanceStep {
    Sync,
    Seal,
    Compact { level: CompactLevel, order: CompactOrder },
    Finished { report: MaintenanceReport },
}

/// What became of a step.
#[derive(Clone, Copy, Debug, PartialEq, Eq, Structural)]
pub enum MaintenanceEvent {
    Synced { position: DurablePosition },
    Sealed { report: SealReport },
    Compacted { report: CompactReport },
}

impl MaintenanceRun {
    /// The round after a step was done: each step is done at most once.
    pub open spec fn spec_record(self, event: MaintenanceEvent) -> MaintenanceRun {
        match event {
            MaintenanceEvent::Synced { position } => MaintenanceRun {
                stage: MaintenanceStage::Seal,
                report: MaintenanceReport { synced: Some(position), ..self.report },
                ..self
            },
            MaintenanceEvent::Sealed { report } => MaintenanceRun {
                stage: MaintenanceStage::CompactL1,
                report: MaintenanceReport { sealed: Some(report), ..self.report },
                ..self
            },
            MaintenanceEvent::Compacted { report } => if self.stage == MaintenanceStage::CompactL2 {
                MaintenanceRun {
                    stage: MaintenanceStage::Done,
                    report: MaintenanceReport { compacted_l2: Some(report), ..self.report },
                    ..self
                }
            } else {
                MaintenanceRun {
                    stage: MaintenanceStage::CompactL2,
                    report: MaintenanceReport { compacted_l1: Some(report), ..self.report },
                    ..self
                }
            },
        }
    }

    pub fn record(self, event: MaintenanceEvent) -> (run: Self)
        ensures
            run == self.spec_record(event),
    {
        match event {
            MaintenanceEvent::Synced { position } => MaintenanceRun {
                stage: MaintenanceStage::Seal,
                report: MaintenanceReport { synced: Some(position), ..self.report },
                ..self
            },
            MaintenanceEvent::Sealed { report } => MaintenanceRun {
                stage: MaintenanceStage::CompactL1,
                report: MaintenanceReport { sealed: Some(report), ..self.report },
                ..self
            },
            MaintenanceEvent::Compacted { report } => if self.stage
                == MaintenanceStage::CompactL2 {
                MaintenanceRun {
                    stage: MaintenanceStage::Done,
                    report: MaintenanceReport { compacted_l2: Some(report), ..self.report },
                    ..self
                }
            } else {
                MaintenanceRun {
                    stage: MaintenanceStage::CompactL2,
                    report: MaintenanceReport { compacted_l1: Some(report), ..self.report },
                    ..self
                }
            },
        }
    }
}

/// Whether a window of some level is closed. The second level is only asked after where the first
/// has none.
pub open spec fn window_due<S: UnitSource>(db: &Db<S>) -> Result<bool> {
    let units = db.manifest@.units;
    let reached = high_water(units, db.tail@);
    match closed_window(units, 0, db.options.compaction.l1_window, reached) {
        Err(e) => Err(e),
        Ok(Some(_)) => Ok(true),
        Ok(None) => match closed_window(units, 1, db.options.compaction.l2_window, reached) {
            Err(e) => Err(e),
            Ok(window) => Ok(window is Some),
        },
    }
}

/// The merge that is due for a level, if its first window is closed.
pub open spec fn window_order<S: UnitSource>(db: &Db<S>, level: CompactLevel, width: Duration)
    -> Result<Option<(int, int, u64)>> {
    let units = db.manifest@.units;
    if db.writer.poisoned {
        Err(Error::Poisoned)
    } else {
        match closed_window(units, level.spec_source(), width, high_water(units, db.tail@)) {
            Err(e) => Err(e),
            Ok(None) => Ok(None),
            Ok(Some((start, end))) => match maintenance::compact_order(db.manifest@, start, end) {
                Err(e) => Err(e),
                Ok(order) => Ok(Some(order)),
            },
        }
    }
}

/// The last step of a round.
pub open spec fn last_step<S: UnitSource>(db: &Db<S>, run: MaintenanceRun) -> Result<
    (MaintenanceRun, StepView),
> {
    match window_due(db) {
        Err(e) => Err(e),
        Ok(more_due) => {
            let report = MaintenanceReport { more_due, ..run.report };
            Ok(
                (
                    MaintenanceRun { stage: MaintenanceStage::Done, report, ..run },
                    StepView::Finished { report },
                ),
            )
        },
    }
}

/// A step as it is decided.
pub enum StepView {
    Sync,
    Seal,
    Compact { level: CompactLevel, order: (int, int, u64) },
    Finished { report: MaintenanceReport },
}

pub open spec fn second_compaction<S: UnitSource>(db: &Db<S>, run: MaintenanceRun) -> Result<
    (MaintenanceRun, StepView),
> {
    match window_order(db, CompactLevel::Level1To2, db.options.compaction.l2_window) {
        Err(e) => Err(e),
        Ok(Some(order)) => Ok(
            (
                MaintenanceRun { stage: MaintenanceStage::CompactL2, ..run },
                StepView::Compact { level: CompactLevel::Level1To2, order },
            ),
        ),
        Ok(None) => last_step(db, run),
    }
}

pub open spec fn first_compaction<S: UnitSource>(db: &Db<S>, run: MaintenanceRun) -> Result<
    (MaintenanceRun, StepView),
> {
    match window_order(db, CompactLevel::Level0To1, db.options.compaction.l1_window) {
        Err(e) => Err(e),
        Ok(Some(order)) => Ok(
            (
                MaintenanceRun { stage: MaintenanceStage::CompactL1, ..run },
                StepView::Compact { level: CompactLevel::Level0To1, order },
            ),
        ),
        Ok(None) => second_compaction(db, run),
    }
}

/// The next step of a round: what is not due is passed over.
pub open spec fn maintain_step<S: UnitSource>(db: &Db<S>, run: MaintenanceRun) -> Result<
    (MaintenanceRun, StepView),
> {
    match run.stage {
        MaintenanceStage::Sync => if run.sync_due {
            Ok((run, StepView::Sync))
        } else if run.seal_due {
            Ok((MaintenanceRun { stage: MaintenanceStage::Seal, ..run }, StepView::Seal))
        } else {
            first_compaction(db, run)
        },
        MaintenanceStage::Seal => if run.seal_due {
            Ok((run, StepView::Seal))
        } else {
            first_compaction(db, run)
        },
        MaintenanceStage::CompactL1 => first_compaction(db, run),
        MaintenanceStage::CompactL2 => second_compaction(db, run),
        MaintenanceStage::Done => last_step(db, run),
    }
}

/// Whether a step is the expected one, or the refusal is.
pub open spec fn steps(
    found: Result<(MaintenanceRun, MaintenanceStep)>,
    expected: Result<(MaintenanceRun, StepView)>,
) -> bool {
    match (found, expected) {
        (Ok((run, step)), Ok((wanted, view))) => run == wanted && match (step, view) {
            (MaintenanceStep::Sync, StepView::Sync) => true,
            (MaintenanceStep::Seal, StepView::Seal) => true,
            (
                MaintenanceStep::Compact { level, order },
                StepView::Compact { level: other, order: (start, end, unit_id) },
            ) => level == other && order.start == start && order.end == end && order.unit_id
                == unit_id,
            (
                MaintenanceStep::Finished { report },
                StepView::Finished { report: expected_report },
            ) => report == expected_report,
            _ => false,
        },
        (Err(e), Err(f)) => e == f,
        _ => false,
    }
}

impl MaintenanceRun {
    /// A round that is about to begin.
    pub fn new(sync_due: bool, seal_due: bool) -> (run: Self)
        ensures
            run.sync_due == sync_due,
            run.seal_due == seal_due,
            run.stage == MaintenanceStage::Sync,
            run.report == (MaintenanceReport {
                synced: None,
                sealed: None,
                compacted_l1: None,
                compacted_l2: None,
                more_due: false,
            }),
    {
        MaintenanceRun {
            sync_due,
            seal_due,
            stage: MaintenanceStage::Sync,
            report: MaintenanceReport::default(),
        }
    }
}

impl<S: UnitSource> Db<S> {
    /// The next step of a round of maintenance, and the round placed at it.
    pub fn maintain(&self, run: MaintenanceRun) -> (r: Result<(MaintenanceRun, MaintenanceStep)>)
        requires
            self.wf(),
        ensures
            steps(r, maintain_step(self, run)),
    {
        let mut run = run;
        if run.stage == MaintenanceStage::Sync {
            if run.sync_due {
                return Ok((run, MaintenanceStep::Sync));
            }
            run.stage = MaintenanceStage::Seal;
        }
        if run.stage == MaintenanceStage::Seal {
            if run.seal_due {
                return Ok((run, MaintenanceStep::Seal));
            }
            run.stage = MaintenanceStage::CompactL1;
        }
        if run.stage == MaintenanceStage::CompactL1 {
            match self.compact_closed_window(
                CompactLevel::Level0To1,
                self.options.compaction.l1_window,
            ) {
                Ok(Some(order)) => {
                    return Ok(
                        (run, MaintenanceStep::Compact { level: CompactLevel::Level0To1, order }),
                    );
                },
                Ok(None) => {},
                Err(e) => return Err(e),
            }
            run.stage = MaintenanceStage::CompactL2;
        }
        if run.stage == MaintenanceStage::CompactL2 {
            match self.compact_closed_window(
                CompactLevel::Level1To2,
                self.options.compaction.l2_window,
            ) {
                Ok(Some(order)) => {
                    return Ok(
                        (run, MaintenanceStep::Compact { level: CompactLevel::Level1To2, order }),
                    );
                },
                Ok(None) => {},
                Err(e) => return Err(e),
            }
            run.stage = MaintenanceStage::Done;
        }
        match self.closed_window_due() {
            Ok(more_due) => {
                run.report.more_due = more_due;
                Ok((run, MaintenanceStep::Finished { report: run.report }))
            },
            Err(e) => Err(e),
        }
    }

    fn compact_closed_window(&self, level: CompactLevel, width: Duration) -> (r: Result<
        Option<CompactOrder>,
    >)
        requires
            self.wf(),
        ensures
            match (r, window_order(self, level, width)) {
                (Ok(None), Ok(None)) => true,
                (Ok(Some(order)), Ok(Some((start, end, unit_id)))) => order.start == start
                    && order.end == end && order.unit_id == unit_id,
                (Err(e), Err(f)) => e == f,
                _ => false,
            },
    {
        if let Err(e) = self.writer.ensure_healthy() {
            return Err(e);
        }
        let reached: Option<i64> = high_water_ts(self.manifest.units.as_slice(), &self.tail);
        match select_closed_window(
            self.manifest.units.as_slice(),
            level.source(),
            width,
            reached,
        ) {
            Err(e) => Err(e),
            Ok(None) => Ok(None),
            Ok(Some((start, end))) => match self.compact_locked(start, end) {
                Ok(order) => Ok(Some(order)),
                Err(e) => Err(e),
            },
        }
    }

    fn closed_window_due(&self) -> (r: Result<bool>)
        requires
            self.wf(),
        ensures
            r == window_due(self),
    {
        let reached: Option<i64> = high_water_ts(self.manifest.units.as_slice(), &self.tail);
        match select_closed_window(
            self.manifest.units.as_slice(),
            CompactLevel::Level0To1.source(),
            self.options.compaction.l1_window,
            reached,
        ) {
            Err(e) => return Err(e),
            Ok(Some(_)) => return Ok(true),
            Ok(None) => {},
        }
        match select_closed_window(
            self.manifest.units.as_slice(),
            CompactLevel::Level1To2.source(),
            self.options.compaction.l2_window,
            reached,
        ) {
            Err(e) => Err(e),
            Ok(window) => Ok(window.is_some()),
        }
    }
}

/// How far a round of maintenance is.
pub open spec fn progress(stage: MaintenanceStage) -> int {
    match stage {
        MaintenanceStage::Sync => 0,
        MaintenanceStage::Seal => 1,
        MaintenanceStage::CompactL1 => 2,
        MaintenanceStage::CompactL2 => 3,
        MaintenanceStage::Done => 4,
    }
}

/// Whether an event is the outcome of a step.
pub open spec fn answers(event: MaintenanceEvent, step: StepView) -> bool {
    match step {
        StepView::Sync => event is Synced,
        StepView::Seal => event is Sealed,
        StepView::Compact { level, order } => event is Compacted,
        StepView::Finished { report } => false,
    }
}

/// A round of maintenance is bounded: every step that is done brings it further, so it does at most
/// one sync, one seal and one merge of each level, whatever remains due.
pub proof fn maintenance_is_bounded<S: UnitSource>(
    db: &Db<S>,
    run: MaintenanceRun,
    event: MaintenanceEvent,
)
    requires
        maintain_step(db, run) is Ok,
        answers(event, maintain_step(db, run)->Ok_0.1),
    ensures
        ({
            let after = maintain_step(db, run)->Ok_0.0.spec_record(event);
            progress(run.stage) < progress(after.stage) <= 4
        }),
        maintain_step(db, run)->Ok_0.1 matches StepView::Compact { level, order } ==> (level
            == CompactLevel::Level0To1 ==> progress(run.stage) <= 2),
{
}

/// Every step that was done is reported once, where it belongs, and the round goes on behind it:
/// after a sync with sealing, after a seal with the first level, after the first level with the
/// second, and after the second with nothing.
pub proof fn done_steps_are_reported(
    run: MaintenanceRun,
    event: MaintenanceEvent,
    after: MaintenanceRun,
)
    requires
        after == run.spec_record(event),
    ensures
        after.sync_due == run.sync_due,
        after.seal_due == run.seal_due,
        after.report.more_due == run.report.more_due,
        event matches MaintenanceEvent::Synced { position } ==> {
            &&& after.stage == MaintenanceStage::Seal
            &&& after.report.synced == Some(position)
            &&& after.report.sealed == run.report.sealed
            &&& after.report.compacted_l1 == run.report.compacted_l1
            &&& after.report.compacted_l2 == run.report.compacted_l2
        },
        event matches MaintenanceEvent::Sealed { report } ==> {
            &&& after.stage == MaintenanceStage::CompactL1
            &&& after.report.sealed == Some(report)
            &&& after.report.synced == run.report.synced
            &&& after.report.compacted_l1 == run.report.compacted_l1
            &&& after.report.compacted_l2 == run.report.compacted_l2
        },
        event matches MaintenanceEvent::Compacted { report } ==> (run.stage
            == MaintenanceStage::CompactL2 ==> {
            &&& after.stage == MaintenanceStage::Done
            &&& after.report.compacted_l2 == Some(report)
            &&& after.report.compacted_l1 == run.report.compacted_l1
            &&& after.report.synced == run.report.synced
            &&& after.report.sealed == run.report.sealed
        }),
        event matches MaintenanceEvent::Compacted { report } ==> (run.stage
            != MaintenanceStage::CompactL2 ==> {
            &&& after.stage == MaintenanceStage::CompactL2
            &&& after.report.compacted_l1 == Some(report)
            &&& after.report.compacted_l2 == run.report.compacted_l2
            &&& after.report.synced == run.report.synced
            &&& after.report.sealed == run.report.sealed
        }),
{
}

} // verus!

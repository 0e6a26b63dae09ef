//! Sampling streams on a grid of times.
use vstd::prelude::*;

use super::batch::{self, FactVisitor};
use super::facts::Fact;
use super::group;
use super::primitives::{self, Slot};
use crate::error::{self, Error, Result};
use crate::limits::{self, Limit};
use crate::manifest::catalog::UnitMeta;
use crate::retention::head::{self, HeadsView, RetentionHeads};
use crate::tail::{TailIndex, TailView};
use crate::types::StreamKey;
use crate::unit::UnitSource;

verus! {

pub open spec fn slots_limit() -> Error {
    error::limit("query_slots", u64::MAX, Limit::QuerySlots.spec_maximum())
}

/// How many times a grid has: the least number that covers the range.
pub open spec fn grid_slots(start: i64, end: i64, step: u32) -> Result<int> {
    let count = (end - start + step - 1) / step as int;
    if start > end || step == 0 {
        Err(error::invalid("sample", "range must be ordered and step must be positive"))
    } else if start == end {
        Ok(0)
    } else if count > usize::MAX {
        Err(slots_limit())
    } else {
        Ok(count)
    }
}

/// A time of a grid.
pub open spec fn grid_time(start: i64, step: u32, index: int) -> Result<i64> {
    let time = start + index * step;
    if i64::MIN <= time <= i64::MAX {
        Ok(time as i64)
    } else {
        Err(slots_limit())
    }
}

/// Every time of a grid lies inside its range, and the next one would not.
pub proof fn grid_covers_its_range(start: i64, end: i64, step: u32, index: int)
    requires
        grid_slots(start, end, step) is Ok,
        0 <= index,
    ensures
        index < grid_slots(start, end, step)->Ok_0 <==> start + index * step < end,
        index < grid_slots(start, end, step)->Ok_0 ==> grid_time(start, step, index) == Ok::<
            i64,
            Error,
        >((start + index * step) as i64),
{
    let span = end - start;
    let count = grid_slots(start, end, step)->Ok_0;
    let wide = step as int;
    if span == 0 {
        assert(index * wide >= 0) by (nonlinear_arith)
            requires
                index >= 0,
                wide > 0,
        ;
    } else {
        vstd::arithmetic::div_mod::lemma_fundamental_div_mod(span + wide - 1, wide);
        let rest = (span + wide - 1) % wide;
        assert(0 <= rest < wide);
        assert(wide * count == span + wide - 1 - rest);
        if index < count {
            assert(index * wide <= wide * count - wide) by (nonlinear_arith)
                requires
                    index <= count - 1,
                    wide > 0,
            ;
        } else {
            assert(index * wide >= wide * count) by (nonlinear_arith)
                requires
                    index >= count,
                    wide > 0,
            ;
        }
        assert(index * wide >= 0) by (nonlinear_arith)
            requires
                index >= 0,
                wide > 0,
        ;
    }
}

fn measure_grid(start: i64, end: i64, step: u32) -> (r: Result<usize>)
    ensures
        match grid_slots(start, end, step) {
            Ok(count) => r matches Ok(found) && found == count,
            Err(e) => r matches Err(f) && f == e,
        },
{
    if start > end || step == 0 {
        return Err(Error::invalid("sample", "range must be ordered and step must be positive"));
    }
    if start == end {
        return Ok(0);
    }
    let span: u128 = (end as i128 - start as i128) as u128;
    let count: u128 = (span + step as u128 - 1) / step as u128;
    if count > usize::MAX as u128 {
        return Err(Error::limit("query_slots", u64::MAX, Limit::QuerySlots.maximum()));
    }
    Ok(count as usize)
}

fn grid_timestamp(start: i64, step: u32, index: usize) -> (r: Result<i64>)
    ensures
        r == grid_time(start, step, index as int),
{
    assert(0 <= index * step <= 0xffff_ffff_ffff_ffff * 0xffff_ffff) by (nonlinear_arith)
        requires
            0 <= index <= 0xffff_ffff_ffff_ffff,
            0 <= step <= 0xffff_ffff,
    ;
    let offset: i128 = index as i128 * step as i128;
    let time: i128 = start as i128 + offset;
    if time > i64::MAX as i128 {
        return Err(Error::limit("query_slots", u64::MAX, Limit::QuerySlots.maximum()));
    }
    Ok(time as i64)
}

/// The slots of one stream as far as they are decided, and the value that stands.
pub struct SampleState {
    pub current: Option<Fact>,
    pub slots: Vec<Slot>,
}

pub struct StateView {
    pub current: Option<Fact>,
    pub slots: Seq<Slot>,
}

impl View for SampleState {
    type V = StateView;

    open spec fn view(&self) -> StateView {
        StateView { current: self.current, slots: self.slots@ }
    }
}

/// The slots of a stream once it is known that its value stands until the time of the next one.
pub open spec fn filled(
    schemas: TailView,
    key: StreamKey,
    start: i64,
    step: u32,
    slot_count: int,
    state: StateView,
    until: Option<i64>,
) -> Result<StateView>
    decreases slot_count - state.slots.len(),
{
    if state.slots.len() >= slot_count {
        Ok(state)
    } else {
        match grid_time(start, step, state.slots.len() as int) {
            Err(e) => Err(e),
            Ok(time) => if until matches Some(next) && time >= next {
                Ok(state)
            } else {
                match primitives::slot_of(schemas, key, state.current, time) {
                    Err(e) => Err(e),
                    Ok(slot) => filled(
                        schemas,
                        key,
                        start,
                        step,
                        slot_count,
                        StateView { slots: state.slots.push(slot), ..state },
                        until,
                    ),
                }
            },
        }
    }
}

fn fill_slots_before(
    state: &mut SampleState,
    schemas: &TailIndex,
    key: StreamKey,
    start: i64,
    step: u32,
    slot_count: usize,
    until: Option<i64>,
) -> (r: Result<()>)
    requires
        schemas.wf(),
    ensures
        match filled(schemas@, key, start, step, slot_count as int, old(state)@, until) {
            Ok(after) => r is Ok && final(state)@ == after,
            Err(e) => r matches Err(f) && f == e,
        },
{
    let ghost whole = filled(schemas@, key, start, step, slot_count as int, state@, until);
    while state.slots.len() < slot_count
        invariant
            schemas.wf(),
            whole == filled(schemas@, key, start, step, slot_count as int, old(state)@, until),
            whole == filled(schemas@, key, start, step, slot_count as int, state@, until),
        decreases slot_count - state.slots@.len(),
    {
        let time: i64 = match grid_timestamp(start, step, state.slots.len()) {
            Ok(time) => time,
            Err(e) => return Err(e),
        };
        if let Some(next) = until {
            if time >= next {
                return Ok(());
            }
        }
        match primitives::slot(schemas, key, state.current, time) {
            Ok(slot) => state.slots.push(slot),
            Err(e) => return Err(e),
        }
    }
    Ok(())
}

/// A sampling of several streams of one table under way.
pub struct SampleRun<'a> {
    pub states: Vec<SampleState>,
    pub schemas: &'a TailIndex,
    pub keys: &'a [StreamKey],
    pub start: i64,
    pub step: u32,
    pub slot_count: usize,
}

pub struct RunView {
    pub states: Seq<StateView>,
    pub schemas: TailView,
    pub keys: Seq<StreamKey>,
    pub start: i64,
    pub step: u32,
    pub slot_count: int,
}

pub open spec fn state_views(states: Seq<SampleState>) -> Seq<StateView> {
    states.map_values(|state: SampleState| state@)
}

impl<'a> View for SampleRun<'a> {
    type V = RunView;

    open spec fn view(&self) -> RunView {
        RunView {
            states: state_views(self.states@),
            schemas: self.schemas@,
            keys: self.keys@,
            start: self.start,
            step: self.step,
            slot_count: self.slot_count as int,
        }
    }
}

impl RunView {
    /// The sampling with one stream's slots decided up to a time.
    pub open spec fn filled_at(self, index: int, until: Option<i64>) -> Result<RunView> {
        match filled(
            self.schemas,
            self.keys[index],
            self.start,
            self.step,
            self.slot_count,
            self.states[index],
            until,
        ) {
            Err(e) => Err(e),
            Ok(state) => Ok(RunView { states: self.states.update(index, state), ..self }),
        }
    }

    /// The sampling with the slots of the first `count` streams decided to the end.
    pub open spec fn finished(self, count: int) -> Result<RunView>
        decreases count,
    {
        if count <= 0 {
            Ok(self)
        } else {
            match self.finished(count - 1) {
                Err(e) => Err(e),
                Ok(before) => before.filled_at(count - 1, None),
            }
        }
    }
}

proof fn finish_refusal_is_final(run: RunView, count: int, total: int)
    requires
        0 <= count <= total,
        run.finished(count) is Err,
    ensures
        run.finished(total) == run.finished(count),
    decreases total - count,
{
    if count < total {
        finish_refusal_is_final(run, count, total - 1);
    }
}

impl<'a> SampleRun<'a> {
    fn fill(&mut self, index: usize, until: Option<i64>) -> (r: Result<()>)
        requires
            old(self).wf(),
            index < old(self).width(),
        ensures
            final(self).width() == old(self).width(),
            match old(self)@.filled_at(index as int, until) {
                Ok(after) => r is Ok && final(self).wf() && final(self)@ == after,
                Err(e) => r matches Err(f) && f == e,
            },
    {
        let key = self.keys[index];
        let ghost before = self.states@;
        assert(self@.states[index as int] == before[index as int]@);
        let schemas = self.schemas;
        let r = fill_slots_before(
            &mut self.states[index],
            schemas,
            key,
            self.start,
            self.step,
            self.slot_count,
            until,
        );
        match r {
            Ok(_) => {
                assert(state_views(self.states@) =~= state_views(before).update(
                    index as int,
                    self.states@[index as int]@,
                ));
                Ok(())
            },
            Err(e) => Err(e),
        }
    }
}

impl<'a> FactVisitor for SampleRun<'a> {
    open spec fn width(&self) -> nat {
        self.keys@.len()
    }

    open spec fn wf(&self) -> bool {
        self.schemas.wf() && self.states@.len() == self.keys@.len()
    }

    open spec fn visited(state: RunView, index: int, fact: Fact) -> Result<RunView> {
        match state.filled_at(index, Some(fact.timestamp)) {
            Err(e) => Err(e),
            Ok(after) => Ok(
                RunView {
                    states: after.states.update(
                        index,
                        StateView { current: Some(fact), ..after.states[index] },
                    ),
                    ..after
                },
            ),
        }
    }

    fn visit(&mut self, index: usize, fact: Fact) -> (r: Result<()>) {
        if let Err(e) = self.fill(index, Some(fact.timestamp)) {
            return Err(e);
        }
        let ghost before = self.states@;
        self.states[index].current = Some(fact);
        proof {
            assert(state_views(self.states@) =~= state_views(before).update(
                index as int,
                StateView { current: Some(fact), ..before[index as int]@ },
            ));
            assert(state_views(before)[index as int] == before[index as int]@);
        }
        Ok(())
    }
}

/// A sampling that has only the values that stand at its start.
pub open spec fn sample_start(
    schemas: TailView,
    heads: Option<HeadsView>,
    keys: Seq<StreamKey>,
    found: Seq<Option<Fact>>,
    start: i64,
    step: u32,
    slot_count: int,
) -> RunView {
    RunView {
        states: Seq::new(
            keys.len(),
            |i: int|
                StateView {
                    current: primitives::headed(found[i], heads, keys[i], start),
                    slots: Seq::empty(),
                },
        ),
        schemas,
        keys,
        start,
        step,
        slot_count,
    }
}

/// The slots of several streams of one table.
pub open spec fn group_samples<S: UnitSource>(
    source: &S,
    units: Seq<UnitMeta>,
    schemas: TailView,
    heads: Option<HeadsView>,
    keys: Seq<StreamKey>,
    start: i64,
    end: i64,
    step: u32,
    slot_count: int,
) -> Result<Seq<Seq<Slot>>> {
    match batch::predecessors_of(source, units, schemas, keys, start) {
        Err(e) => Err(e),
        Ok(found) => match batch::walked::<SampleRun>(
            sample_start(schemas, heads, keys, found, start, step, slot_count),
            batch::table_visits(source, units, schemas, keys, start, end),
        ) {
            Err(e) => Err(e),
            Ok(run) => match run.finished(keys.len() as int) {
                Err(e) => Err(e),
                Ok(run) => Ok(run.states.map_values(|state: StateView| state.slots)),
            },
        },
    }
}

/// The slots of each key on the grid.
pub open spec fn samples<S: UnitSource>(
    source: &S,
    units: Seq<UnitMeta>,
    schemas: TailView,
    heads: Option<HeadsView>,
    keys: Seq<StreamKey>,
    start: i64,
    end: i64,
    step: u32,
) -> Result<Seq<Seq<Slot>>> {
    match batch::keys_refusal(schemas, keys, keys.len() as int) {
        Some(e) => Err(e),
        None => match grid_slots(start, end, step) {
            Err(e) => Err(e),
            Ok(slot_count) => {
                let total = slot_count * keys.len();
                if total > usize::MAX {
                    Err(slots_limit())
                } else {
                    match limits::at_most(Limit::QuerySlots, total as u64) {
                        Err(e) => Err(e),
                        Ok(_) => match limits::memory_refusal(
                            total,
                            vstd::layout::size_of::<Slot>() as int,
                        ) {
                            Some(e) => Err(e),
                            None => group::answered(
                                keys,
                                |members: Seq<StreamKey>|
                                    group_samples(
                                        source,
                                        units,
                                        schemas,
                                        heads,
                                        members,
                                        start,
                                        end,
                                        step,
                                        slot_count,
                                    ),
                            ),
                        },
                    }
                }
            },
        },
    }
}

/// Whether the lists are the expected ones, or the refusal is.
pub open spec fn slot_lists(found: Result<Vec<Vec<Slot>>>, expected: Result<Seq<Seq<Slot>>>)
    -> bool {
    match (found, expected) {
        (Ok(lists), Ok(views)) => lists@.map_values(|list: Vec<Slot>| list@) == views,
        (Err(e), Err(f)) => e == f,
        _ => false,
    }
}

fn sample_group<S: UnitSource>(
    units: &[UnitMeta],
    source: &S,
    schemas: &TailIndex,
    heads: Option<&RetentionHeads>,
    keys: &[StreamKey],
    start: i64,
    end: i64,
    step: u32,
    slot_count: usize,
) -> (r: Result<Vec<Vec<Slot>>>)
    requires
        schemas.wf(),
        heads matches Some(list) ==> list.valid(),
    ensures
        slot_lists(
            r,
            group_samples(
                source,
                units@,
                schemas@,
                head::view_of(heads),
                keys@,
                start,
                end,
                step,
                slot_count as int,
            ),
        ),
        r matches Ok(lists) ==> lists@.len() == keys@.len(),
{
    let found = match batch::predecessors(units, source, schemas, keys, start) {
        Ok(found) => found,
        Err(e) => return Err(e),
    };
    let ghost begin = sample_start(
        schemas@,
        head::view_of(heads),
        keys@,
        found@,
        start,
        step,
        slot_count as int,
    );
    let mut states: Vec<SampleState> = Vec::new();
    let mut index: usize = 0;
    while index < keys.len()
        invariant
            heads matches Some(list) ==> list.valid(),
            found@.len() == keys@.len(),
            begin == sample_start(
                schemas@,
                head::view_of(heads),
                keys@,
                found@,
                start,
                step,
                slot_count as int,
            ),
            index <= keys@.len(),
            states@.len() == index,
            forall|i: int| 0 <= i < index ==> (#[trigger] states@[i])@ == begin.states[i],
        decreases keys@.len() - index,
    {
        let state = SampleState {
            current: primitives::with_head(found[index], heads, keys[index], start),
            slots: Vec::new(),
        };
        assert(state@.slots =~= Seq::empty());
        states.push(state);
        index += 1;
    }
    let mut run = SampleRun { states, schemas, keys, start, step, slot_count };
    assert(run@.states =~= begin.states);
    if let Err(e) = batch::visit_facts(units, source, schemas, keys, start, end, &mut run) {
        return Err(e);
    }
    let ghost visited = run@;
    let mut index: usize = 0;
    while index < keys.len()
        invariant
            run.wf(),
            run.width() == keys@.len(),
            index <= keys@.len(),
            visited.finished(index as int) == Ok::<RunView, Error>(run@),
            group_samples(
                source,
                units@,
                schemas@,
                head::view_of(heads),
                keys@,
                start,
                end,
                step,
                slot_count as int,
            ) == (match visited.finished(keys@.len() as int) {
                Err(e) => Err::<Seq<Seq<Slot>>, Error>(e),
                Ok(last) => Ok(last.states.map_values(|state: StateView| state.slots)),
            }),
        decreases keys@.len() - index,
    {
        proof {
            if visited.finished(index + 1) is Err {
                finish_refusal_is_final(visited, index + 1, keys@.len() as int);
            }
        }
        if let Err(e) = run.fill(index, None) {
            return Err(e);
        }
        index += 1;
    }
    let ghost last = run@;
    let SampleRun { states, .. } = run;
    let ghost done = states@;
    let mut left = states;
    let mut reversed: Vec<Vec<Slot>> = Vec::new();
    while left.len() > 0
        invariant
            left@.len() <= done.len(),
            left@ == done.take(left@.len() as int),
            reversed@.len() == done.len() - left@.len(),
            forall|i: int|
                0 <= i < reversed@.len() ==> (#[trigger] reversed@[i])@ == done[done.len() - 1
                    - i]@.slots,
        decreases left@.len(),
    {
        let ghost at = left@.len() - 1;
        if let Some(state) = left.pop() {
            assert(done[at] == state);
            reversed.push(state.slots);
        }
        assert(left@ =~= done.take(left@.len() as int));
    }
    let ghost turned = reversed@;
    let mut lists: Vec<Vec<Slot>> = Vec::new();
    while reversed.len() > 0
        invariant
            turned.len() == done.len(),
            forall|i: int|
                0 <= i < turned.len() ==> (#[trigger] turned[i])@ == done[done.len() - 1
                    - i]@.slots,
            reversed@.len() <= turned.len(),
            reversed@ == turned.take(reversed@.len() as int),
            lists@.len() == done.len() - reversed@.len(),
            forall|i: int| 0 <= i < lists@.len() ==> (#[trigger] lists@[i])@ == done[i]@.slots,
        decreases reversed@.len(),
    {
        let ghost at = reversed@.len() - 1;
        if let Some(slots) = reversed.pop() {
            assert(turned[at] == slots);
            lists.push(slots);
        }
        assert(reversed@ =~= turned.take(reversed@.len() as int));
    }
    proof {
        assert forall|i: int| 0 <= i < done.len() implies (#[trigger] lists@[i])@
            == last.states[i].slots by {}
        assert(lists@.map_values(|list: Vec<Slot>| list@) =~= last.states.map_values(
            |state: StateView| state.slots,
        ));
    }
    Ok(lists)
}

/// The slots of each stream on a grid of times.
pub fn sample<S: UnitSource>(
    units: &[UnitMeta],
    source: &S,
    schemas: &TailIndex,
    keys: &[StreamKey],
    start: i64,
    end: i64,
    step: u32,
) -> (r: Result<Vec<Vec<Slot>>>)
    requires
        schemas.wf(),
    ensures
        slot_lists(r, samples(source, units@, schemas@, None, keys@, start, end, step)),
{
    sample_with_heads(units, source, schemas, None, keys, start, end, step)
}

/// The slots of each stream on a grid of times, with what retention kept.
pub fn sample_with_heads<S: UnitSource>(
    units: &[UnitMeta],
    source: &S,
    schemas: &TailIndex,
    heads: Option<&RetentionHeads>,
    keys: &[StreamKey],
    start: i64,
    end: i64,
    step: u32,
) -> (r: Result<Vec<Vec<Slot>>>)
    requires
        schemas.wf(),
        heads matches Some(list) ==> list.valid(),
    ensures
        slot_lists(
            r,
            samples(
                source,
                units@,
                schemas@,
                head::view_of(heads),
                keys@,
                start,
                end,
                step,
            ),
        ),
{
    if let Err(e) = batch::validate_keys(schemas, keys) {
        return Err(e);
    }
    let slot_count: usize = match measure_grid(start, end, step) {
        Ok(count) => count,
        Err(e) => return Err(e),
    };
    let count: usize = keys.len();
    let total: usize = match slot_count.checked_mul(count) {
        Some(total) => total,
        None => return Err(Error::limit("query_slots", u64::MAX, Limit::QuerySlots.maximum())),
    };
    if let Err(e) = limits::ensure_at_most(Limit::QuerySlots, total as u64) {
        return Err(e);
    }
    if let Err(e) = limits::ensure_memory(total, core::mem::size_of::<Slot>()) {
        return Err(e);
    }
    let ghost sorted = group::sorted_keys(keys@);
    let ghost parts = group::groups_of(sorted, 0);
    let ghost answer = |members: Seq<StreamKey>|
        group_samples(
            source,
            units@,
            schemas@,
            head::view_of(heads),
            members,
            start,
            end,
            step,
            slot_count as int,
        );
    let mut output: Vec<Option<Vec<Slot>>> = group::empty_output(count);
    let ghost mut done: Seq<Seq<Slot>> = Seq::empty();
    let groups = group::group_keys(keys);
    proof {
        group::nothing_filled(group::option_views(output@), keys@);
    }
    let mut index: usize = 0;
    while index < groups.len()
        invariant
            schemas.wf(),
            heads matches Some(list) ==> list.valid(),
            keys@.len() == count,
            sorted == group::sorted_keys(keys@),
            parts == group::groups_of(sorted, 0),
            answer == (|members: Seq<StreamKey>|
                group_samples(
                    source,
                    units@,
                    schemas@,
                    head::view_of(heads),
                    members,
                    start,
                    end,
                    step,
                    slot_count as int,
                )),
            samples(
                source,
                units@,
                schemas@,
                head::view_of(heads),
                keys@,
                start,
                end,
                step,
            ) == group::answered(keys@, answer),
            groups@.len() == parts.len(),
            forall|i: int|
                0 <= i < groups@.len() ==> group::group_holds(
                    #[trigger] groups@[i],
                    parts[i],
                    keys@,
                ),
            index <= groups@.len(),
            group::over_groups(parts, answer, index as int) == Ok::<Seq<Seq<Slot>>, Error>(done),
            group::filled_to(
                group::option_views(output@),
                keys@,
                sorted,
                done,
                group::group_start(parts, index as int),
            ),
            0 <= group::group_start(parts, index as int),
        decreases groups@.len() - index,
    {
        let part = &groups[index];
        let ghost members = parts[index as int];
        let ghost start_at = group::group_start(parts, index as int);
        proof {
            assert(group::group_holds(groups@[index as int], members, keys@));
            group::groups_are_pieces(sorted, 0, index as int);
            if group::over_groups(parts, answer, index + 1) is Err {
                group::groups_refusal_is_final(parts, answer, index + 1);
            }
        }
        let lists = match sample_group(
            units,
            source,
            schemas,
            heads,
            part.keys(),
            start,
            end,
            step,
            slot_count,
        ) {
            Ok(lists) => lists,
            Err(e) => return Err(e),
        };
        let ghost views = lists@.map_values(|list: Vec<Slot>| list@);
        proof {
            assert(answer(members) == Ok::<Seq<Seq<Slot>>, Error>(views));
            group::scatter_extends(
                group::option_views(output@),
                part.destinations@,
                views,
                done,
                keys@,
                sorted,
                start_at,
                members,
            );
        }
        if let Err(e) = group::scatter(&mut output, part.destinations(), lists) {
            assert(false);
            return Err(e);
        }
        proof {
            done = done + views;
        }
        index += 1;
    }
    proof {
        group::groups_are_pieces(sorted, 0, parts.len() as int);
        group::everything_filled(group::option_views(output@), keys@, done);
        assert forall|p: int| 0 <= p < output@.len() implies (#[trigger] output@[p]) is Some by {
            assert(group::option_views(output@)[p] is Some);
        }
    }
    let ghost places = output@;
    match group::collect_output(output) {
        Ok(lists) => {
            proof {
                primitives::collected(places, lists@);
            }
            Ok(lists)
        },
        Err(e) => {
            assert(false);
            Err(e)
        },
    }
}

} // verus!

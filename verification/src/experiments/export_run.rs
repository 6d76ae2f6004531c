//! The export of an ant-colony run, step by step.
//!
//! A stream is a header, a line for each epoch, the field every so many epochs, and
//! a summary. An export says what to do next and is told what came of it: it
//! decides how long the colony runs, when the predator strikes, when the field is
//! written, and which events of the trace are the observer's own. Reading a run
//! adds to its trace, and those events are counted apart from the run's.

use crate::bytes;
use crate::experiments::ant_build;
use crate::experiments::ant_build::{build_in, AntColony};
use crate::experiments::ant_colony as colony_model;
use crate::experiments::ant_colony::{ColonyKnobs, FoodSource, Terrain, TERRAIN_HEADER};
use crate::experiments::ant_observe;
use crate::experiments::ant_observe::{sum_delivered, AntView, PredatorStrike};
use crate::experiments::ant_trace;
use crate::experiments::ant_trace::{
    alive_count, epoch_line, header_line, is_later, since, streamed, tally_events, ExportOptions,
    ExportSummary, Tally,
};
use crate::executives::placement;
use crate::kernel;
use crate::kernel::{Kernel, RuntimeError, TraceEvent};
use crate::scheduler::{Accounting, PartialCohortPolicy};
use vstd::prelude::*;

verus! {

/// What is done next.
#[derive(Clone, Copy, Debug, PartialEq, Eq)]
pub enum ExportAction {
    WriteHeader,
    /// Keep only the running epoch's records from now on, and drop those at hand.
    DropRecords,
    /// See how many continuations are pending.
    AskPending,
    Strike(PredatorStrike),
    /// Take the events that the strike left in the trace.
    DrainStrike,
    /// Run an epoch, and take the events that it left in the trace.
    RunEpoch,
    /// Write the line of an epoch.
    WriteEpoch(u32),
    /// Write the field behind an epoch, where it can be read.
    WriteField(u32),
    /// Take the events that looking at the epoch left in the trace.
    DrainObserved,
    /// Read what the run left behind.
    ReadEnd,
    WriteSummary(ExportSummary),
    Done,
}

/// What a run left behind.
#[derive(Debug)]
pub struct Closing {
    pub ants: Vec<AntView>,
    pub food_trail: u64,
    pub home_trail: u64,
    pub accounting: Accounting,
    /// Events of the trace that were taken, and that nobody took.
    pub taken: u64,
    pub dropped: u64,
}

/// What came of an action.
#[derive(Debug)]
pub enum ExportEvent {
    HeaderWritten,
    Dropped,
    Pending(u64),
    /// So many ants were struck.
    Struck(u64),
    /// So many events were taken.
    Drained(u64),
    Ran,
    /// The line was written, with the counters as they stood.
    EpochWritten(Accounting),
    /// Whether the field could be read, and its line was written.
    FieldWritten(bool),
    Read(Closing),
    SummaryWritten,
}

/// A line of the stream.
pub ghost enum Line {
    Header,
    Epoch(u32),
    Field(u32),
    Summary,
}

/// An export, as far as it has come.
#[derive(Clone, Copy)]
pub struct ExportRun {
    pub limit: u32,
    pub options: ExportOptions,
    pub action: ExportAction,
    pub epochs: u32,
    pub struck: u64,
    pub observed: u64,
    /// The counters behind the epoch that was written last.
    pub previous: Accounting,
    /// The lines written so far, and of each epoch whether its field was.
    pub lines: Ghost<Seq<Line>>,
    pub fields: Ghost<Seq<bool>>,
}

#[verifier::ext_equal]
pub ghost struct ExportView {
    pub limit: u32,
    pub options: ExportOptions,
    pub action: ExportAction,
    pub epochs: u32,
    pub struck: u64,
    pub observed: u64,
    pub previous: Accounting,
    pub lines: Seq<Line>,
    pub fields: Seq<bool>,
}

impl View for ExportRun {
    type V = ExportView;

    open spec fn view(&self) -> ExportView {
        ExportView {
            limit: self.limit,
            options: self.options,
            action: self.action,
            epochs: self.epochs,
            struck: self.struck,
            observed: self.observed,
            previous: self.previous,
            lines: self.lines@,
            fields: self.fields@,
        }
    }
}

pub open spec fn blank_accounting() -> Accounting {
    Accounting {
        cohorts: 0,
        lane_slots: 0,
        useful_lane_slots: 0,
        full_cohorts: 0,
        steps: 0,
        deferred_lanes: 0,
    }
}

pub open spec fn started(knobs: ColonyKnobs, options: ExportOptions) -> ExportView {
    ExportView {
        limit: knobs.epochs,
        options,
        action: ExportAction::WriteHeader,
        epochs: 0,
        struck: 0,
        observed: 0,
        previous: blank_accounting(),
        lines: Seq::empty(),
        fields: Seq::empty(),
    }
}

/// What follows where `epochs` have been written.
pub open spec fn at_epoch(v: ExportView) -> ExportAction {
    if v.epochs < v.limit {
        ExportAction::AskPending
    } else {
        ExportAction::ReadEnd
    }
}

pub open spec fn writes_field(options: ExportOptions, epoch: u32) -> bool {
    options.field_stride > 0 && epoch as int % (options.field_stride as int) == 0
}

/// What a run that has something pending does first.
pub open spec fn before_epoch(v: ExportView) -> ExportAction {
    match v.options.predator {
        Some((at, strike)) => if at == v.epochs {
            ExportAction::Strike(strike)
        } else {
            ExportAction::RunEpoch
        },
        None => ExportAction::RunEpoch,
    }
}

/// What a run amounted to: the events streamed are those taken but for the
/// observer's own.
pub open spec fn summary_of(v: ExportView, c: Closing) -> ExportSummary {
    ExportSummary {
        epochs: v.epochs,
        ants_alive: ant_trace::alive_among(c.ants@, c.ants@.len() as int) as u64,
        delivered: ant_observe::delivered_by(c.ants@, c.ants@.len() as int) as u64,
        dispatches: c.accounting.cohorts,
        lane_slots: c.accounting.lane_slots,
        useful_lane_slots: c.accounting.useful_lane_slots,
        food_trail: c.food_trail,
        home_trail: c.home_trail,
        struck: v.struck,
        trace_events_streamed: ant_trace::streamed_of(c.taken, v.observed),
        trace_events_observed: v.observed,
        trace_events_dropped: c.dropped,
    }
}

/// The export after an event. One that answers another action than the one asked
/// for changes nothing.
pub open spec fn exported(v: ExportView, event: ExportEvent) -> ExportView {
    match (v.action, event) {
        (ExportAction::WriteHeader, ExportEvent::HeaderWritten) => ExportView {
            action: ExportAction::DropRecords,
            lines: v.lines.push(Line::Header),
            ..v
        },
        (ExportAction::DropRecords, ExportEvent::Dropped) => ExportView {
            action: at_epoch(v),
            ..v
        },
        (ExportAction::AskPending, ExportEvent::Pending(pending)) => ExportView {
            action: if pending > 0 {
                before_epoch(v)
            } else {
                ExportAction::ReadEnd
            },
            ..v
        },
        (ExportAction::Strike(_), ExportEvent::Struck(struck)) => ExportView {
            action: ExportAction::DrainStrike,
            struck,
            ..v
        },
        (ExportAction::DrainStrike, ExportEvent::Drained(events)) => ExportView {
            action: ExportAction::RunEpoch,
            observed: (v.observed + events) as u64,
            ..v
        },
        (ExportAction::RunEpoch, ExportEvent::Ran) => ExportView {
            action: ExportAction::WriteEpoch(v.epochs),
            ..v
        },
        (ExportAction::WriteEpoch(epoch), ExportEvent::EpochWritten(now)) => {
            let written = ExportView {
                previous: now,
                lines: v.lines.push(Line::Epoch(epoch)),
                ..v
            };
            if writes_field(v.options, epoch) {
                ExportView { action: ExportAction::WriteField(epoch), ..written }
            } else {
                ExportView {
                    action: ExportAction::DrainObserved,
                    fields: v.fields.push(false),
                    ..written
                }
            }
        },
        (ExportAction::WriteField(epoch), ExportEvent::FieldWritten(written)) => ExportView {
            action: ExportAction::DrainObserved,
            lines: if written {
                v.lines.push(Line::Field(epoch))
            } else {
                v.lines
            },
            fields: v.fields.push(written),
            ..v
        },
        (ExportAction::DrainObserved, ExportEvent::Drained(events)) => {
            let next = ExportView {
                observed: (v.observed + events) as u64,
                epochs: (v.epochs + 1) as u32,
                ..v
            };
            ExportView { action: at_epoch(next), ..next }
        },
        (ExportAction::ReadEnd, ExportEvent::Read(closing)) => ExportView {
            action: ExportAction::WriteSummary(summary_of(v, closing)),
            ..v
        },
        (ExportAction::WriteSummary(_), ExportEvent::SummaryWritten) => ExportView {
            action: ExportAction::Done,
            lines: v.lines.push(Line::Summary),
            ..v
        },
        _ => v,
    }
}

/// What an event can be counted with: the events taken together, and the loads of
/// the ants, fit in 64 bits.
pub open spec fn can_count(v: ExportView, event: ExportEvent) -> bool {
    match event {
        ExportEvent::Drained(events) => v.observed + events <= u64::MAX,
        ExportEvent::Read(closing) => closing.ants@.len() <= 0xffff_ffff_ffff,
        _ => true,
    }
}

// ---- the stream ------------------------------------------------------------

/// The lines of the first `n` epochs behind the header.
pub open spec fn epoch_lines(fields: Seq<bool>, n: int) -> Seq<Line>
    decreases n,
{
    if n <= 0 {
        seq![Line::Header]
    } else {
        let before = epoch_lines(fields, n - 1).push(Line::Epoch((n - 1) as u32));
        if fields[n - 1] {
            before.push(Line::Field((n - 1) as u32))
        } else {
            before
        }
    }
}

/// What has been written is a stream as far as it goes: the header first and once,
/// one line for each epoch in order, a field only where the stride asks for it, and
/// the summary last and once.
pub open spec fn is_stream(v: ExportView) -> bool {
    let n = v.epochs as int;
    &&& v.epochs <= v.limit
    &&& v.action is WriteHeader ==> v.epochs == 0
    &&& forall|e: int| 0 <= e < v.fields.len() && #[trigger] v.fields[e] ==> writes_field(
        v.options,
        e as u32,
    )
    &&& v.fields.len() == if v.action is DrainObserved {
        n + 1
    } else {
        n
    }
    &&& (v.action is AskPending || v.action is Strike || v.action is DrainStrike
        || v.action is RunEpoch || v.action is WriteEpoch || v.action is WriteField
        || v.action is DrainObserved) ==> v.epochs < v.limit
    &&& v.action matches ExportAction::WriteEpoch(e) ==> e == v.epochs
    &&& v.action matches ExportAction::WriteField(e) ==> e == v.epochs && writes_field(
        v.options,
        e,
    )
    &&& v.lines == match v.action {
        ExportAction::WriteHeader => Seq::<Line>::empty(),
        ExportAction::WriteField(e) => epoch_lines(v.fields, n).push(Line::Epoch(e)),
        ExportAction::DrainObserved => epoch_lines(v.fields, n + 1),
        ExportAction::Done => epoch_lines(v.fields, n).push(Line::Summary),
        _ => epoch_lines(v.fields, n),
    }
}

proof fn lemma_lines_grow(fields: Seq<bool>, more: bool, n: int)
    requires
        0 <= n <= fields.len(),
    ensures
        epoch_lines(fields.push(more), n) == epoch_lines(fields, n),
    decreases n,
{
    if n > 0 {
        lemma_lines_grow(fields, more, n - 1);
    }
}

/// An export writes a stream: it starts with nothing, and whatever comes of its
/// actions, what has been written keeps the order of a stream.
pub proof fn law_an_export_writes_a_stream(
    knobs: ColonyKnobs,
    options: ExportOptions,
    v: ExportView,
    event: ExportEvent,
)
    ensures
        is_stream(started(knobs, options)),
        is_stream(v) ==> is_stream(exported(v, event)),
{
    if is_stream(v) {
        let n = v.epochs as int;
        let after = exported(v, event);
        if v.action is WriteHeader && event is HeaderWritten {
            assert(after.lines =~= epoch_lines(after.fields, 0));
        }
        if v.action is WriteEpoch && event is EpochWritten && !(after.action is WriteField) {
            lemma_lines_grow(v.fields, false, n);
            assert(after.lines =~= epoch_lines(after.fields, n + 1));
        }
        if v.action is WriteField && event is FieldWritten {
            lemma_lines_grow(v.fields, event->FieldWritten_0, n);
            assert(after.lines =~= epoch_lines(after.fields, n + 1));
        }
    }
}

/// The census adds up: what was streamed and what was observed is what was taken,
/// and an export that dropped nothing is complete.
pub proof fn law_the_census_adds_up(v: ExportView, c: Closing)
    requires
        v.observed <= c.taken,
    ensures
        summary_of(v, c).trace_events_streamed + summary_of(v, c).trace_events_observed == c.taken,
        summary_of(v, c).trace_events_dropped == c.dropped,
{
}

impl ExportRun {
    pub fn new(knobs: &ColonyKnobs, options: ExportOptions) -> (run: Self)
        ensures
            run@ == started(*knobs, options),
            is_stream(run@),
    {
        let run = ExportRun {
            limit: knobs.epochs,
            options,
            action: ExportAction::WriteHeader,
            epochs: 0,
            struck: 0,
            observed: 0,
            previous: Accounting {
                cohorts: 0,
                lane_slots: 0,
                useful_lane_slots: 0,
                full_cohorts: 0,
                steps: 0,
                deferred_lanes: 0,
            },
            lines: Ghost(Seq::empty()),
            fields: Ghost(Seq::empty()),
        };
        assert(run@ =~= started(*knobs, options));
        run
    }

    pub fn next(&self) -> (action: ExportAction)
        ensures
            action == self@.action,
    {
        self.action
    }

    fn epoch_action(&self) -> (action: ExportAction)
        ensures
            action == at_epoch(self@),
    {
        if self.epochs < self.limit {
            ExportAction::AskPending
        } else {
            ExportAction::ReadEnd
        }
    }

    /// Takes in what came of the action that was asked for.
    pub fn advance(&mut self, event: ExportEvent)
        requires
            is_stream(old(self)@),
            can_count(old(self)@, event),
        ensures
            final(self)@ == exported(old(self)@, event),
            is_stream(final(self)@),
    {
        let ghost before = self@;
        proof {
            law_an_export_writes_a_stream(arbitrary(), self.options, before, event);
        }
        match (self.action, event) {
            (ExportAction::WriteHeader, ExportEvent::HeaderWritten) => {
                self.lines = Ghost(self.lines@.push(Line::Header));
                self.action = ExportAction::DropRecords;
            },
            (ExportAction::DropRecords, ExportEvent::Dropped) => {
                self.action = self.epoch_action();
            },
            (ExportAction::AskPending, ExportEvent::Pending(pending)) => {
                self.action = if pending > 0 {
                    match self.options.strike_at(self.epochs) {
                        Some(strike) => ExportAction::Strike(strike),
                        None => ExportAction::RunEpoch,
                    }
                } else {
                    ExportAction::ReadEnd
                };
            },
            (ExportAction::Strike(_), ExportEvent::Struck(struck)) => {
                self.struck = struck;
                self.action = ExportAction::DrainStrike;
            },
            (ExportAction::DrainStrike, ExportEvent::Drained(events)) => {
                self.observed = self.observed + events;
                self.action = ExportAction::RunEpoch;
            },
            (ExportAction::RunEpoch, ExportEvent::Ran) => {
                self.action = ExportAction::WriteEpoch(self.epochs);
            },
            (ExportAction::WriteEpoch(epoch), ExportEvent::EpochWritten(now)) => {
                self.previous = now;
                self.lines = Ghost(self.lines@.push(Line::Epoch(epoch)));
                if self.options.writes_field(epoch) {
                    self.action = ExportAction::WriteField(epoch);
                } else {
                    self.fields = Ghost(self.fields@.push(false));
                    self.action = ExportAction::DrainObserved;
                }
            },
            (ExportAction::WriteField(epoch), ExportEvent::FieldWritten(written)) => {
                self.lines = Ghost(
                    if written {
                        self.lines@.push(Line::Field(epoch))
                    } else {
                        self.lines@
                    },
                );
                self.fields = Ghost(self.fields@.push(written));
                self.action = ExportAction::DrainObserved;
            },
            (ExportAction::DrainObserved, ExportEvent::Drained(events)) => {
                self.observed = self.observed + events;
                self.epochs = self.epochs + 1;
                self.action = self.epoch_action();
            },
            (ExportAction::ReadEnd, ExportEvent::Read(closing)) => {
                let summary = self.summary(&closing);
                self.action = ExportAction::WriteSummary(summary);
            },
            (ExportAction::WriteSummary(_), ExportEvent::SummaryWritten) => {
                self.lines = Ghost(self.lines@.push(Line::Summary));
                self.action = ExportAction::Done;
            },
            _ => {},
        }
        assert(self@ =~= exported(before, event));
    }

    fn summary(&self, closing: &Closing) -> (summary: ExportSummary)
        requires
            closing.ants@.len() <= 0xffff_ffff_ffff,
        ensures
            summary == summary_of(self@, *closing),
    {
        ExportSummary {
            epochs: self.epochs,
            ants_alive: alive_count(&closing.ants),
            delivered: sum_delivered(&closing.ants),
            dispatches: closing.accounting.cohorts,
            lane_slots: closing.accounting.lane_slots,
            useful_lane_slots: closing.accounting.useful_lane_slots,
            food_trail: closing.food_trail,
            home_trail: closing.home_trail,
            struck: self.struck,
            trace_events_streamed: streamed(closing.taken, self.observed),
            trace_events_observed: self.observed,
            trace_events_dropped: closing.dropped,
        }
    }

    /// The line of the epoch at hand, or none where a counter went back.
    pub fn epoch_text(
        &self,
        ants: &Vec<AntView>,
        bins: &Vec<Vec<u64>>,
        events: &Vec<TraceEvent>,
        now: &Accounting,
    ) -> (line: Option<String>)
        requires
            ants@.len() <= u32::MAX,
        ensures
            line is Some <==> ant_trace::not_before(*now, self.previous),
            line matches Some(line) ==> exists|tally: Tally|
                {
                    &&& #[trigger] ant_trace::is_tally(tally, events@, events@.len() as int)
                    &&& line@ == ant_trace::epoch_text(
                        self.epochs,
                        ants@,
                        self.options.ant_sample,
                        ant_trace::row_views(bins@),
                        ant_trace::cohort_rows(events@, events@.len() as int),
                        tally,
                        ant_trace::added(*now, self.previous),
                    )
                },
    {
        if !is_later(now, &self.previous) {
            return None;
        }
        let delta: Accounting = since(now, &self.previous);
        let tally: Tally = tally_events(events);
        let line: String = epoch_line(
            self.epochs,
            ants,
            self.options.ant_sample,
            bins,
            &tally,
            &delta,
        );
        assert(ant_trace::is_tally(tally, events@, events@.len() as int));
        Some(line)
    }
}

// ---- the header ------------------------------------------------------------

pub open spec fn food_rows(food: Seq<FoodSource>) -> Seq<Seq<u64>> {
    Seq::new(food.len(), |i: int| seq![food[i].0 as u64, food[i].1 as u64, food[i].2 as u64])
}

pub open spec fn nest_rows(colony: AntColony) -> Seq<Seq<u64>> {
    Seq::new(
        colony.colonies@.len(),
        |i: int|
            seq![
                colony.colonies@[i].nest.0 as u64,
                colony.colonies@[i].nest.1 as u64,
                colony.colonies@[i].ants@.len() as u64,
            ],
    )
}

/// The obstacle bitmap of a terrain, verbatim: nothing where the terrain ends
/// before it.
pub open spec fn obstacles_of(colony: AntColony, terrain: Seq<u8>) -> Seq<u8> {
    let at = 8 + 6 * colony_model::food_count(terrain) + 4 * colony.knobs.colonies;
    if at <= terrain.len() {
        terrain.skip(at)
    } else {
        Seq::empty()
    }
}

/// The first line of a colony's stream, or none where the terrain ends before its
/// food sources.
pub fn colony_header(colony: &AntColony, options: &ExportOptions, terrain: &Vec<u8>) -> (line: Option<
    String,
>)
    requires
        colony.ant_total() <= usize::MAX,
    ensures
        line is Some <==> colony_model::holds_food(terrain@),
        line matches Some(line) ==> line@ == ant_trace::header_of(
            colony.knobs,
            *options,
            colony.ant_total() as u64,
            nest_rows(*colony),
            food_rows(colony_model::food_sources_of(terrain@)),
            obstacles_of(*colony, terrain@),
        ),
{
    if !Terrain::has_food_sources(terrain.as_slice()) {
        return None;
    }
    let sources: Vec<FoodSource> = Terrain::food_sources(terrain.as_slice());
    let mut food: Vec<Vec<u64>> = Vec::new();
    let mut i: usize = 0;
    while i < sources.len()
        invariant
            i <= sources.len(),
            ant_trace::row_views(food@) =~= food_rows(sources@).take(i as int),
        decreases sources.len() - i,
    {
        let (x, y, r) = sources[i];
        let ghost before = ant_trace::row_views(food@);
        let row: Vec<u64> = vec![x as u64, y as u64, r as u64];
        assert(row@ =~= seq![x as u64, y as u64, r as u64]);
        food.push(row);
        assert(ant_trace::row_views(food@) =~= before.push(row@));
        i = i + 1;
    }
    let mut nests: Vec<Vec<u64>> = Vec::new();
    let mut n: usize = 0;
    while n < colony.colonies.len()
        invariant
            n <= colony.colonies.len(),
            ant_trace::row_views(nests@) =~= nest_rows(*colony).take(n as int),
        decreases colony.colonies.len() - n,
    {
        let (x, y) = colony.colonies[n].nest;
        let ghost before = ant_trace::row_views(nests@);
        let row: Vec<u64> = vec![x as u64, y as u64, colony.colonies[n].ants.len() as u64];
        assert(row@ =~= seq![
            x as u64,
            y as u64,
            colony.colonies@[n as int].ants@.len() as u64,
        ]);
        nests.push(row);
        assert(ant_trace::row_views(nests@) =~= before.push(row@));
        n = n + 1;
    }
    proof {
        bytes::lemma_radix_values();
    }
    let counted: u64 = bytes::get_le(terrain.as_slice(), 4, 2);
    let at: u64 = TERRAIN_HEADER as u64 + 6 * counted + 4 * colony.knobs.colonies as u64;
    let len: usize = terrain.len();
    let none: [u8; 0] = [];
    let obstacles: &[u8] = if at <= len as u64 {
        vstd::slice::slice_subrange(terrain.as_slice(), at as usize, len)
    } else {
        none.as_slice()
    };
    assert(obstacles@ =~= obstacles_of(*colony, terrain@));
    assert(ant_trace::row_views(food@) =~= food_rows(sources@));
    assert(ant_trace::row_views(nests@) =~= nest_rows(*colony));
    let ants: u64 = colony.ant_count() as u64;
    Some(header_line(&colony.knobs, options, ants, &nests, &food, obstacles))
}

// ---- the colony ------------------------------------------------------------

/// Configures `kernel` for the export's schedule and builds the colony in it.
pub fn build_for<K: Kernel>(kernel: &mut K, knobs: &ColonyKnobs, options: &ExportOptions) -> (result:
    Result<AntColony, RuntimeError>)
    requires
        ant_build::has_room(*knobs),
        4 * knobs.cell_count() <= usize::MAX,
    ensures
        ({
            let start = kernel::configured(
                old(kernel).log(),
                options.mode,
                options.cohort_width,
                PartialCohortPolicy::RunPartial,
            );
            match result {
                Ok(colony) => {
                    &&& placement::grew(start, final(kernel).log())
                    &&& ant_build::is_built(
                        placement::gained(start, final(kernel).log()),
                        *knobs,
                        colony,
                    )
                },
                Err(error) => ant_build::ends_refused(start, final(kernel).log(), error),
            }
        }),
{
    kernel.configure(options.mode, options.cohort_width, PartialCohortPolicy::RunPartial);
    build_in(kernel, knobs)
}

} // verus!

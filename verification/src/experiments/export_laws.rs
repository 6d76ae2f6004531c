//! What an export shows of a colony, in which order, and what the benchmarks
//! measure.

use crate::experiments::ant_colony as colony;
use crate::experiments::ant_observe::AntView;
use crate::experiments::ant_scoring::Sensor;
use crate::experiments::ant_trace;
use crate::experiments::ant_trace::{ExportSummary, Tally};
use crate::experiments::backend_bench;
use crate::experiments::export_run;
use crate::experiments::export_run::{Closing, ExportAction, ExportEvent, ExportView};
use crate::kernel::{EventKind, TraceEvent};
use crate::scheduler::Accounting;
use vstd::prelude::*;

verus! {

// ---- what a line shows -----------------------------------------------------

proof fn lemma_six_bits(a: int, b: int, c: int)
    requires
        0 <= a < 256,
        0 <= b < 256,
        0 <= c < 256,
    ensures
        ({
            let n = a * 65536 + b * 256 + c;
            &&& n / 262144 == a / 4
            &&& (n / 4096) % 64 == (a % 4) * 16 + b / 16
            &&& (n / 64) % 64 == (b % 16) * 4 + c / 64
            &&& n % 64 == c % 64
        }),
{
}

/// Three bytes go into four letters of six bits each, highest bits first. What is missing
/// of the last three is padded.
pub proof fn law_four_letters_hold_three_bytes(content: Seq<u8>, at: int)
    requires
        0 <= at < content.len(),
    ensures
        ({
            let first = content[at] as int;
            let second = if at + 1 < content.len() {
                content[at + 1] as int
            } else {
                0
            };
            let third = if at + 2 < content.len() {
                content[at + 2] as int
            } else {
                0
            };
            let four = ant_trace::quartet(content, at);
            &&& four.len() == 4
            &&& four[0] == ant_trace::alphabet()[first / 4]
            &&& four[1] == ant_trace::alphabet()[(first % 4) * 16 + second / 16]
            &&& at + 1 < content.len() ==> four[2] == ant_trace::alphabet()[(second % 16) * 4
                + third / 64]
            &&& at + 2 < content.len() ==> four[3] == ant_trace::alphabet()[third % 64]
            &&& at + 1 >= content.len() ==> four[2] == '='
            &&& at + 2 >= content.len() ==> four[3] == '='
        }),
{
    lemma_six_bits(
        ant_trace::byte_or_zero(content, at),
        ant_trace::byte_or_zero(content, at + 1),
        ant_trace::byte_or_zero(content, at + 2),
    );
}

/// Letters follow each other three bytes apart.
pub proof fn law_letters_follow_in_order(content: Seq<u8>, n: int)
    requires
        n >= 0,
    ensures
        ant_trace::quartets(content, 0).len() == 0,
        ant_trace::quartets(content, n + 1) == ant_trace::quartets(content, n)
            + ant_trace::quartet(content, 3 * n),
{
}

/// Numbers are listed between brackets with commas, and so are rows.
pub proof fn law_rows_are_listed_with_commas(values: Seq<u64>, rows: Seq<Seq<u64>>, n: int)
    requires
        n >= 1,
    ensures
        ant_trace::row_text(values) == "["@ + ant_trace::listed(values, values.len() as int)
            + "]"@,
        ant_trace::listed(values, 1) == crate::text::decimal(values[0] as nat),
        ant_trace::listed(values, n + 1) == ant_trace::listed(values, n) + ","@
            + crate::text::decimal(values[n] as nat),
        ant_trace::rows_text(rows, 1) == ant_trace::row_text(rows[0]),
        ant_trace::rows_text(rows, n + 1) == ant_trace::rows_text(rows, n) + ","@
            + ant_trace::row_text(rows[n]),
{
}

/// Every living ant at a multiple of the stride is shown with its id, place, load and
/// class, and no other is.
pub proof fn law_every_so_many_th_living_ant_is_shown(ants: Seq<AntView>, stride: int, n: int)
    requires
        0 <= n < ants.len(),
        stride > 0,
    ensures
        ({
            let before = ant_trace::ant_rows(ants, stride, n);
            let after = ant_trace::ant_rows(ants, stride, n + 1);
            let ant = ants[n];
            &&& ant_trace::ant_rows(ants, stride, 0).len() == 0
            &&& n % stride == 0 && ant.alive ==> {
                &&& after.len() == before.len() + 1
                &&& after.drop_last() == before
                &&& after.last().len() == 5
                &&& after.last()[0] == ant.id
                &&& after.last()[1] == ant.x
                &&& after.last()[2] == ant.y
                &&& after.last()[3] == if ant.carrying {
                    1int
                } else {
                    0
                }
                &&& after.last()[4] == ant.run_class
            }
            &&& !(n % stride == 0 && ant.alive) ==> after == before
        }),
{
    let before = ant_trace::ant_rows(ants, stride, n);
    let after = ant_trace::ant_rows(ants, stride, n + 1);
    if n % stride == 0 && ants[n].alive {
        assert(after.drop_last() =~= before);
    }
}

/// A sample of so many ants is taken at the least stride that shows no more of them.
pub proof fn law_a_stride_is_the_least_that_suffices(ants: int, sample: int)
    requires
        ants > 0,
        sample >= 0,
    ensures
        sample == 0 ==> ant_trace::stride_of(ants, sample) == 1,
        sample > 0 ==> {
            let stride = ant_trace::stride_of(ants, sample);
            &&& stride >= 1
            &&& stride * sample >= ants
            &&& (stride - 1) * sample < ants
        },
{
    if sample > 0 {
        let stride = (ants + sample - 1) / sample;
        assert(stride >= 1 && stride * sample >= ants && (stride - 1) * sample < ants)
            by (nonlinear_arith)
            requires
                stride == (ants + sample - 1) / sample,
                sample > 0,
                ants > 0,
        ;
    }
}

/// Cohorts are shown with their class and how many lanes they have, in the order of the
/// events.
pub proof fn law_every_cohort_is_shown(events: Seq<TraceEvent>, n: int)
    requires
        0 <= n < events.len(),
    ensures
        ant_trace::cohort_rows(events, 0).len() == 0,
        events[n].kind == EventKind::CohortCreated ==> ant_trace::cohort_rows(events, n + 1)
            == ant_trace::cohort_rows(events, n).push(
            seq![events[n].run_class as u64, events[n].auxiliary],
        ),
        events[n].kind != EventKind::CohortCreated ==> ant_trace::cohort_rows(events, n + 1)
            == ant_trace::cohort_rows(events, n),
{
}

/// A tally counts failures, notices and restarts.
pub proof fn law_a_tally_counts_by_kind(tally: Tally, events: Seq<TraceEvent>, n: int)
    requires
        ant_trace::is_tally(tally, events, n),
    ensures
        tally.failures == crate::kernel::events_of(events, EventKind::ProcessFailed, n),
        tally.notices == crate::kernel::events_of(events, EventKind::SupervisionNotified, n),
        tally.restarts == crate::kernel::events_of(events, EventKind::ProcessRestarted, n),
{
}

/// What was added between two accounts is counted, each figure for itself.
pub proof fn law_added_figures_are_differences(later: Accounting, earlier: Accounting)
    requires
        ant_trace::not_before(later, earlier),
    ensures
        ({
            let d = ant_trace::added(later, earlier);
            &&& earlier.cohorts + d.cohorts == later.cohorts
            &&& earlier.lane_slots + d.lane_slots == later.lane_slots
            &&& earlier.useful_lane_slots + d.useful_lane_slots == later.useful_lane_slots
            &&& earlier.full_cohorts + d.full_cohorts == later.full_cohorts
            &&& earlier.steps + d.steps == later.steps
            &&& earlier.deferred_lanes + d.deferred_lanes == later.deferred_lanes
        }),
{
}

/// The strongest cell of a trail is no weaker than any other, is there, and counts as one at
/// least.
pub proof fn law_the_strongest_cell_is_no_weaker(field: Seq<u8>, cells: int, trail: int, n: int, i: int)
    requires
        0 <= i < n,
    ensures
        ant_trace::strongest(field, cells, trail, n) >= 1,
        ant_trace::strongest(field, cells, trail, n) >= colony::trail_at(field, cells, trail, i),
        ant_trace::strongest(field, cells, trail, n) == 1 || exists|k: int|
            0 <= k < n && ant_trace::strongest(field, cells, trail, n)
                == #[trigger] colony::trail_at(field, cells, trail, k),
    decreases n,
{
    if n > 1 {
        law_the_strongest_cell_is_no_weaker(
            field,
            cells,
            trail,
            n - 1,
            if i < n - 1 {
                i
            } else {
                0
            },
        );
        let best = ant_trace::strongest(field, cells, trail, n - 1);
        if best == ant_trace::strongest(field, cells, trail, n) && best != 1 {
            let k = choose|k: int|
                0 <= k < n - 1 && best == #[trigger] colony::trail_at(field, cells, trail, k);
            assert(ant_trace::strongest(field, cells, trail, n) == colony::trail_at(
                field,
                cells,
                trail,
                k,
            ));
        }
    } else {
        reveal_with_fuel(ant_trace::strongest, 2);
        assert(ant_trace::strongest(field, cells, trail, n) == 1 || ant_trace::strongest(
            field,
            cells,
            trail,
            n,
        ) == colony::trail_at(field, cells, trail, 0));
    }
}

/// A trail is shown as shares of its strongest cell, of 255.
pub proof fn law_a_trail_is_shown_in_shares(field: Seq<u8>, cells: int, trail: int, i: int)
    requires
        0 <= i < cells,
    ensures
        ({
            let top = ant_trace::strongest(field, cells, trail, cells) as int;
            let here = colony::trail_at(field, cells, trail, i) as int;
            let shown = ant_trace::scaled(field, cells, trail)[i] as int;
            &&& ant_trace::scaled(field, cells, trail).len() == cells
            &&& shown * top <= here * 255 < (shown + 1) * top
        }),
{
    law_the_strongest_cell_is_no_weaker(field, cells, trail, cells, i);
    let top = ant_trace::strongest(field, cells, trail, cells) as int;
    let here = colony::trail_at(field, cells, trail, i) as int;
    let share = (here * 255) / top;
    assert(0 <= share <= 255 && share * top <= here * 255 < (share + 1) * top)
        by (nonlinear_arith)
        requires
            share == (here * 255) / top,
            0 <= here <= top,
            top >= 1,
    ;
}

/// A summary's text names each of its figures.
pub proof fn law_a_summary_names_its_figures(s: ExportSummary, occupancy: Seq<char>)
    ensures
        ant_trace::summary_text(s, occupancy) == ant_trace::all_pairs(
            seq![
                ("{\"kind\":\"summary\",\"epochs\":", s.epochs as u64),
                (",\"ants_alive\":", s.ants_alive),
                (",\"delivered\":", s.delivered),
                (",\"dispatches\":", s.dispatches),
            ],
        ) + ",\"lane_occupancy\":"@ + occupancy + ant_trace::all_pairs(
            seq![
                (",\"food_trail\":", s.food_trail),
                (",\"home_trail\":", s.home_trail),
                (",\"struck\":", s.struck),
                (",\"trace_events_streamed\":", s.trace_events_streamed),
                (",\"trace_events_observed\":", s.trace_events_observed),
                (",\"trace_events_dropped\":", s.trace_events_dropped),
            ],
        ) + "}\n"@,
{
}

/// Names and numbers alternate.
pub proof fn law_names_and_numbers_alternate(pairs: Seq<(&'static str, u64)>, n: int)
    requires
        n >= 0,
    ensures
        ant_trace::pairs_text(pairs, 0).len() == 0,
        ant_trace::pairs_text(pairs, n + 1) == ant_trace::pairs_text(pairs, n) + pairs[n].0@
            + crate::text::decimal(pairs[n].1 as nat),
{
}

// ---- the order of an export ------------------------------------------------

/// An export starts with its header, and goes on to the first epoch.
pub proof fn law_an_export_starts_with_its_header(v: ExportView)
    ensures
        v.action is WriteHeader ==> {
            let after = export_run::exported(v, ExportEvent::HeaderWritten);
            after.action is DropRecords && after.lines.len() == v.lines.len() + 1
        },
        v.action is DropRecords && v.epochs < v.limit ==> export_run::exported(
            v,
            ExportEvent::Dropped,
        ).action is AskPending,
        v.action is DropRecords && v.epochs >= v.limit ==> export_run::exported(
            v,
            ExportEvent::Dropped,
        ).action is ReadEnd,
{
}

/// An epoch runs where something is pending, and a predator strikes before the epoch that
/// it is set for, and before no other.
pub proof fn law_a_predator_strikes_before_its_epoch(v: ExportView, pending: u64)
    requires
        v.action is AskPending,
    ensures
        ({
            let after = export_run::exported(v, ExportEvent::Pending(pending));
            &&& pending == 0 ==> after.action is ReadEnd
            &&& pending > 0 ==> match v.options.predator {
                Some((at, strike)) => if at == v.epochs {
                    after.action == ExportAction::Strike(strike)
                } else {
                    after.action is RunEpoch
                },
                None => after.action is RunEpoch,
            }
            &&& after.epochs == v.epochs
        }),
{
}

/// A strike's victims are counted, and what was recorded meanwhile is observed.
pub proof fn law_a_strike_is_counted(v: ExportView, struck: u64, events: u64)
    requires
        v.observed + events <= u64::MAX,
    ensures
        v.action is Strike ==> {
            let after = export_run::exported(v, ExportEvent::Struck(struck));
            after.action is DrainStrike && after.struck == struck
        },
        v.action is DrainStrike ==> {
            let after = export_run::exported(v, ExportEvent::Drained(events));
            after.action is RunEpoch && after.observed == v.observed + events
        },
        v.action is RunEpoch ==> export_run::exported(v, ExportEvent::Ran).action
            == ExportAction::WriteEpoch(v.epochs),
{
}

/// An epoch is written once it has run. The field is written with it at multiples of the
/// field's stride, and not at all where there is none.
pub proof fn law_fields_are_written_at_the_stride(v: ExportView, epoch: u32, now: Accounting)
    requires
        v.action == ExportAction::WriteEpoch(epoch),
    ensures
        ({
            let after = export_run::exported(v, ExportEvent::EpochWritten(now));
            let stride = v.options.field_stride as int;
            &&& after.lines.len() == v.lines.len() + 1
            &&& after.previous == now
            &&& stride > 0 && epoch as int % stride == 0 ==> after.action
                == ExportAction::WriteField(epoch)
            &&& !(stride > 0 && epoch as int % stride == 0) ==> after.action is DrainObserved
        }),
{
}

/// An epoch ends with what was recorded in it, and the next one begins as long as there is
/// one.
pub proof fn law_an_epoch_ends_with_its_records(v: ExportView, events: u64)
    requires
        v.action is DrainObserved,
        v.observed + events <= u64::MAX,
        v.epochs < u32::MAX,
    ensures
        ({
            let after = export_run::exported(v, ExportEvent::Drained(events));
            &&& after.epochs == v.epochs + 1
            &&& after.observed == v.observed + events
            &&& v.epochs + 1 < v.limit ==> after.action is AskPending
            &&& v.epochs + 1 >= v.limit ==> after.action is ReadEnd
        }),
{
}

/// A summary tells how the colony stands at the end.
pub proof fn law_a_summary_tells_how_the_colony_stands(v: ExportView, c: Closing)
    ensures
        ({
            let s = export_run::summary_of(v, c);
            &&& s.epochs == v.epochs
            &&& s.dispatches == c.accounting.cohorts
            &&& s.lane_slots == c.accounting.lane_slots
            &&& s.useful_lane_slots == c.accounting.useful_lane_slots
            &&& s.food_trail == c.food_trail
            &&& s.home_trail == c.home_trail
            &&& s.struck == v.struck
            &&& s.trace_events_observed == v.observed
            &&& s.trace_events_dropped == c.dropped
            &&& c.taken >= v.observed ==> s.trace_events_streamed + v.observed == c.taken
            &&& c.taken < v.observed ==> s.trace_events_streamed == 0
            &&& s.ants_alive == ant_trace::alive_among(c.ants@, c.ants@.len() as int) as u64
        }),
        v.action is ReadEnd ==> export_run::exported(v, ExportEvent::Read(c)).action
            == ExportAction::WriteSummary(export_run::summary_of(v, c)),
{
}

/// The living are counted one by one.
pub proof fn law_the_living_are_counted(ants: Seq<AntView>, n: int)
    requires
        0 <= n < ants.len(),
    ensures
        ant_trace::alive_among(ants, 0) == 0,
        ants[n].alive ==> ant_trace::alive_among(ants, n + 1) == ant_trace::alive_among(ants, n)
            + 1,
        !ants[n].alive ==> ant_trace::alive_among(ants, n + 1) == ant_trace::alive_among(ants, n),
{
}

// ---- scoring and benchmarks ------------------------------------------------

/// A sensor reads the trail of its channel in the eight cells around it, clockwise from the
/// one above, and nothing outside the grid.
pub proof fn law_a_sensor_reads_around_itself(s: Sensor, grid: Seq<u8>, d: int)
    requires
        0 <= d < 8,
    ensures
        ({
            let dx = if 1 <= d <= 3 {
                1int
            } else if 5 <= d {
                -1
            } else {
                0
            };
            let dy = if d <= 1 || d == 7 {
                -1int
            } else if 3 <= d <= 5 {
                1
            } else {
                0
            };
            let x = s.x + dx;
            let y = s.y + dy;
            let inside = 0 <= x < s.width && 0 <= y < s.height;
            &&& s.readings(grid).len() == 8
            &&& !inside ==> s.readings(grid)[d] == 0
            &&& inside ==> s.readings(grid)[d] == colony::trail_at(
                grid,
                s.width * s.height,
                s.channel as int,
                y * s.width + x,
            )
        }),
{
}

/// A synthetic body's lane takes its turn every fourth step, and multiplies, combines and
/// adds in turn, modulo 2^64.
pub proof fn law_synthetic_lanes_take_turns(loaded: Seq<u64>, n: int, lane: int, value: u64)
    requires
        n >= 0,
        0 <= lane < 4,
    ensures
        n % 4 == lane ==> backend_bench::lane_value(loaded, n + 1, lane) == backend_bench::mixed(
            n,
            backend_bench::lane_value(loaded, n, lane),
        ),
        n % 4 != lane ==> backend_bench::lane_value(loaded, n + 1, lane)
            == backend_bench::lane_value(loaded, n, lane),
        lane < loaded.len() ==> backend_bench::lane_value(loaded, 0, lane) == loaded[lane],
        lane >= loaded.len() ==> backend_bench::lane_value(loaded, 0, lane) == 0x9E37_79B9,
        n % 3 == 0 ==> backend_bench::mixed(n, value) as int == (value * 0x9E37_79B9)
            % 0x1_0000_0000_0000_0000,
        n % 3 == 1 ==> backend_bench::mixed(n, value) == value ^ 0x9E37_79B9,
        n % 3 == 2 ==> backend_bench::mixed(n, value) as int == (value + 0x9E37_79B9)
            % 0x1_0000_0000_0000_0000,
{
}

/// The fastest sample is the least of them.
pub proof fn law_the_fastest_sample_is_the_least(samples: Seq<u64>, n: int, i: int)
    requires
        0 <= i < n <= samples.len(),
    ensures
        backend_bench::least(samples, n) <= samples[i],
        exists|k: int|
            0 <= k < n && backend_bench::least(samples, n) == #[trigger] samples[k],
    decreases n,
{
    if n > 1 {
        law_the_fastest_sample_is_the_least(
            samples,
            n - 1,
            if i < n - 1 {
                i
            } else {
                0
            },
        );
        let best = backend_bench::least(samples, n - 1);
        if backend_bench::least(samples, n) == best {
            let k = choose|k: int| 0 <= k < n - 1 && best == #[trigger] samples[k];
            assert(backend_bench::least(samples, n) == samples[k]);
        } else {
            assert(backend_bench::least(samples, n) == samples[n - 1]);
        }
    } else {
        assert(backend_bench::least(samples, n) == samples[0]);
    }
}

/// The larger a batch, the fewer times it is measured.
pub proof fn law_larger_batches_are_measured_less(count: u32)
    ensures
        count <= 1024 ==> backend_bench::repetitions(count) == 201,
        1024 < count <= 65536 ==> backend_bench::repetitions(count) == 51,
        65536 < count <= 1048576 ==> backend_bench::repetitions(count) == 21,
        count > 1048576 ==> backend_bench::repetitions(count) == 7,
{
}

} // verus!

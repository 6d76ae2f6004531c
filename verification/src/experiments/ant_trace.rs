//! The lines of an ant-colony run for a viewer: one JSON object for each.
//!
//! A stream is a header, a line for each epoch, now and then the field, and a
//! summary. Each line is made here, out of plain values; where the lines go is
//! outside this library.

use crate::compiler::run_classes;
use crate::compiler::run_classes::{ant_class_name, ANT_BASE};
use crate::experiments::ant_colony as colony;
use crate::experiments::ant_colony::{read_trail, ColonyKnobs, TRAIL_FOOD, TRAIL_HOME};
use crate::experiments::ant_observe::{AntView, PredatorStrike};
use crate::kernel;
pub use crate::kernel::{EventKind, TraceEvent};
use crate::scheduler::{Accounting, SchedulingMode};
use crate::text;
use crate::text::{push_decimal, push_text};
use vstd::prelude::*;
use vstd::string::StrSliceExecFns;

verus! {

/// How much of a run is written out.
#[derive(Clone, Copy, Debug)]
pub struct ExportOptions {
    pub cohort_width: u16,
    pub mode: SchedulingMode,
    /// The field is written every so many epochs, and never where this is zero.
    pub field_stride: u32,
    /// At most this many ants are written in an epoch, all where it is zero.
    pub ant_sample: u32,
    /// A strike, and the epoch in which it lands.
    pub predator: Option<(u32, PredatorStrike)>,
}

impl Default for ExportOptions {
    fn default() -> (options: Self)
        ensures
            options == (ExportOptions {
                cohort_width: 32,
                mode: SchedulingMode::RunClassBins,
                field_stride: 4,
                ant_sample: 0,
                predator: None,
            }),
    {
        ExportOptions {
            cohort_width: 32,
            mode: SchedulingMode::RunClassBins,
            field_stride: 4,
            ant_sample: 0,
            predator: None,
        }
    }
}

impl ExportOptions {
    /// Whether the field is written after `epoch`.
    pub fn writes_field(&self, epoch: u32) -> (writes: bool)
        ensures
            writes == (self.field_stride > 0 && epoch as int % (self.field_stride as int) == 0),
    {
        self.field_stride > 0 && epoch % self.field_stride == 0
    }

    /// The strike that lands before `epoch`, where one does.
    pub fn strike_at(&self, epoch: u32) -> (strike: Option<PredatorStrike>)
        ensures
            strike == match self.predator {
                Some((at, strike)) => if at == epoch {
                    Some(strike)
                } else {
                    None
                },
                None => None,
            },
    {
        match self.predator {
            Some((at, strike)) => if at == epoch {
                Some(strike)
            } else {
                None
            },
            None => None,
        }
    }
}

pub open spec fn mode_text(mode: SchedulingMode) -> Seq<char> {
    match mode {
        SchedulingMode::RunClassBins => "run-class"@,
        SchedulingMode::PersistentFifo => "persistent-fifo"@,
    }
}

pub fn mode_name(mode: SchedulingMode) -> (name: &'static str)
    ensures
        name@ == mode_text(mode),
{
    match mode {
        SchedulingMode::RunClassBins => "run-class",
        SchedulingMode::PersistentFifo => "persistent-fifo",
    }
}

// ---- base64 ----------------------------------------------------------------

pub open spec fn alphabet() -> Seq<char> {
    "ABCDEFGHIJKLMNOPQRSTUVWXYZabcdefghijklmnopqrstuvwxyz0123456789+/"@
}

/// The byte at `at`, zero past the end.
pub open spec fn byte_or_zero(content: Seq<u8>, at: int) -> int {
    if at < content.len() {
        content[at] as int
    } else {
        0
    }
}

/// Four letters for the three bytes from `at` on, padded where there are fewer.
pub open spec fn quartet(content: Seq<u8>, at: int) -> Seq<char> {
    let n = byte_or_zero(content, at) * 65536 + byte_or_zero(content, at + 1) * 256 + byte_or_zero(
        content,
        at + 2,
    );
    seq![
        alphabet()[n / 262144],
        alphabet()[(n / 4096) % 64],
        if at + 1 < content.len() {
            alphabet()[(n / 64) % 64]
        } else {
            '='
        },
        if at + 2 < content.len() {
            alphabet()[n % 64]
        } else {
            '='
        },
    ]
}

/// The first `n` quartets.
pub open spec fn quartets(content: Seq<u8>, n: int) -> Seq<char>
    decreases n,
{
    if n <= 0 {
        Seq::empty()
    } else {
        quartets(content, n - 1) + quartet(content, 3 * (n - 1))
    }
}

pub open spec fn base64_of(content: Seq<u8>) -> Seq<char> {
    quartets(content, (content.len() as int + 2) / 3)
}

fn push_letter(out: &mut String, n: u32)
    requires
        n < 64,
    ensures
        final(out)@ == old(out)@.push(alphabet()[n as int]),
{
    let letters: &'static str = "ABCDEFGHIJKLMNOPQRSTUVWXYZabcdefghijklmnopqrstuvwxyz0123456789+/";
    proof {
        reveal_strlit("ABCDEFGHIJKLMNOPQRSTUVWXYZabcdefghijklmnopqrstuvwxyz0123456789+/");
    }
    let ghost start = out@;
    let letter: &str = letters.substring_char(n as usize, n as usize + 1);
    push_text(out, letter);
    assert(out@ =~= start.push(alphabet()[n as int]));
}

fn push_padding(out: &mut String)
    ensures
        final(out)@ == old(out)@.push('='),
{
    proof {
        reveal_strlit("=");
    }
    let ghost start = out@;
    push_text(out, "=");
    assert(out@ =~= start.push('='));
}

/// Standard base64 with padding.
pub fn base64(content: &[u8]) -> (out: String)
    ensures
        out@ == base64_of(content@),
{
    let mut out: String = String::new();
    let len: usize = content.len();
    let groups: usize = if len % 3 == 0 {
        len / 3
    } else {
        len / 3 + 1
    };
    assert(groups == (len + 2) / 3);
    let mut n: usize = 0;
    assert(out@ =~= quartets(content@, 0));
    while n < groups
        invariant
            n <= groups,
            len == content@.len(),
            groups == (len + 2) / 3,
            out@ == quartets(content@, n as int),
        decreases groups - n,
    {
        let at: usize = 3 * n;
        let a: u32 = content[at] as u32;
        let b: u32 = if len - at > 1 {
            content[at + 1] as u32
        } else {
            0
        };
        let c: u32 = if len - at > 2 {
            content[at + 2] as u32
        } else {
            0
        };
        let word: u32 = a * 65536 + b * 256 + c;
        let ghost start = out@;
        push_letter(&mut out, word / 262144);
        push_letter(&mut out, (word / 4096) % 64);
        if len - at > 1 {
            push_letter(&mut out, (word / 64) % 64);
        } else {
            push_padding(&mut out);
        }
        if len - at > 2 {
            push_letter(&mut out, word % 64);
        } else {
            push_padding(&mut out);
        }
        assert(out@ =~= start + quartet(content@, at as int));
        n = n + 1;
    }
    out
}

/// Base64 takes four letters for every three bytes or part of them.
pub proof fn law_base64_takes_four_letters_for_three_bytes(content: Seq<u8>)
    ensures
        base64_of(content).len() == 4 * ((content.len() + 2) / 3),
{
    lemma_quartets_len(content, (content.len() as int + 2) / 3);
}

proof fn lemma_quartets_len(content: Seq<u8>, n: int)
    requires
        0 <= n,
    ensures
        quartets(content, n).len() == 4 * n,
    decreases n,
{
    if n > 0 {
        lemma_quartets_len(content, n - 1);
    }
}

// ---- numbers in lines ------------------------------------------------------

/// Texts, each with a number behind it.
pub open spec fn pairs_text(pairs: Seq<(&'static str, u64)>, n: int) -> Seq<char>
    decreases n,
{
    if n <= 0 {
        Seq::empty()
    } else {
        pairs_text(pairs, n - 1) + pairs[n - 1].0@ + text::decimal(pairs[n - 1].1 as nat)
    }
}

pub open spec fn all_pairs(pairs: Seq<(&'static str, u64)>) -> Seq<char> {
    pairs_text(pairs, pairs.len() as int)
}

fn push_pairs(out: &mut String, pairs: &Vec<(&'static str, u64)>)
    ensures
        final(out)@ == old(out)@ + all_pairs(pairs@),
{
    let ghost start = out@;
    let mut i: usize = 0;
    assert(start =~= start + pairs_text(pairs@, 0));
    while i < pairs.len()
        invariant
            i <= pairs.len(),
            out@ == start + pairs_text(pairs@, i as int),
        decreases pairs.len() - i,
    {
        let (name, value) = pairs[i];
        push_text(out, name);
        push_decimal(out, value);
        assert(out@ =~= start + pairs_text(pairs@, i + 1));
        i = i + 1;
    }
}

/// The first `n` numbers, a comma between any two.
pub open spec fn listed(values: Seq<u64>, n: int) -> Seq<char>
    decreases n,
{
    if n <= 0 {
        Seq::empty()
    } else if n == 1 {
        text::decimal(values[0] as nat)
    } else {
        listed(values, n - 1) + ","@ + text::decimal(values[n - 1] as nat)
    }
}

pub open spec fn row_text(values: Seq<u64>) -> Seq<char> {
    "["@ + listed(values, values.len() as int) + "]"@
}

/// The first `n` rows, a comma between any two.
pub open spec fn rows_text(rows: Seq<Seq<u64>>, n: int) -> Seq<char>
    decreases n,
{
    if n <= 0 {
        Seq::empty()
    } else if n == 1 {
        row_text(rows[0])
    } else {
        rows_text(rows, n - 1) + ","@ + row_text(rows[n - 1])
    }
}

pub open spec fn all_rows(rows: Seq<Seq<u64>>) -> Seq<char> {
    rows_text(rows, rows.len() as int)
}

pub open spec fn row_views(rows: Seq<Vec<u64>>) -> Seq<Seq<u64>> {
    Seq::new(rows.len(), |i: int| rows[i]@)
}

fn push_row(out: &mut String, values: &Vec<u64>)
    ensures
        final(out)@ == old(out)@ + row_text(values@),
{
    let ghost start = out@;
    push_text(out, "[");
    let ghost opened = out@;
    let mut i: usize = 0;
    assert(opened =~= opened + listed(values@, 0));
    while i < values.len()
        invariant
            i <= values.len(),
            out@ == opened + listed(values@, i as int),
        decreases values.len() - i,
    {
        if i > 0 {
            push_text(out, ",");
        }
        push_decimal(out, values[i]);
        assert(out@ =~= opened + listed(values@, i + 1));
        i = i + 1;
    }
    push_text(out, "]");
    assert(out@ =~= start + row_text(values@));
}

fn push_rows(out: &mut String, rows: &Vec<Vec<u64>>)
    ensures
        final(out)@ == old(out)@ + all_rows(row_views(rows@)),
{
    let ghost start = out@;
    let ghost views = row_views(rows@);
    let mut i: usize = 0;
    assert(start =~= start + rows_text(views, 0));
    while i < rows.len()
        invariant
            i <= rows.len(),
            views == row_views(rows@),
            out@ == start + rows_text(views, i as int),
        decreases rows.len() - i,
    {
        if i > 0 {
            push_text(out, ",");
        }
        push_row(out, &rows[i]);
        assert(out@ =~= start + rows_text(views, i + 1));
        i = i + 1;
    }
}

// ---- the header ------------------------------------------------------------

/// What a viewer calls a run class.
pub open spec fn class_text(run_class: u32) -> Seq<char> {
    if run_class == run_classes::ANT_EXPLORE {
        "explore"@
    } else if run_class == run_classes::ANT_FOLLOW_TRAIL {
        "follow-trail"@
    } else if run_class == run_classes::ANT_CARRY_FOOD {
        "carry-food"@
    } else if run_class == run_classes::ANT_RETURN_HOME {
        "return-home"@
    } else if run_class == run_classes::ANT_AVOID_OBSTACLE {
        "avoid-obstacle"@
    } else if run_class == run_classes::ANT_WAIT {
        "wait"@
    } else if run_class == run_classes::COLONY_AGGREGATE {
        "colony-aggregate"@
    } else {
        "world-step"@
    }
}

/// The table of the first `n` run classes, so that a viewer need not know any.
pub open spec fn class_table(n: int) -> Seq<char>
    decreases n,
{
    if n <= 0 {
        Seq::empty()
    } else {
        let run_class = (ANT_BASE + n - 1) as u32;
        class_table(n - 1) + (if n > 1 {
            ","@
        } else {
            Seq::empty()
        }) + "\""@ + text::decimal(run_class as nat) + "\":\""@ + class_text(run_class) + "\""@
    }
}

fn push_classes(out: &mut String)
    ensures
        final(out)@ == old(out)@ + class_table(8),
{
    let ghost start = out@;
    let mut n: u32 = 0;
    assert(start =~= start + class_table(0));
    while n < 8
        invariant
            n <= 8,
            out@ == start + class_table(n as int),
        decreases 8 - n,
    {
        let run_class: u32 = ANT_BASE + n;
        if n > 0 {
            push_text(out, ",");
        }
        push_text(out, "\"");
        push_decimal(out, run_class as u64);
        push_text(out, "\":\"");
        match ant_class_name(run_class) {
            Some(name) => {
                assert(name@ == class_text(run_class));
                push_text(out, name);
            },
            None => {},
        }
        push_text(out, "\"");
        assert(out@ =~= start + class_table(n + 1));
        n = n + 1;
    }
}

pub open spec fn header_of(
    knobs: ColonyKnobs,
    options: ExportOptions,
    ants: u64,
    nests: Seq<Seq<u64>>,
    food: Seq<Seq<u64>>,
    obstacles: Seq<u8>,
) -> Seq<char> {
    all_pairs(
        seq![
            ("{\"kind\":\"header\",\"width\":", knobs.width as u64),
            (",\"height\":", knobs.height as u64),
            (",\"colonies\":", knobs.colonies as u64),
            (",\"ants\":", ants),
            (",\"epochs\":", knobs.epochs as u64),
            (",\"seed\":", knobs.seed),
        ],
    ) + ",\"mode\":\""@ + mode_text(options.mode) + "\""@ + all_pairs(
        seq![
            (",\"lane_width\":", options.cohort_width as u64),
            (",\"field_stride\":", options.field_stride as u64),
            (",\"ant_sample\":", options.ant_sample as u64),
        ],
    ) + ",\"nests\":["@ + all_rows(nests) + "],\"food\":["@ + all_rows(food)
        + "],\"obstacles\":\""@ + base64_of(obstacles) + "\",\"run_classes\":{"@ + class_table(8)
        + "}}\n"@
}

/// The first line: the world, the options, nests as `[x,y,ants]`, food as
/// `[x,y,radius]`, and the obstacle bitmap.
pub fn header_line(
    knobs: &ColonyKnobs,
    options: &ExportOptions,
    ants: u64,
    nests: &Vec<Vec<u64>>,
    food: &Vec<Vec<u64>>,
    obstacles: &[u8],
) -> (out: String)
    ensures
        out@ == header_of(
            *knobs,
            *options,
            ants,
            row_views(nests@),
            row_views(food@),
            obstacles@,
        ),
{
    let mut out: String = String::new();
    let world: Vec<(&'static str, u64)> = vec![
        ("{\"kind\":\"header\",\"width\":", knobs.width as u64),
        (",\"height\":", knobs.height as u64),
        (",\"colonies\":", knobs.colonies as u64),
        (",\"ants\":", ants),
        (",\"epochs\":", knobs.epochs as u64),
        (",\"seed\":", knobs.seed),
    ];
    push_pairs(&mut out, &world);
    push_text(&mut out, ",\"mode\":\"");
    push_text(&mut out, mode_name(options.mode));
    push_text(&mut out, "\"");
    let asked: Vec<(&'static str, u64)> = vec![
        (",\"lane_width\":", options.cohort_width as u64),
        (",\"field_stride\":", options.field_stride as u64),
        (",\"ant_sample\":", options.ant_sample as u64),
    ];
    push_pairs(&mut out, &asked);
    push_text(&mut out, ",\"nests\":[");
    push_rows(&mut out, nests);
    push_text(&mut out, "],\"food\":[");
    push_rows(&mut out, food);
    push_text(&mut out, "],\"obstacles\":\"");
    let bitmap: String = base64(obstacles);
    push_text(&mut out, bitmap.as_str());
    push_text(&mut out, "\",\"run_classes\":{");
    push_classes(&mut out);
    push_text(&mut out, "}}\n");
    proof {
        assert(world@ =~= seq![
            ("{\"kind\":\"header\",\"width\":", knobs.width as u64),
            (",\"height\":", knobs.height as u64),
            (",\"colonies\":", knobs.colonies as u64),
            (",\"ants\":", ants),
            (",\"epochs\":", knobs.epochs as u64),
            (",\"seed\":", knobs.seed),
        ]);
        assert(asked@ =~= seq![
            (",\"lane_width\":", options.cohort_width as u64),
            (",\"field_stride\":", options.field_stride as u64),
            (",\"ant_sample\":", options.ant_sample as u64),
        ]);
        assert(Seq::<char>::empty() + all_pairs(world@) =~= all_pairs(world@));
    }
    out
}

// ---- an epoch --------------------------------------------------------------

/// No counter went down between two readings.
pub open spec fn not_before(later: Accounting, earlier: Accounting) -> bool {
    &&& earlier.cohorts <= later.cohorts
    &&& earlier.lane_slots <= later.lane_slots
    &&& earlier.useful_lane_slots <= later.useful_lane_slots
    &&& earlier.full_cohorts <= later.full_cohorts
    &&& earlier.steps <= later.steps
    &&& earlier.deferred_lanes <= later.deferred_lanes
}

/// Whether the counters of one reading are none below those of another.
pub fn is_later(later: &Accounting, earlier: &Accounting) -> (is: bool)
    ensures
        is == not_before(*later, *earlier),
{
    earlier.cohorts <= later.cohorts && earlier.lane_slots <= later.lane_slots
        && earlier.useful_lane_slots <= later.useful_lane_slots && earlier.full_cohorts
        <= later.full_cohorts && earlier.steps <= later.steps && earlier.deferred_lanes
        <= later.deferred_lanes
}

/// What an epoch added to the counters.
pub open spec fn added(later: Accounting, earlier: Accounting) -> Accounting {
    Accounting {
        cohorts: (later.cohorts - earlier.cohorts) as u64,
        lane_slots: (later.lane_slots - earlier.lane_slots) as u64,
        useful_lane_slots: (later.useful_lane_slots - earlier.useful_lane_slots) as u64,
        full_cohorts: (later.full_cohorts - earlier.full_cohorts) as u64,
        steps: (later.steps - earlier.steps) as u64,
        deferred_lanes: (later.deferred_lanes - earlier.deferred_lanes) as u64,
    }
}

pub fn since(later: &Accounting, earlier: &Accounting) -> (delta: Accounting)
    requires
        not_before(*later, *earlier),
    ensures
        delta == added(*later, *earlier),
{
    Accounting {
        cohorts: later.cohorts - earlier.cohorts,
        lane_slots: later.lane_slots - earlier.lane_slots,
        useful_lane_slots: later.useful_lane_slots - earlier.useful_lane_slots,
        full_cohorts: later.full_cohorts - earlier.full_cohorts,
        steps: later.steps - earlier.steps,
        deferred_lanes: later.deferred_lanes - earlier.deferred_lanes,
    }
}

/// The cohorts among the first `n` events, as `[run class, lanes]`.
pub open spec fn cohort_rows(events: Seq<TraceEvent>, n: int) -> Seq<Seq<u64>>
    decreases n,
{
    if n <= 0 {
        Seq::empty()
    } else {
        let before = cohort_rows(events, n - 1);
        let event = events[n - 1];
        if event.kind == EventKind::CohortCreated {
            before.push(seq![event.run_class as u64, event.auxiliary])
        } else {
            before
        }
    }
}

/// What an epoch's trace comes to.
#[derive(Debug)]
pub struct Tally {
    pub cohorts: Vec<Vec<u64>>,
    pub failures: u64,
    pub notices: u64,
    pub restarts: u64,
}

pub open spec fn is_tally(tally: Tally, events: Seq<TraceEvent>, n: int) -> bool {
    &&& row_views(tally.cohorts@) == cohort_rows(events, n)
    &&& tally.failures == kernel::events_of(events, EventKind::ProcessFailed, n)
    &&& tally.notices == kernel::events_of(events, EventKind::SupervisionNotified, n)
    &&& tally.restarts == kernel::events_of(events, EventKind::ProcessRestarted, n)
}

pub fn tally_events(events: &Vec<TraceEvent>) -> (tally: Tally)
    ensures
        is_tally(tally, events@, events@.len() as int),
{
    let mut tally = Tally { cohorts: Vec::new(), failures: 0, notices: 0, restarts: 0 };
    let mut i: usize = 0;
    assert(row_views(tally.cohorts@) =~= cohort_rows(events@, 0));
    while i < events.len()
        invariant
            i <= events.len(),
            is_tally(tally, events@, i as int),
            tally.failures <= i,
            tally.notices <= i,
            tally.restarts <= i,
        decreases events.len() - i,
    {
        let event: TraceEvent = events[i];
        match event.kind {
            EventKind::CohortCreated => {
                let row: Vec<u64> = vec![event.run_class as u64, event.auxiliary];
                let ghost held = row_views(tally.cohorts@);
                tally.cohorts.push(row);
                proof {
                    assert(row@ =~= seq![event.run_class as u64, event.auxiliary]);
                    assert(row_views(tally.cohorts@) =~= held.push(row@));
                }
            },
            EventKind::ProcessFailed => {
                tally.failures = tally.failures + 1;
            },
            EventKind::SupervisionNotified => {
                tally.notices = tally.notices + 1;
            },
            EventKind::ProcessRestarted => {
                tally.restarts = tally.restarts + 1;
            },
            EventKind::Other => {},
        }
        i = i + 1;
    }
    tally
}

/// Every so many ants are looked at, so that no more than the sample are.
pub open spec fn stride_of(ants: int, sample: int) -> int {
    if sample == 0 || ants == 0 {
        1
    } else {
        (ants + sample - 1) / sample
    }
}

/// The living ants among those looked at below `n`, as
/// `[id, x, y, carrying, run class]`.
pub open spec fn ant_rows(ants: Seq<AntView>, stride: int, n: int) -> Seq<Seq<u64>>
    decreases n,
{
    if n <= 0 {
        Seq::empty()
    } else {
        let before = ant_rows(ants, stride, n - 1);
        let ant = ants[n - 1];
        if (n - 1) % stride == 0 && ant.alive {
            before.push(
                seq![
                    ant.id as u64,
                    ant.x as u64,
                    ant.y as u64,
                    if ant.carrying {
                        1
                    } else {
                        0
                    },
                    ant.run_class as u64,
                ],
            )
        } else {
            before
        }
    }
}

pub open spec fn alive_among(ants: Seq<AntView>, n: int) -> int
    decreases n,
{
    if n <= 0 {
        0
    } else {
        alive_among(ants, n - 1) + if ants[n - 1].alive {
            1int
        } else {
            0
        }
    }
}

/// How many ants are alive.
pub fn alive_count(ants: &Vec<AntView>) -> (alive: u64)
    ensures
        alive == alive_among(ants@, ants@.len() as int),
{
    let mut alive: u64 = 0;
    let mut i: usize = 0;
    while i < ants.len()
        invariant
            i <= ants.len(),
            alive <= i,
            alive == alive_among(ants@, i as int),
        decreases ants.len() - i,
    {
        if ants[i].alive {
            alive = alive + 1;
        }
        i = i + 1;
    }
    alive
}

fn sampled_ants(ants: &Vec<AntView>, sample: u32) -> (out: (Vec<Vec<u64>>, u64))
    requires
        ants@.len() <= u32::MAX,
    ensures
        row_views(out.0@) == ant_rows(
            ants@,
            stride_of(ants@.len() as int, sample as int),
            ants@.len() as int,
        ),
        out.1 == alive_among(ants@, ants@.len() as int),
{
    let count: u64 = ants.len() as u64;
    let stride: u64 = if sample == 0 || count == 0 {
        1
    } else {
        (count + sample as u64 - 1) / sample as u64
    };
    proof {
        if sample != 0 && count != 0 {
            let s = sample as int;
            let c = count as int;
            assert((c + s - 1) / s >= 1) by (nonlinear_arith)
                requires
                    c >= 1,
                    s >= 1,
            ;
        }
    }
    let mut rows: Vec<Vec<u64>> = Vec::new();
    let mut alive: u64 = 0;
    let mut i: usize = 0;
    assert(row_views(rows@) =~= ant_rows(ants@, stride as int, 0));
    while i < ants.len()
        invariant
            i <= ants.len() <= u32::MAX,
            stride >= 1,
            alive <= i,
            alive == alive_among(ants@, i as int),
            row_views(rows@) == ant_rows(ants@, stride as int, i as int),
        decreases ants.len() - i,
    {
        let ant: AntView = ants[i];
        if ant.alive {
            alive = alive + 1;
            if i as u64 % stride == 0 {
                let carrying: u64 = if ant.carrying {
                    1
                } else {
                    0
                };
                let row: Vec<u64> = vec![
                    ant.id as u64,
                    ant.x as u64,
                    ant.y as u64,
                    carrying,
                    ant.run_class as u64,
                ];
                let ghost held = row_views(rows@);
                rows.push(row);
                proof {
                    assert(row@ =~= seq![
                        ant.id as u64,
                        ant.x as u64,
                        ant.y as u64,
                        carrying,
                        ant.run_class as u64,
                    ]);
                    assert(row_views(rows@) =~= held.push(row@));
                }
            }
        }
        i = i + 1;
    }
    (rows, alive)
}

/// No more ants are shown than the sample, where there is one.
pub proof fn law_a_sample_is_kept(ants: Seq<AntView>, sample: int)
    requires
        sample >= 1,
    ensures
        ant_rows(ants, stride_of(ants.len() as int, sample), ants.len() as int).len() <= sample,
{
    let n = ants.len() as int;
    let stride = stride_of(n, sample);
    if n > 0 {
        assert(stride >= 1 && stride * sample >= n) by (nonlinear_arith)
            requires
                n >= 1,
                sample >= 1,
                stride == (n + sample - 1) / sample,
        ;
        lemma_rows_bound(ants, stride, n);
        let shown = (n + stride - 1) / stride;
        assert(shown <= sample) by (nonlinear_arith)
            requires
                shown == (n + stride - 1) / stride,
                stride >= 1,
                stride * sample >= n,
        ;
    }
}

proof fn lemma_rows_bound(ants: Seq<AntView>, stride: int, n: int)
    requires
        stride >= 1,
        0 <= n,
    ensures
        ant_rows(ants, stride, n).len() <= (n + stride - 1) / stride,
    decreases n,
{
    if n > 0 {
        lemma_rows_bound(ants, stride, n - 1);
        let a = n + stride - 2;
        if (n - 1) % stride == 0 {
            assert((a + 1) / stride == a / stride + 1) by (nonlinear_arith)
                requires
                    (a - (stride - 1)) % stride == 0,
                    a == (a - (stride - 1)) + stride - 1,
                    stride >= 1,
            ;
        } else {
            assert((a + 1) / stride >= a / stride) by (nonlinear_arith)
                requires
                    stride >= 1,
            ;
        }
    } else {
        assert((stride - 1) / stride == 0) by (nonlinear_arith)
            requires
                stride >= 1,
        ;
    }
}

pub open spec fn epoch_text(
    epoch: u32,
    ants: Seq<AntView>,
    sample: u32,
    bins: Seq<Seq<u64>>,
    cohorts: Seq<Seq<u64>>,
    tally: Tally,
    delta: Accounting,
) -> Seq<char> {
    let rows = ant_rows(
        ants,
        stride_of(ants.len() as int, sample as int),
        ants.len() as int,
    );
    all_pairs(seq![("{\"kind\":\"epoch\",\"epoch\":", epoch as u64)]) + ",\"ants\":["@ + all_rows(
        rows,
    ) + "]"@ + all_pairs(
        seq![
            (",\"ants_shown\":", rows.len() as u64),
            (",\"ants_alive\":", alive_among(ants, ants.len() as int) as u64),
        ],
    ) + ",\"bins\":["@ + all_rows(bins) + "],\"cohorts\":["@ + all_rows(cohorts) + "]"@ + all_pairs(
        seq![
            (",\"metrics\":{\"dispatches\":", delta.cohorts),
            (",\"lane_slots\":", delta.lane_slots),
            (",\"useful_lane_slots\":", delta.useful_lane_slots),
            (",\"full_cohorts\":", delta.full_cohorts),
            (",\"steps\":", delta.steps),
            (",\"deferred\":", delta.deferred_lanes),
            (",\"failures\":", tally.failures),
            (",\"notices\":", tally.notices),
            (",\"restarts\":", tally.restarts),
        ],
    ) + ",\"host_launches\":0}}\n"@
}

/// The line of an epoch: its ants, the ready continuations of each run class,
/// the cohorts that were dispatched, and what the epoch added to the counters.
pub fn epoch_line(
    epoch: u32,
    ants: &Vec<AntView>,
    sample: u32,
    bins: &Vec<Vec<u64>>,
    tally: &Tally,
    delta: &Accounting,
) -> (out: String)
    requires
        ants@.len() <= u32::MAX,
    ensures
        out@ == epoch_text(
            epoch,
            ants@,
            sample,
            row_views(bins@),
            row_views(tally.cohorts@),
            *tally,
            *delta,
        ),
{
    let mut out: String = String::new();
    let (rows, alive) = sampled_ants(ants, sample);
    let head: Vec<(&'static str, u64)> = vec![("{\"kind\":\"epoch\",\"epoch\":", epoch as u64)];
    push_pairs(&mut out, &head);
    push_text(&mut out, ",\"ants\":[");
    push_rows(&mut out, &rows);
    push_text(&mut out, "]");
    let counts: Vec<(&'static str, u64)> = vec![
        (",\"ants_shown\":", rows.len() as u64),
        (",\"ants_alive\":", alive),
    ];
    push_pairs(&mut out, &counts);
    push_text(&mut out, ",\"bins\":[");
    push_rows(&mut out, bins);
    push_text(&mut out, "],\"cohorts\":[");
    push_rows(&mut out, &tally.cohorts);
    push_text(&mut out, "]");
    let metrics: Vec<(&'static str, u64)> = vec![
        (",\"metrics\":{\"dispatches\":", delta.cohorts),
        (",\"lane_slots\":", delta.lane_slots),
        (",\"useful_lane_slots\":", delta.useful_lane_slots),
        (",\"full_cohorts\":", delta.full_cohorts),
        (",\"steps\":", delta.steps),
        (",\"deferred\":", delta.deferred_lanes),
        (",\"failures\":", tally.failures),
        (",\"notices\":", tally.notices),
        (",\"restarts\":", tally.restarts),
    ];
    push_pairs(&mut out, &metrics);
    push_text(&mut out, ",\"host_launches\":0}}\n");
    proof {
        let shown = ant_rows(
            ants@,
            stride_of(ants@.len() as int, sample as int),
            ants@.len() as int,
        );
        assert(shown.len() == rows@.len());
        assert(head@ =~= seq![("{\"kind\":\"epoch\",\"epoch\":", epoch as u64)]);
        assert(counts@ =~= seq![
            (",\"ants_shown\":", shown.len() as u64),
            (",\"ants_alive\":", alive_among(ants@, ants@.len() as int) as u64),
        ]);
        assert(metrics@ =~= seq![
            (",\"metrics\":{\"dispatches\":", delta.cohorts),
            (",\"lane_slots\":", delta.lane_slots),
            (",\"useful_lane_slots\":", delta.useful_lane_slots),
            (",\"full_cohorts\":", delta.full_cohorts),
            (",\"steps\":", delta.steps),
            (",\"deferred\":", delta.deferred_lanes),
            (",\"failures\":", tally.failures),
            (",\"notices\":", tally.notices),
            (",\"restarts\":", tally.restarts),
        ]);
        assert(Seq::<char>::empty() + all_pairs(head@) =~= all_pairs(head@));
    }
    out
}

// ---- the field -------------------------------------------------------------

/// The strongest trail of the first `n` cells, at least one.
pub open spec fn strongest(field: Seq<u8>, cells: int, trail: int, n: int) -> u16
    decreases n,
{
    if n <= 0 {
        1
    } else {
        let before = strongest(field, cells, trail, n - 1);
        let here = colony::trail_at(field, cells, trail, n - 1);
        if here > before {
            here
        } else {
            before
        }
    }
}

/// A trail scaled to its own maximum, a byte for each cell.
pub open spec fn scaled(field: Seq<u8>, cells: int, trail: int) -> Seq<u8> {
    let top = strongest(field, cells, trail, cells) as int;
    Seq::new(
        cells as nat,
        |i: int| ((colony::trail_at(field, cells, trail, i) as int * 255) / top) as u8,
    )
}

proof fn lemma_strongest(field: Seq<u8>, cells: int, trail: int, n: int, i: int)
    requires
        0 <= i < n,
    ensures
        1 <= strongest(field, cells, trail, n),
        colony::trail_at(field, cells, trail, i) <= strongest(field, cells, trail, n),
    decreases n,
{
    lemma_strongest_positive(field, cells, trail, n - 1);
    if i < n - 1 {
        lemma_strongest(field, cells, trail, n - 1, i);
    }
}

proof fn lemma_strongest_positive(field: Seq<u8>, cells: int, trail: int, n: int)
    ensures
        1 <= strongest(field, cells, trail, n),
    decreases n,
{
    if n > 0 {
        lemma_strongest_positive(field, cells, trail, n - 1);
    }
}

fn quantised(field: &[u8], cells: usize, trail: usize) -> (out: (u16, Vec<u8>))
    requires
        trail <= 1,
        4 * cells <= usize::MAX,
    ensures
        out.0 == strongest(field@, cells as int, trail as int, cells as int),
        out.1@ == scaled(field@, cells as int, trail as int),
{
    let mut top: u16 = 1;
    let mut i: usize = 0;
    while i < cells
        invariant
            i <= cells,
            trail <= 1,
            4 * cells <= usize::MAX,
            top >= 1,
            top == strongest(field@, cells as int, trail as int, i as int),
        decreases cells - i,
    {
        proof {
            lemma_trail_fits(cells as int, trail as int, i as int);
        }
        let here: u16 = read_trail(field, cells, trail, i);
        if here > top {
            top = here;
        }
        i = i + 1;
    }
    let ghost goal = scaled(field@, cells as int, trail as int);
    let mut out: Vec<u8> = Vec::new();
    let mut i: usize = 0;
    while i < cells
        invariant
            i <= cells,
            trail <= 1,
            4 * cells <= usize::MAX,
            top >= 1,
            top == strongest(field@, cells as int, trail as int, cells as int),
            goal == scaled(field@, cells as int, trail as int),
            out@ =~= goal.take(i as int),
        decreases cells - i,
    {
        proof {
            lemma_trail_fits(cells as int, trail as int, i as int);
            lemma_strongest(field@, cells as int, trail as int, cells as int, i as int);
        }
        let here: u32 = read_trail(field, cells, trail, i) as u32;
        let level: u32 = (here * 255) / top as u32;
        proof {
            let h = here as int;
            let t = top as int;
            assert((h * 255) / t <= 255) by (nonlinear_arith)
                requires
                    0 <= h <= t,
                    t >= 1,
            ;
        }
        out.push(level as u8);
        i = i + 1;
    }
    assert(goal.take(cells as int) =~= goal);
    (top, out)
}

proof fn lemma_trail_fits(cells: int, trail: int, i: int)
    requires
        0 <= i < cells,
        0 <= trail <= 1,
        4 * cells <= usize::MAX,
    ensures
        colony::trail_offset(cells, trail, i) < usize::MAX,
{
    assert(0 <= trail * cells <= cells) by (nonlinear_arith)
        requires
            0 <= trail <= 1,
            0 <= cells,
    ;
}

/// No scaled trail exceeds a byte, and the strongest one fills it where there
/// is any trail at all.
pub proof fn law_the_strongest_trail_fills_a_byte(field: Seq<u8>, cells: int, trail: int, i: int)
    requires
        0 <= i < cells,
        colony::trail_at(field, cells, trail, i) == strongest(field, cells, trail, cells),
    ensures
        scaled(field, cells, trail)[i] == 255,
{
    lemma_strongest(field, cells, trail, cells, i);
    let t = strongest(field, cells, trail, cells) as int;
    assert((t * 255) / t == 255) by (nonlinear_arith)
        requires
            t >= 1,
    ;
}

pub open spec fn field_text(epoch: u32, field: Seq<u8>, cells: int) -> Seq<char> {
    let food_max = strongest(field, cells, 0, cells);
    let home_max = strongest(field, cells, 1, cells);
    all_pairs(
        seq![
            ("{\"kind\":\"field\",\"epoch\":", epoch as u64),
            (",\"food_max\":", food_max as u64),
            (",\"home_max\":", home_max as u64),
        ],
    ) + ",\"food\":\""@ + base64_of(scaled(field, cells, 0)) + "\",\"home\":\""@ + base64_of(
        scaled(field, cells, 1),
    ) + "\"}\n"@
}

/// The line of the field: both trails, a byte for each cell, and what they were
/// scaled by.
pub fn field_line(epoch: u32, field: &[u8], cells: usize) -> (out: String)
    requires
        4 * cells <= usize::MAX,
    ensures
        out@ == field_text(epoch, field@, cells as int),
{
    let (food_max, food) = quantised(field, cells, TRAIL_FOOD);
    let (home_max, home) = quantised(field, cells, TRAIL_HOME);
    let mut out: String = String::new();
    let head: Vec<(&'static str, u64)> = vec![
        ("{\"kind\":\"field\",\"epoch\":", epoch as u64),
        (",\"food_max\":", food_max as u64),
        (",\"home_max\":", home_max as u64),
    ];
    push_pairs(&mut out, &head);
    push_text(&mut out, ",\"food\":\"");
    let letters: String = base64(food.as_slice());
    push_text(&mut out, letters.as_str());
    push_text(&mut out, "\",\"home\":\"");
    let letters: String = base64(home.as_slice());
    push_text(&mut out, letters.as_str());
    push_text(&mut out, "\"}\n");
    proof {
        assert(head@ =~= seq![
            ("{\"kind\":\"field\",\"epoch\":", epoch as u64),
            (",\"food_max\":", food_max as u64),
            (",\"home_max\":", home_max as u64),
        ]);
        assert(Seq::<char>::empty() + all_pairs(head@) =~= all_pairs(head@));
    }
    out
}

// ---- the summary -----------------------------------------------------------

/// What an exported run amounted to.
#[derive(Clone, Copy, Debug, PartialEq, Eq, Structural)]
pub struct ExportSummary {
    pub epochs: u32,
    pub ants_alive: u64,
    pub delivered: u64,
    pub dispatches: u64,
    pub lane_slots: u64,
    pub useful_lane_slots: u64,
    pub food_trail: u64,
    pub home_trail: u64,
    pub struck: u64,
    /// Events that the run produced and the export consumed.
    pub trace_events_streamed: u64,
    /// Events that the export's own reads produced.
    pub trace_events_observed: u64,
    /// Events that nobody consumed.
    pub trace_events_dropped: u64,
}

impl ExportSummary {
    /// Whether the export saw every event that the run produced.
    pub fn is_complete(&self) -> (complete: bool)
        ensures
            complete == (self.trace_events_dropped == 0),
    {
        self.trace_events_dropped == 0
    }
}

/// What is left of the events taken when the observer's own are set aside.
pub open spec fn streamed_of(taken: u64, observed: u64) -> u64 {
    if taken >= observed {
        (taken - observed) as u64
    } else {
        0
    }
}

pub fn streamed(taken: u64, observed: u64) -> (events: u64)
    ensures
        events == streamed_of(taken, observed),
{
    if taken >= observed {
        taken - observed
    } else {
        0
    }
}

pub open spec fn summary_text(s: ExportSummary, occupancy: Seq<char>) -> Seq<char> {
    all_pairs(
        seq![
            ("{\"kind\":\"summary\",\"epochs\":", s.epochs as u64),
            (",\"ants_alive\":", s.ants_alive),
            (",\"delivered\":", s.delivered),
            (",\"dispatches\":", s.dispatches),
        ],
    ) + ",\"lane_occupancy\":"@ + occupancy + all_pairs(
        seq![
            (",\"food_trail\":", s.food_trail),
            (",\"home_trail\":", s.home_trail),
            (",\"struck\":", s.struck),
            (",\"trace_events_streamed\":", s.trace_events_streamed),
            (",\"trace_events_observed\":", s.trace_events_observed),
            (",\"trace_events_dropped\":", s.trace_events_dropped),
        ],
    ) + "}\n"@
}

/// The last line. The occupancy is a fraction in text.
pub fn summary_line(s: &ExportSummary, occupancy: &str) -> (out: String)
    ensures
        out@ == summary_text(*s, occupancy@),
{
    let mut out: String = String::new();
    let head: Vec<(&'static str, u64)> = vec![
        ("{\"kind\":\"summary\",\"epochs\":", s.epochs as u64),
        (",\"ants_alive\":", s.ants_alive),
        (",\"delivered\":", s.delivered),
        (",\"dispatches\":", s.dispatches),
    ];
    push_pairs(&mut out, &head);
    push_text(&mut out, ",\"lane_occupancy\":");
    push_text(&mut out, occupancy);
    let rest: Vec<(&'static str, u64)> = vec![
        (",\"food_trail\":", s.food_trail),
        (",\"home_trail\":", s.home_trail),
        (",\"struck\":", s.struck),
        (",\"trace_events_streamed\":", s.trace_events_streamed),
        (",\"trace_events_observed\":", s.trace_events_observed),
        (",\"trace_events_dropped\":", s.trace_events_dropped),
    ];
    push_pairs(&mut out, &rest);
    push_text(&mut out, "}\n");
    proof {
        assert(head@ =~= seq![
            ("{\"kind\":\"summary\",\"epochs\":", s.epochs as u64),
            (",\"ants_alive\":", s.ants_alive),
            (",\"delivered\":", s.delivered),
            (",\"dispatches\":", s.dispatches),
        ]);
        assert(rest@ =~= seq![
            (",\"food_trail\":", s.food_trail),
            (",\"home_trail\":", s.home_trail),
            (",\"struck\":", s.struck),
            (",\"trace_events_streamed\":", s.trace_events_streamed),
            (",\"trace_events_observed\":", s.trace_events_observed),
            (",\"trace_events_dropped\":", s.trace_events_dropped),
        ]);
        assert(Seq::<char>::empty() + all_pairs(head@) =~= all_pairs(head@));
    }
    out
}

} // verus!

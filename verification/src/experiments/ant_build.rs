//! Laying out a colony and building it into a kernel.

use crate::bytes;
use crate::compiler::run_classes::{ANT_EXPLORE, COLONY_AGGREGATE, WORLD_STEP};
use crate::executives::placement;
use crate::experiments::ant_colony;
use crate::experiments::ant_colony::{
    split_mix, AntFrame, ColonyFrame, ColonyKnobs, ColonyView, FoodSource, Nest, Terrain,
    WorldFrame, WorldView, DEPOSIT_BYTES,
};
use crate::kernel;
use crate::kernel::{
    Call, ContinuationSpec, Kernel, ObjectKind, ProcessMode, Ref64, RuntimeError, SpecView,
    StateAccess,
};
use vstd::prelude::*;

verus! {

// ---- layout ----------------------------------------------------------------

/// The least number of columns from `c` on whose square lattice holds `count`.
pub open spec fn columns_from(count: int, c: int) -> int
    decreases count - c,
{
    if c * c >= count || c >= count {
        c
    } else {
        columns_from(count, c + 1)
    }
}

/// The span of one axis inside the margin, at least one cell.
pub open spec fn span_of(extent: u16) -> int {
    if extent - 12 > 1 {
        extent - 12
    } else {
        1
    }
}

pub open spec fn lattice_columns(knobs: ColonyKnobs) -> int {
    columns_from(
        if knobs.colonies > 1 {
            knobs.colonies as int
        } else {
            1
        },
        1,
    )
}

pub open spec fn lattice_rows(knobs: ColonyKnobs) -> int {
    let count = if knobs.colonies > 1 {
        knobs.colonies as int
    } else {
        1
    };
    (count + lattice_columns(knobs) - 1) / lattice_columns(knobs)
}

/// `v`, or the nearer end of `0..extent` where it lies outside.
pub open spec fn clamped(v: int, extent: u16) -> u16 {
    if v < 0 {
        0
    } else if v >= extent {
        (extent - 1) as u16
    } else {
        v as u16
    }
}

/// The largest jitter plus one, from the width of a lattice cell.
pub open spec fn jitter_of(step: int) -> int {
    if step > 2 {
        step / 2
    } else {
        1
    }
}

/// Nest `i`: on a lattice, with a deterministic jitter inside its cell.
pub open spec fn nest_of(knobs: ColonyKnobs, i: int) -> Nest {
    let step_x = span_of(knobs.width) / lattice_columns(knobs);
    let step_y = span_of(knobs.height) / lattice_rows(knobs);
    let rng = knobs.seed ^ ((i as u64) << 17) ^ 0x4E57_0000u64;
    let jx = drawn_below(ant_colony::rng_draw(rng), jitter_of(step_x));
    let jy = drawn_below(ant_colony::rng_draw(ant_colony::rng_step(rng)), jitter_of(step_y));
    (
        clamped(6 + (i % lattice_columns(knobs)) * step_x + step_x / 4 + jx, knobs.width),
        clamped(6 + (i / lattice_columns(knobs)) * step_y + step_y / 4 + jy, knobs.height),
    )
}

/// A draw reduced to `0..n`.
pub open spec fn drawn_below(drawn: u64, n: int) -> int {
    drawn as int % n
}

/// Food source `i`: three draws of the layout's stream.
pub open spec fn food_of(knobs: ColonyKnobs, i: int) -> FoodSource {
    let rng = ant_colony::rng_after(knobs.seed ^ 0x1A1D_0002, (3 * i) as nat);
    let second = ant_colony::rng_step(rng);
    let third = ant_colony::rng_step(second);
    (
        clamped(6 + drawn_below(ant_colony::rng_draw(rng), span_of(knobs.width)), knobs.width),
        clamped(6 + drawn_below(ant_colony::rng_draw(second), span_of(knobs.height)), knobs.height),
        (3 + ant_colony::rng_draw(third) % 3) as u16,
    )
}

pub open spec fn nests_of(knobs: ColonyKnobs) -> Seq<Nest> {
    Seq::new(knobs.colonies as nat, |i: int| nest_of(knobs, i))
}

pub open spec fn foods_of(knobs: ColonyKnobs) -> Seq<FoodSource> {
    Seq::new(knobs.food_sources as nat, |i: int| food_of(knobs, i))
}

/// The grid has cells for what is to be put on it.
pub open spec fn has_room(knobs: ColonyKnobs) -> bool {
    (knobs.colonies > 0 || knobs.food_sources > 0) ==> knobs.width > 0 && knobs.height > 0
}

/// Whether the grid has room for the nests and food sources that are asked for.
pub fn has_room_for(knobs: &ColonyKnobs) -> (has: bool)
    ensures
        has == has_room(*knobs),
{
    (knobs.colonies == 0 && knobs.food_sources == 0) || (knobs.width > 0 && knobs.height > 0)
}

proof fn lemma_columns(count: int, c: int)
    requires
        1 <= c <= count,
    ensures
        c <= columns_from(count, c) <= count,
    decreases count - c,
{
    if c * c < count && c < count {
        lemma_columns(count, c + 1);
    }
}

fn clamp_to(v: i32, extent: u16) -> (r: u16)
    requires
        extent > 0,
    ensures
        r == clamped(v as int, extent),
{
    if v < 0 {
        0
    } else if v >= extent as i32 {
        extent - 1
    } else {
        v as u16
    }
}

fn span(extent: u16) -> (s: i32)
    ensures
        s == span_of(extent),
        1 <= s <= 65535,
{
    let inner: i32 = extent as i32 - 12;
    if inner > 1 {
        inner
    } else {
        1
    }
}

fn jitter(step: i32, drawn: u64) -> (j: i32)
    requires
        0 <= step <= 65535,
    ensures
        j == drawn_below(drawn, jitter_of(step as int)),
        0 <= j <= 65535,
{
    let n: u64 = if step > 2 {
        (step / 2) as u64
    } else {
        1
    };
    (drawn % n) as i32
}

/// Where nests and food sources lie, spread across the grid.
pub fn layout(knobs: &ColonyKnobs) -> (places: (Vec<Nest>, Vec<FoodSource>))
    requires
        has_room(*knobs),
    ensures
        places.0@ == nests_of(*knobs),
        places.1@ == foods_of(*knobs),
{
    let span_x: i32 = span(knobs.width);
    let span_y: i32 = span(knobs.height);
    let count: i32 = if knobs.colonies > 1 {
        knobs.colonies as i32
    } else {
        1
    };
    let mut columns: i32 = 1;
    while columns < count && columns * columns < count
        invariant
            1 <= columns <= count <= 65535,
            columns_from(count as int, 1) == columns_from(count as int, columns as int),
            columns * columns <= 257 * 257,
            (columns - 1) * (columns - 1) < count,
        decreases count - columns,
    {
        proof {
            let c = columns as int;
            assert(c <= 256) by (nonlinear_arith)
                requires
                    c * c < 65536,
                    c >= 1,
            ;
            assert((c + 1) * (c + 1) <= 257 * 257) by (nonlinear_arith)
                requires
                    1 <= c <= 256,
            ;
        }
        columns = columns + 1;
    }
    let rows: i32 = (count + columns - 1) / columns;
    proof {
        lemma_columns(count as int, 1);
        assert(columns == lattice_columns(*knobs));
        assert(rows == lattice_rows(*knobs));
        assert(rows >= 1) by (nonlinear_arith)
            requires
                count >= 1,
                columns >= 1,
                rows == (count + columns - 1) / (columns as int),
        ;
    }
    let step_x: i32 = span_x / columns;
    let step_y: i32 = span_y / rows;
    let mut nests: Vec<Nest> = Vec::new();
    let mut i: u16 = 0;
    while i < knobs.colonies
        invariant
            i <= knobs.colonies,
            has_room(*knobs),
            count == if knobs.colonies > 1 {
                knobs.colonies as int
            } else {
                1
            },
            1 <= columns <= count,
            columns == lattice_columns(*knobs),
            rows == lattice_rows(*knobs),
            rows >= 1,
            rows == (count + columns - 1) / (columns as int),
            1 <= span_x <= 65535,
            1 <= span_y <= 65535,
            span_x == span_of(knobs.width),
            span_y == span_of(knobs.height),
            step_x == span_x / columns,
            step_y == span_y / rows,
            nests@ =~= nests_of(*knobs).take(i as int),
        decreases knobs.colonies - i,
    {
        let index: i32 = i as i32;
        let column: i32 = index % columns;
        let row: i32 = index / columns;
        proof {
            let (c, sx, cx) = (columns as int, span_x as int, column as int);
            assert(0 <= sx / c <= sx && cx * (sx / c) <= sx) by (nonlinear_arith)
                requires
                    0 <= cx < c,
                    1 <= sx,
            ;
            assert(0 <= cx * (sx / c)) by (nonlinear_arith)
                requires
                    0 <= cx,
                    0 <= sx / c,
            ;
            let (r, sy, n, at) = (rows as int, span_y as int, count as int, index as int);
            assert(at / c < r) by (nonlinear_arith)
                requires
                    0 <= at < n,
                    c >= 1,
                    r == (n + c - 1) / c,
            ;
            let ry = row as int;
            assert(0 <= ry < r);
            assert(0 <= sy / r <= sy && ry * (sy / r) <= sy) by (nonlinear_arith)
                requires
                    0 <= ry < r,
                    1 <= sy,
            ;
            assert(0 <= ry * (sy / r)) by (nonlinear_arith)
                requires
                    0 <= ry,
                    0 <= sy / r,
            ;
        }
        let mut cell_rng: u64 = knobs.seed ^ ((index as u64) << 17) ^ 0x4E57_0000u64;
        let first: u64 = split_mix(&mut cell_rng);
        let second: u64 = split_mix(&mut cell_rng);
        let jx: i32 = jitter(step_x, first);
        let jy: i32 = jitter(step_y, second);
        let x: i32 = 6 + column * step_x + step_x / 4 + jx;
        let y: i32 = 6 + row * step_y + step_y / 4 + jy;
        nests.push((clamp_to(x, knobs.width), clamp_to(y, knobs.height)));
        assert(nests@[i as int] == nest_of(*knobs, i as int));
        i = i + 1;
    }
    let mut food: Vec<FoodSource> = Vec::new();
    let mut rng: u64 = knobs.seed ^ 0x1A1D_0002;
    let mut n: u16 = 0;
    while n < knobs.food_sources
        invariant
            n <= knobs.food_sources,
            has_room(*knobs),
            1 <= span_x <= 65535,
            1 <= span_y <= 65535,
            span_x == span_of(knobs.width),
            span_y == span_of(knobs.height),
            rng == ant_colony::rng_after(knobs.seed ^ 0x1A1D_0002, (3 * n) as nat),
            food@ =~= foods_of(*knobs).take(n as int),
        decreases knobs.food_sources - n,
    {
        proof {
            reveal_with_fuel(ant_colony::rng_after, 4);
        }
        let a: u64 = split_mix(&mut rng) % (span_x as u64);
        let b: u64 = split_mix(&mut rng) % (span_y as u64);
        let c: u64 = split_mix(&mut rng) % 3;
        let x: i32 = 6 + a as i32;
        let y: i32 = 6 + b as i32;
        food.push((clamp_to(x, knobs.width), clamp_to(y, knobs.height), 3 + c as u16));
        assert(food@[n as int] == food_of(*knobs, n as int));
        n = n + 1;
    }
    (nests, food)
}

// ---- the built colony ------------------------------------------------------

/// One ant, as a harness finds it again.
#[derive(Clone, Copy, Debug, PartialEq, Eq, Structural)]
pub struct AntHandle {
    pub process: Ref64,
    pub continuation: Ref64,
    pub deposit: Ref64,
}

/// One colony: a supervisor process, the summary it owns, and its ants.
#[derive(Debug)]
pub struct ColonyHandle {
    pub process: Ref64,
    pub continuation: Ref64,
    pub summary: Ref64,
    pub ants: Vec<AntHandle>,
    pub nest: (u16, u16),
}

#[verifier::ext_equal]
pub ghost struct HandleView {
    pub process: Ref64,
    pub continuation: Ref64,
    pub summary: Ref64,
    pub ants: Seq<AntHandle>,
    pub nest: Nest,
}

impl View for ColonyHandle {
    type V = HandleView;

    open spec fn view(&self) -> HandleView {
        HandleView {
            process: self.process,
            continuation: self.continuation,
            summary: self.summary,
            ants: self.ants@,
            nest: self.nest,
        }
    }
}

/// Everything a consumer needs to read the run back out.
#[derive(Debug)]
pub struct AntColony {
    pub knobs: ColonyKnobs,
    pub world: Ref64,
    pub world_continuation: Ref64,
    pub terrain: Ref64,
    pub field_a: Ref64,
    pub field_b: Ref64,
    pub colonies: Vec<ColonyHandle>,
}

/// How many ants the first `n` colonies have.
pub open spec fn ants_in(colonies: Seq<ColonyHandle>, n: int) -> int
    decreases n,
{
    if n <= 0 {
        0
    } else {
        ants_in(colonies, n - 1) + colonies[n - 1].ants@.len()
    }
}

impl AntColony {
    pub open spec fn ant_total(&self) -> int {
        ants_in(self.colonies@, self.colonies@.len() as int)
    }

    pub fn ant_count(&self) -> (count: usize)
        requires
            self.ant_total() <= usize::MAX,
        ensures
            count == self.ant_total(),
    {
        let mut count: usize = 0;
        let mut i: usize = 0;
        while i < self.colonies.len()
            invariant
                i <= self.colonies.len(),
                count == ants_in(self.colonies@, i as int),
                self.ant_total() <= usize::MAX,
            decreases self.colonies.len() - i,
        {
            proof {
                lemma_ants_in_grows(self.colonies@, i + 1, self.colonies@.len() as int);
            }
            count = count + self.colonies[i].ants.len();
            i = i + 1;
        }
        count
    }

    /// The field buffer holding what ants read during `epoch`.
    pub open spec fn field_read(&self, epoch: u32) -> Ref64 {
        if epoch as int % 2 == 0 {
            self.field_a
        } else {
            self.field_b
        }
    }

    pub fn readable_field(&self, epoch: u32) -> (field: Ref64)
        ensures
            field == self.field_read(epoch),
    {
        if epoch % 2 == 0 {
            self.field_a
        } else {
            self.field_b
        }
    }
}

proof fn lemma_ants_in_grows(colonies: Seq<ColonyHandle>, a: int, b: int)
    requires
        0 <= a <= b,
    ensures
        ants_in(colonies, a) <= ants_in(colonies, b),
    decreases b - a,
{
    if a < b {
        lemma_ants_in_grows(colonies, a, b - 1);
    }
}

/// Steps that every participant may take: one per epoch of the run, and slack
/// for the epochs before and after it.
pub open spec fn budget_of(knobs: ColonyKnobs) -> u32 {
    if knobs.epochs > u32::MAX - 64 {
        u32::MAX
    } else {
        (knobs.epochs + 64) as u32
    }
}

fn ant_budget(knobs: &ColonyKnobs) -> (steps: u32)
    ensures
        steps == budget_of(*knobs),
{
    knobs.epochs.saturating_add(64)
}

/// The seed of an ant's generator.
pub open spec fn seed_of(knobs: ColonyKnobs, colony: u16, ant: u16) -> u64 {
    knobs.seed.wrapping_mul(0x9E37_79B9_7F4A_7C15).wrapping_add((colony as u64) << 32).wrapping_add(
        (ant + 1) as u64,
    )
}

/// A new ant: scattered around its nest rather than stacked on it.
pub open spec fn ant_of(
    knobs: ColonyKnobs,
    nest: Nest,
    colony: u16,
    ant: u16,
    deposit: Ref64,
    terrain: Ref64,
    field_a: Ref64,
    field_b: Ref64,
) -> AntFrame {
    let first = seed_of(knobs, colony, ant);
    let second = ant_colony::rng_step(first);
    let third = ant_colony::rng_step(second);
    AntFrame {
        id: (colony * knobs.ants_per_colony + ant) as u32,
        colony,
        x: clamped(nest.0 + ant_colony::rng_draw(first) % 7 - 3, knobs.width),
        y: clamped(nest.1 + ant_colony::rng_draw(second) % 7 - 3, knobs.height),
        home_x: nest.0,
        home_y: nest.1,
        width: knobs.width,
        height: knobs.height,
        rng: third,
        carrying: 0,
        heading: (ant_colony::rng_draw(third) % 8) as u8,
        wait_ticks: 0,
        wait_reset: knobs.wait_ticks,
        deposit_amount: knobs.deposit,
        sense_threshold: knobs.sense_threshold,
        delivered: 0,
        deposit,
        terrain,
        field_a,
        field_b,
    }
}

pub fn new_ant(
    knobs: &ColonyKnobs,
    nest: Nest,
    colony: u16,
    ant: u16,
    deposit: Ref64,
    terrain: Ref64,
    field_a: Ref64,
    field_b: Ref64,
) -> (frame: AntFrame)
    requires
        knobs.width > 0,
        knobs.height > 0,
        colony < knobs.colonies,
        ant < knobs.ants_per_colony,
    ensures
        frame == ant_of(*knobs, nest, colony, ant, deposit, terrain, field_a, field_b),
{
    let mut rng: u64 = knobs.seed.wrapping_mul(0x9E37_79B9_7F4A_7C15).wrapping_add(
        (colony as u64) << 32,
    ).wrapping_add(ant as u64 + 1);
    let first: u64 = split_mix(&mut rng) % 7;
    let second: u64 = split_mix(&mut rng) % 7;
    let mut peek: u64 = rng;
    let third: u64 = split_mix(&mut peek) % 8;
    proof {
        assert(colony * knobs.ants_per_colony <= 65535 * 65535) by (nonlinear_arith)
            requires
                colony <= 65535,
                knobs.ants_per_colony <= 65535,
        ;
        assert(0 <= colony * knobs.ants_per_colony) by (nonlinear_arith);
        assert(colony * knobs.ants_per_colony + ant <= u32::MAX);
    }
    let x: i32 = nest.0 as i32 + first as i32 - 3;
    let y: i32 = nest.1 as i32 + second as i32 - 3;
    AntFrame {
        id: colony as u32 * knobs.ants_per_colony as u32 + ant as u32,
        colony,
        x: clamp_to(x, knobs.width),
        y: clamp_to(y, knobs.height),
        home_x: nest.0,
        home_y: nest.1,
        width: knobs.width,
        height: knobs.height,
        rng,
        carrying: 0,
        heading: third as u8,
        wait_ticks: 0,
        wait_reset: knobs.wait_ticks,
        deposit_amount: knobs.deposit,
        sense_threshold: knobs.sense_threshold,
        delivered: 0,
        deposit,
        terrain,
        field_a,
        field_b,
    }
}

// ---- building --------------------------------------------------------------

/// The call at `at` makes a raw object of `owner` with these bytes.
pub open spec fn makes_object(k: Seq<Call>, at: int, owner: Ref64, content: Seq<u8>, made: Ref64) -> bool {
    k[at] == (Call::CreateObject {
        actor: owner,
        kind: ObjectKind::RawBytes,
        bytes: content,
        reply: made,
    })
}

/// The two calls at `at` grant read authority over the whole of `target`.
pub open spec fn grants(k: Seq<Call>, at: int, owner: Ref64, receiver: Ref64, target: Ref64) -> bool {
    &&& k[at] is ByteLength
    &&& k[at]->ByteLength_object == target
    &&& k[at]->ByteLength_reply is Ok
    &&& k[at + 1] == (Call::GrantRead {
        owner,
        receiver,
        target,
        length: k[at]->ByteLength_reply->Ok_0,
        reply: Ok(()),
    })
}

/// The call at `at` starts a root continuation of `process`.
pub open spec fn spawns(
    k: Seq<Call>,
    at: int,
    knobs: ColonyKnobs,
    process: Ref64,
    run_class: u32,
    content: Seq<u8>,
    made: Ref64,
) -> bool {
    k[at] == (Call::CreateContinuation {
        actor: kernel::system_principal(),
        process,
        spec: SpecView {
            access: StateAccess::ReadOnly,
            run_class,
            priority: 0,
            frame: content,
            max_steps: budget_of(knobs),
        },
        reply: Ok(made),
    })
}

pub open spec fn supervises(k: Seq<Call>, at: int, supervisor: Ref64, made: Ref64) -> bool {
    k[at] == (Call::Supervise { supervisor, mode: ProcessMode::Serial, reply: Ok(made) })
}

pub open spec fn zeros(n: int) -> Seq<u8> {
    Seq::new(n as nat, |i: int| 0u8)
}

/// The shared objects of a world.
#[verifier::ext_equal]
pub ghost struct Shared {
    pub world: Ref64,
    pub terrain: Ref64,
    pub field_a: Ref64,
    pub field_b: Ref64,
}

/// The eleven calls from `at` that make one ant: its process, its deposit and
/// who may read it, what it may read itself, and its continuation.
pub open spec fn ant_is_built(
    k: Seq<Call>,
    at: int,
    knobs: ColonyKnobs,
    shared: Shared,
    colony_process: Ref64,
    nest: Nest,
    colony: int,
    ant: int,
    handle: AntHandle,
) -> bool {
    &&& supervises(k, at, colony_process, handle.process)
    &&& makes_object(k, at + 1, handle.process, zeros(32), handle.deposit)
    &&& grants(k, at + 2, handle.process, colony_process, handle.deposit)
    &&& grants(k, at + 4, shared.world, handle.process, shared.terrain)
    &&& grants(k, at + 6, shared.world, handle.process, shared.field_a)
    &&& grants(k, at + 8, shared.world, handle.process, shared.field_b)
    &&& spawns(
        k,
        at + 10,
        knobs,
        handle.process,
        ANT_EXPLORE,
        ant_of(
            knobs,
            nest,
            colony as u16,
            ant as u16,
            handle.deposit,
            shared.terrain,
            shared.field_a,
            shared.field_b,
        ).encoded(),
        handle.continuation,
    )
}

pub open spec fn colony_calls(knobs: ColonyKnobs) -> int {
    11 * knobs.ants_per_colony + 5
}

pub open spec fn deposits_of(ants: Seq<AntHandle>) -> Seq<u64> {
    Seq::new(ants.len(), |i: int| ants[i].deposit.raw)
}

/// The calls from `at` that make one colony: its process and summary, its ants
/// in order, and then its continuation.
pub open spec fn colony_is_built(
    k: Seq<Call>,
    at: int,
    knobs: ColonyKnobs,
    shared: Shared,
    colony: int,
    handle: HandleView,
) -> bool {
    &&& handle.nest == nest_of(knobs, colony)
    &&& handle.ants.len() == knobs.ants_per_colony
    &&& supervises(k, at, shared.world, handle.process)
    &&& makes_object(
        k,
        at + 1,
        handle.process,
        zeros(2 * (4 + 8 * knobs.ants_per_colony)),
        handle.summary,
    )
    &&& grants(k, at + 2, handle.process, shared.world, handle.summary)
    &&& forall|j: int|
        0 <= j < handle.ants.len() ==> ant_is_built(
            k,
            at + 4 + 11 * j,
            knobs,
            shared,
            handle.process,
            handle.nest,
            colony,
            j,
            #[trigger] handle.ants[j],
        )
    &&& spawns(
        k,
        at + 4 + 11 * knobs.ants_per_colony,
        knobs,
        handle.process,
        COLONY_AGGREGATE,
        (ColonyView {
            id: colony as u16,
            summary: handle.summary,
            deposits: deposits_of(handle.ants),
        }).encoded(),
        handle.continuation,
    )
}

pub open spec fn summaries_of(colonies: Seq<ColonyHandle>) -> Seq<u64> {
    Seq::new(colonies.len(), |i: int| colonies[i].summary.raw)
}

/// `terrain` is an encoding of the layout of `knobs`.
pub open spec fn is_terrain(terrain: Seq<u8>, knobs: ColonyKnobs) -> bool {
    let head = ant_colony::terrain_head(knobs, nests_of(knobs), foods_of(knobs));
    &&& terrain.len() == head.len() + (knobs.cell_count() + 7) / 8
    &&& terrain.take(head.len() as int) == head
    &&& ant_colony::marks_blocked(terrain.skip(head.len() as int), knobs, knobs.cell_count())
}

/// The calls that make the world and what it shares.
pub open spec fn world_is_begun(k: Seq<Call>, knobs: ColonyKnobs, shared: Shared) -> bool {
    &&& k[0] == (Call::CreateProcess {
        actor: kernel::system_principal(),
        mode: ProcessMode::Serial,
        reply: Ok(shared.world),
    })
    &&& k[1] is CreateObject
    &&& is_terrain(k[1]->CreateObject_bytes, knobs)
    &&& makes_object(k, 1, shared.world, k[1]->CreateObject_bytes, shared.terrain)
    &&& makes_object(k, 2, shared.world, zeros(4 * knobs.cell_count()), shared.field_a)
    &&& makes_object(k, 3, shared.world, zeros(4 * knobs.cell_count()), shared.field_b)
}

/// What building a colony asks of the kernel, and what it hands back.
pub open spec fn is_built(k: Seq<Call>, knobs: ColonyKnobs, colony: AntColony) -> bool {
    let shared = Shared {
        world: colony.world,
        terrain: colony.terrain,
        field_a: colony.field_a,
        field_b: colony.field_b,
    };
    let end = 4 + colony_calls(knobs) * knobs.colonies;
    &&& colony.knobs == knobs
    &&& colony.colonies@.len() == knobs.colonies
    &&& k.len() == end + 1
    &&& world_is_begun(k, knobs, shared)
    &&& forall|c: int|
        0 <= c < knobs.colonies ==> colony_is_built(
            k,
            4 + colony_calls(knobs) * c,
            knobs,
            shared,
            c,
            (#[trigger] colony.colonies@[c])@,
        )
    &&& spawns(
        k,
        end,
        knobs,
        colony.world,
        WORLD_STEP,
        (WorldView {
            width: knobs.width,
            height: knobs.height,
            decay: knobs.decay,
            field_a: colony.field_a,
            field_b: colony.field_b,
            summaries: summaries_of(colony.colonies@),
        }).encoded(),
        colony.world_continuation,
    )
}

/// Why a call of the builder was refused, if it was.
pub open spec fn refused(call: Call) -> Option<RuntimeError> {
    match call {
        Call::CreateProcess { reply: Err(error), .. } => Some(error),
        Call::Supervise { reply: Err(error), .. } => Some(error),
        Call::ByteLength { reply: Err(error), .. } => Some(error),
        Call::GrantRead { reply: Err(error), .. } => Some(error),
        Call::CreateContinuation { reply: Err(error), .. } => Some(error),
        _ => None,
    }
}

/// A log grew, and ends in a refusal.
pub open spec fn ends_refused(before: Seq<Call>, after: Seq<Call>, error: RuntimeError) -> bool {
    &&& placement::grew(before, after)
    &&& before.len() < after.len()
    &&& refused(after.last()) == Some(error)
}

/// `l` goes on where `k` ends.
pub open spec fn continues(k: Seq<Call>, l: Seq<Call>) -> bool {
    k.len() <= l.len() && forall|i: int| 0 <= i < k.len() ==> k[i] == #[trigger] l[i]
}

proof fn lemma_ant_survives(
    k: Seq<Call>,
    l: Seq<Call>,
    at: int,
    knobs: ColonyKnobs,
    shared: Shared,
    colony_process: Ref64,
    nest: Nest,
    colony: int,
    ant: int,
    handle: AntHandle,
)
    requires
        continues(k, l),
        0 <= at,
        at + 11 <= k.len(),
        ant_is_built(k, at, knobs, shared, colony_process, nest, colony, ant, handle),
    ensures
        ant_is_built(l, at, knobs, shared, colony_process, nest, colony, ant, handle),
{
}

proof fn lemma_colony_survives(
    k: Seq<Call>,
    l: Seq<Call>,
    at: int,
    knobs: ColonyKnobs,
    shared: Shared,
    colony: int,
    handle: HandleView,
)
    requires
        continues(k, l),
        0 <= at,
        at + colony_calls(knobs) <= k.len(),
        colony_is_built(k, at, knobs, shared, colony, handle),
    ensures
        colony_is_built(l, at, knobs, shared, colony, handle),
{
    assert forall|j: int| 0 <= j < handle.ants.len() implies ant_is_built(
        l,
        at + 4 + 11 * j,
        knobs,
        shared,
        handle.process,
        handle.nest,
        colony,
        j,
        #[trigger] handle.ants[j],
    ) by {
        lemma_ant_survives(
            k,
            l,
            at + 4 + 11 * j,
            knobs,
            shared,
            handle.process,
            handle.nest,
            colony,
            j,
            handle.ants[j],
        );
    }
}

fn blank(n: usize) -> (out: Vec<u8>)
    ensures
        out@ == zeros(n as int),
{
    let out: Vec<u8> = vec![0u8; n];
    assert(out@ =~= zeros(n as int));
    out
}

fn grant_read<K: Kernel>(kernel: &mut K, owner: Ref64, receiver: Ref64, target: Ref64) -> (result:
    Result<(), RuntimeError>)
    ensures
        match result {
            Ok(_) => {
                &&& final(kernel).log().len() == old(kernel).log().len() + 2
                &&& continues(old(kernel).log(), final(kernel).log())
                &&& grants(
                    final(kernel).log(),
                    old(kernel).log().len() as int,
                    owner,
                    receiver,
                    target,
                )
            },
            Err(error) => ends_refused(old(kernel).log(), final(kernel).log(), error),
        },
{
    let ghost before = kernel.log();
    let measured = kernel.object_byte_length(target);
    assert(kernel.log().take(before.len() as int) =~= before);
    match measured {
        Ok(length) => {
            let granted = kernel.grant_read(owner, receiver, target, length);
            assert(kernel.log().take(before.len() as int) =~= before);
            match granted {
                Ok(unit) => {
                    assert(unit == ());
                    assert(kernel.log()[before.len() as int + 1] == (Call::GrantRead {
                        owner,
                        receiver,
                        target,
                        length,
                        reply: Ok(()),
                    }));
                    assert(kernel.log()[before.len() as int] == (Call::ByteLength {
                        object: target,
                        reply: Ok(length),
                    }));
                    Ok(unit)
                },
                Err(error) => Err(error),
            }
        },
        Err(error) => Err(error),
    }
}

fn spawn<K: Kernel>(
    kernel: &mut K,
    knobs: &ColonyKnobs,
    process: Ref64,
    run_class: u32,
    content: Vec<u8>,
) -> (result: Result<Ref64, RuntimeError>)
    ensures
        match result {
            Ok(made) => {
                &&& final(kernel).log().len() == old(kernel).log().len() + 1
                &&& continues(old(kernel).log(), final(kernel).log())
                &&& spawns(
                    final(kernel).log(),
                    old(kernel).log().len() as int,
                    *knobs,
                    process,
                    run_class,
                    content@,
                    made,
                )
            },
            Err(error) => ends_refused(old(kernel).log(), final(kernel).log(), error),
        },
{
    let ghost before = kernel.log();
    let spec = ContinuationSpec::new(
        StateAccess::ReadOnly,
        run_class,
        0,
        content,
        ant_budget(knobs),
    );
    let made = kernel.create_continuation(kernel::system(), process, spec);
    assert(kernel.log().take(before.len() as int) =~= before);
    made
}

/// What one ant needs to be told of its surroundings.
struct Site {
    knobs: ColonyKnobs,
    world: Ref64,
    terrain: Ref64,
    field_a: Ref64,
    field_b: Ref64,
}

impl Site {
    spec fn shared(&self) -> Shared {
        Shared {
            world: self.world,
            terrain: self.terrain,
            field_a: self.field_a,
            field_b: self.field_b,
        }
    }
}

proof fn lemma_grew(before: Seq<Call>, mid: Seq<Call>, after: Seq<Call>)
    requires
        continues(before, mid),
    ensures
        placement::grew(before, mid),
        continues(mid, after) ==> continues(before, after),
        placement::grew(mid, after) ==> placement::grew(before, after),
{
    assert(mid.take(before.len() as int) =~= before);
    if placement::grew(mid, after) {
        assert(after.take(before.len() as int) =~= after.take(mid.len() as int).take(
            before.len() as int,
        ));
    }
    if continues(mid, after) {
        assert forall|i: int| 0 <= i < before.len() implies before[i] == #[trigger] after[i] by {
            assert(mid[i] == after[i]);
        }
    }
}

fn build_ant<K: Kernel>(
    kernel: &mut K,
    site: &Site,
    colony_process: Ref64,
    nest: Nest,
    colony: u16,
    ant: u16,
) -> (result: Result<AntHandle, RuntimeError>)
    requires
        site.knobs.width > 0,
        site.knobs.height > 0,
        colony < site.knobs.colonies,
        ant < site.knobs.ants_per_colony,
    ensures
        match result {
            Ok(handle) => {
                &&& final(kernel).log().len() == old(kernel).log().len() + 11
                &&& continues(old(kernel).log(), final(kernel).log())
                &&& ant_is_built(
                    final(kernel).log(),
                    old(kernel).log().len() as int,
                    site.knobs,
                    site.shared(),
                    colony_process,
                    nest,
                    colony as int,
                    ant as int,
                    handle,
                )
            },
            Err(error) => ends_refused(old(kernel).log(), final(kernel).log(), error),
        },
{
    let ghost k0 = kernel.log();
    let supervised = kernel.create_supervised_process(colony_process, ProcessMode::Serial);
    let ghost k1 = kernel.log();
    proof {
        lemma_grew(k0, k1, k1);
    }
    let process: Ref64 = match supervised {
        Ok(process) => process,
        Err(error) => {
            return Err(error);
        },
    };
    let deposit: Ref64 = kernel.create_object(process, ObjectKind::RawBytes, blank(DEPOSIT_BYTES));
    let ghost k2 = kernel.log();
    let first = grant_read(kernel, process, colony_process, deposit);
    let ghost k3 = kernel.log();
    proof {
        lemma_grew(k0, k2, k3);
    }
    if let Err(error) = first {
        return Err(error);
    }
    let second = grant_read(kernel, site.world, process, site.terrain);
    let ghost k4 = kernel.log();
    proof {
        lemma_grew(k0, k3, k4);
    }
    if let Err(error) = second {
        return Err(error);
    }
    let third = grant_read(kernel, site.world, process, site.field_a);
    let ghost k5 = kernel.log();
    proof {
        lemma_grew(k0, k4, k5);
    }
    if let Err(error) = third {
        return Err(error);
    }
    let fourth = grant_read(kernel, site.world, process, site.field_b);
    let ghost k6 = kernel.log();
    proof {
        lemma_grew(k0, k5, k6);
    }
    if let Err(error) = fourth {
        return Err(error);
    }
    let frame: AntFrame = new_ant(
        &site.knobs,
        nest,
        colony,
        ant,
        deposit,
        site.terrain,
        site.field_a,
        site.field_b,
    );
    let mut content: Vec<u8> = Vec::new();
    frame.encode(&mut content);
    assert(content@ =~= frame.encoded());
    let spawned = spawn(kernel, &site.knobs, process, ANT_EXPLORE, content);
    proof {
        lemma_grew(k0, k6, kernel.log());
    }
    match spawned {
        Ok(continuation) => {
            let handle = AntHandle { process, continuation, deposit };
            proof {
                let l = kernel.log();
                let at = k0.len() as int;
                assert(l[at] == k1[at] && l[at + 1] == k2[at + 1]);
                assert(l[at + 2] == k3[at + 2] && l[at + 3] == k3[at + 3]);
                assert(l[at + 4] == k4[at + 4] && l[at + 5] == k4[at + 5]);
                assert(l[at + 6] == k5[at + 6] && l[at + 7] == k5[at + 7]);
                assert(l[at + 8] == k6[at + 8] && l[at + 9] == k6[at + 9]);
            }
            Ok(handle)
        },
        Err(error) => Err(error),
    }
}

fn build_colony<K: Kernel>(kernel: &mut K, site: &Site, nest: Nest, colony: u16) -> (result: Result<
    ColonyHandle,
    RuntimeError,
>)
    requires
        site.knobs.width > 0,
        site.knobs.height > 0,
        colony < site.knobs.colonies,
        nest == nest_of(site.knobs, colony as int),
    ensures
        match result {
            Ok(handle) => {
                &&& final(kernel).log().len() == old(kernel).log().len() + colony_calls(site.knobs)
                &&& continues(old(kernel).log(), final(kernel).log())
                &&& colony_is_built(
                    final(kernel).log(),
                    old(kernel).log().len() as int,
                    site.knobs,
                    site.shared(),
                    colony as int,
                    handle@,
                )
            },
            Err(error) => ends_refused(old(kernel).log(), final(kernel).log(), error),
        },
{
    let ghost k0 = kernel.log();
    let ghost at = k0.len() as int;
    let supervised = kernel.create_supervised_process(site.world, ProcessMode::Serial);
    let ghost k1 = kernel.log();
    proof {
        lemma_grew(k0, k1, k1);
    }
    let process: Ref64 = match supervised {
        Ok(process) => process,
        Err(error) => {
            return Err(error);
        },
    };
    let summary: Ref64 = kernel.create_object(
        process,
        ObjectKind::RawBytes,
        blank(site.knobs.summary_bytes()),
    );
    let ghost k2 = kernel.log();
    let granted = grant_read(kernel, process, site.world, summary);
    let ghost k3 = kernel.log();
    proof {
        lemma_grew(k0, k2, k3);
    }
    if let Err(error) = granted {
        return Err(error);
    }
    let mut ants: Vec<AntHandle> = Vec::new();
    let mut deposits: Vec<u64> = Vec::new();
    let mut ant: u16 = 0;
    while ant < site.knobs.ants_per_colony
        invariant
            ant <= site.knobs.ants_per_colony,
            site.knobs.width > 0,
            site.knobs.height > 0,
            colony < site.knobs.colonies,
            at == k0.len(),
            k0 == old(kernel).log(),
            k3.len() == at + 4,
            continues(k0, k3),
            continues(k3, kernel.log()),
            kernel.log().len() == at + 4 + 11 * ant,
            ants@.len() == ant,
            deposits@ =~= deposits_of(ants@),
            forall|j: int|
                0 <= j < ant ==> ant_is_built(
                    kernel.log(),
                    at + 4 + 11 * j,
                    site.knobs,
                    site.shared(),
                    process,
                    nest,
                    colony as int,
                    j,
                    #[trigger] ants@[j],
                ),
        decreases site.knobs.ants_per_colony - ant,
    {
        let ghost before = kernel.log();
        let ghost ants0 = ants@;
        let built = build_ant(kernel, site, process, nest, colony, ant);
        proof {
            lemma_grew(k0, k3, before);
            lemma_grew(k0, before, kernel.log());
            lemma_grew(k3, before, kernel.log());
        }
        match built {
            Ok(handle) => {
                ants.push(handle);
                deposits.push(handle.deposit.raw);
                proof {
                    let l = kernel.log();
                    assert forall|j: int| 0 <= j < ant + 1 implies ant_is_built(
                        l,
                        at + 4 + 11 * j,
                        site.knobs,
                        site.shared(),
                        process,
                        nest,
                        colony as int,
                        j,
                        #[trigger] ants@[j],
                    ) by {
                        if j < ant {
                            assert(ants@[j] == ants0[j]);
                            lemma_ant_survives(
                                before,
                                l,
                                at + 4 + 11 * j,
                                site.knobs,
                                site.shared(),
                                process,
                                nest,
                                colony as int,
                                j,
                                ants0[j],
                            );
                        }
                    }
                }
            },
            Err(error) => {
                return Err(error);
            },
        }
        ant = ant + 1;
    }
    let ghost k4 = kernel.log();
    let frame = ColonyFrame { id: colony, summary, deposits };
    let mut content: Vec<u8> = Vec::new();
    frame.encode(&mut content);
    assert(content@ =~= frame@.encoded());
    let spawned = spawn(kernel, &site.knobs, process, COLONY_AGGREGATE, content);
    proof {
        lemma_grew(k0, k3, k4);
        lemma_grew(k0, k4, kernel.log());
    }
    match spawned {
        Ok(continuation) => {
            let handle = ColonyHandle { process, continuation, summary, ants, nest };
            proof {
                let l = kernel.log();
                assert forall|j: int| 0 <= j < ants@.len() implies ant_is_built(
                    l,
                    at + 4 + 11 * j,
                    site.knobs,
                    site.shared(),
                    process,
                    nest,
                    colony as int,
                    j,
                    #[trigger] ants@[j],
                ) by {
                    lemma_ant_survives(
                        k4,
                        l,
                        at + 4 + 11 * j,
                        site.knobs,
                        site.shared(),
                        process,
                        nest,
                        colony as int,
                        j,
                        ants@[j],
                    );
                }
                lemma_grew(k3, k4, l);
                assert(l[at] == k1[at]) by {
                    assert(l[at] == k3[at]);
                }
                assert(l[at + 1] == k2[at + 1]) by {
                    assert(l[at + 1] == k3[at + 1]);
                }
                assert(l[at + 2] == k3[at + 2] && l[at + 3] == k3[at + 3]);
                assert(handle@.ants == ants@);
            }
            Ok(handle)
        },
        Err(error) => Err(error),
    }
}

/// Builds the colony into an already configured kernel, so that what the
/// kernel does with it can be varied without another setup. The error is the
/// refusal that the kernel's log ends with.
pub fn build_in<K: Kernel>(kernel: &mut K, knobs: &ColonyKnobs) -> (result: Result<
    AntColony,
    RuntimeError,
>)
    requires
        has_room(*knobs),
        4 * knobs.cell_count() <= usize::MAX,
    ensures
        match result {
            Ok(colony) => {
                &&& placement::grew(old(kernel).log(), final(kernel).log())
                &&& is_built(
                    placement::gained(old(kernel).log(), final(kernel).log()),
                    *knobs,
                    colony,
                )
            },
            Err(error) => ends_refused(old(kernel).log(), final(kernel).log(), error),
        },
{
    let ghost k0 = kernel.log();
    let (nests, food) = layout(knobs);
    let begun = kernel.create_process(kernel::system(), ProcessMode::Serial);
    proof {
        lemma_grew(k0, kernel.log(), kernel.log());
    }
    let world: Ref64 = match begun {
        Ok(world) => world,
        Err(error) => {
            return Err(error);
        },
    };
    let ghost k1 = kernel.log();
    let terrain_bytes: Vec<u8> = Terrain::encode(knobs, &nests, &food);
    let ghost terrain_content = terrain_bytes@;
    let terrain: Ref64 = kernel.create_object(world, ObjectKind::RawBytes, terrain_bytes);
    let field_a: Ref64 = kernel.create_object(
        world,
        ObjectKind::RawBytes,
        blank(knobs.field_bytes()),
    );
    let field_b: Ref64 = kernel.create_object(
        world,
        ObjectKind::RawBytes,
        blank(knobs.field_bytes()),
    );
    let ghost k4 = kernel.log();
    proof {
        let k = k4.skip(k0.len() as int);
        assert(is_terrain(terrain_content, *knobs));
        assert(world_is_begun(k, *knobs, Shared { world, terrain, field_a, field_b }));
    }
    let site = Site { knobs: *knobs, world, terrain, field_a, field_b };
    let ghost base = k0.len() as int;
    let ghost per = colony_calls(*knobs);
    let mut colonies: Vec<ColonyHandle> = Vec::new();
    let mut summaries: Vec<u64> = Vec::new();
    let mut c: u16 = 0;
    assert(per * 0 == 0);
    while c < knobs.colonies
        invariant
            c <= knobs.colonies,
            has_room(*knobs),
            site.knobs == *knobs,
            nests@ == nests_of(*knobs),
            base == k0.len(),
            k0 == old(kernel).log(),
            per == colony_calls(*knobs),
            per >= 5,
            k4.len() == base + 4,
            continues(k0, k4),
            continues(k4, kernel.log()),
            kernel.log().len() == base + 4 + per * c,
            colonies@.len() == c,
            summaries@ =~= summaries_of(colonies@),
            forall|j: int|
                0 <= j < c ==> colony_is_built(
                    kernel.log(),
                    base + (4 + per * j),
                    *knobs,
                    site.shared(),
                    j,
                    (#[trigger] colonies@[j])@,
                ),
        decreases knobs.colonies - c,
    {
        let ghost before = kernel.log();
        let ghost colonies0 = colonies@;
        let nest: Nest = nests[c as usize];
        let built = build_colony(kernel, &site, nest, c);
        proof {
            lemma_grew(k0, k4, before);
            lemma_grew(k0, before, kernel.log());
            lemma_grew(k4, before, kernel.log());
            assert(per * c + per == per * (c + 1)) by (nonlinear_arith);
        }
        match built {
            Ok(handle) => {
                summaries.push(handle.summary.raw);
                colonies.push(handle);
                proof {
                    let l = kernel.log();
                    assert forall|j: int| 0 <= j < c + 1 implies colony_is_built(
                        l,
                        base + (4 + per * j),
                        *knobs,
                        site.shared(),
                        j,
                        (#[trigger] colonies@[j])@,
                    ) by {
                        if j < c {
                            assert(colonies@[j] == colonies0[j]);
                            assert(0 <= per * j && per * j + per <= per * c) by (nonlinear_arith)
                                requires
                                    0 <= j < c,
                                    per >= 5,
                            ;
                            lemma_colony_survives(
                                before,
                                l,
                                base + (4 + per * j),
                                *knobs,
                                site.shared(),
                                j,
                                colonies0[j]@,
                            );
                        }
                    }
                }
            },
            Err(error) => {
                return Err(error);
            },
        }
        c = c + 1;
    }
    let ghost k5 = kernel.log();
    let frame = WorldFrame {
        width: knobs.width,
        height: knobs.height,
        decay: knobs.decay,
        field_a,
        field_b,
        summaries,
    };
    let mut content: Vec<u8> = Vec::new();
    frame.encode(&mut content);
    assert(content@ =~= frame@.encoded());
    let spawned = spawn(kernel, knobs, world, WORLD_STEP, content);
    proof {
        lemma_grew(k0, k4, k5);
        lemma_grew(k0, k5, kernel.log());
        lemma_grew(k4, k5, kernel.log());
    }
    match spawned {
        Ok(world_continuation) => {
            let colony = AntColony {
                knobs: *knobs,
                world,
                world_continuation,
                terrain,
                field_a,
                field_b,
                colonies,
            };
            proof {
                lemma_is_built(k0, k4, k5, kernel.log(), *knobs, colony);
                lemma_grew(k0, kernel.log(), kernel.log());
            }
            Ok(colony)
        },
        Err(error) => Err(error),
    }
}

proof fn lemma_is_built(
    k0: Seq<Call>,
    k4: Seq<Call>,
    k5: Seq<Call>,
    l: Seq<Call>,
    knobs: ColonyKnobs,
    colony: AntColony,
)
    requires
        continues(k0, k4),
        continues(k4, k5),
        continues(k5, l),
        k4.len() == k0.len() + 4,
        k5.len() == k0.len() + 4 + colony_calls(knobs) * knobs.colonies,
        l.len() == k5.len() + 1,
        colony.knobs == knobs,
        colony.colonies@.len() == knobs.colonies,
        world_is_begun(
            k4.skip(k0.len() as int),
            knobs,
            Shared {
                world: colony.world,
                terrain: colony.terrain,
                field_a: colony.field_a,
                field_b: colony.field_b,
            },
        ),
        forall|j: int|
            0 <= j < knobs.colonies ==> colony_is_built(
                k5,
                k0.len() + (4 + colony_calls(knobs) * j),
                knobs,
                Shared {
                    world: colony.world,
                    terrain: colony.terrain,
                    field_a: colony.field_a,
                    field_b: colony.field_b,
                },
                j,
                (#[trigger] colony.colonies@[j])@,
            ),
        spawns(
            l,
            k5.len() as int,
            knobs,
            colony.world,
            WORLD_STEP,
            (WorldView {
                width: knobs.width,
                height: knobs.height,
                decay: knobs.decay,
                field_a: colony.field_a,
                field_b: colony.field_b,
                summaries: summaries_of(colony.colonies@),
            }).encoded(),
            colony.world_continuation,
        ),
    ensures
        is_built(placement::gained(k0, l), knobs, colony),
{
    let base = k0.len() as int;
    let per = colony_calls(knobs);
    let k = placement::gained(k0, l);
    let shared = Shared {
        world: colony.world,
        terrain: colony.terrain,
        field_a: colony.field_a,
        field_b: colony.field_b,
    };
    lemma_grew(k4, k5, l);
    let head = k4.skip(base);
    assert(l[base] == k4[base]);
    assert(l[base + 1] == k4[base + 1]);
    assert(l[base + 2] == k4[base + 2]);
    assert(l[base + 3] == k4[base + 3]);
    assert(k[0] == head[0] && k[1] == head[1] && k[2] == head[2] && k[3] == head[3]);
    assert(world_is_begun(k, knobs, shared));
    assert forall|j: int| 0 <= j < knobs.colonies implies colony_is_built(
        k,
        4 + per * j,
        knobs,
        shared,
        j,
        (#[trigger] colony.colonies@[j])@,
    ) by {
        assert(0 <= per * j && per * j + per <= per * knobs.colonies) by (nonlinear_arith)
            requires
                0 <= j < knobs.colonies,
                per >= 5,
        ;
        let handle = colony.colonies@[j]@;
        lemma_colony_survives(k5, l, base + (4 + per * j), knobs, shared, j, handle);
        lemma_colony_shifts(l, k, base, 4 + per * j, knobs, shared, j, handle);
    }
    assert(k[4 + per * knobs.colonies] == l[k5.len() as int]);
}

proof fn lemma_colony_shifts(
    l: Seq<Call>,
    k: Seq<Call>,
    base: int,
    at: int,
    knobs: ColonyKnobs,
    shared: Shared,
    colony: int,
    handle: HandleView,
)
    requires
        0 <= base <= l.len(),
        k == l.skip(base),
        0 <= at,
        base + at + colony_calls(knobs) <= l.len(),
        colony_is_built(l, base + at, knobs, shared, colony, handle),
    ensures
        colony_is_built(k, at, knobs, shared, colony, handle),
{
    assert forall|j: int| 0 <= j < handle.ants.len() implies ant_is_built(
        k,
        at + 4 + 11 * j,
        knobs,
        shared,
        handle.process,
        handle.nest,
        colony,
        j,
        #[trigger] handle.ants[j],
    ) by {
        assert(ant_is_built(
            l,
            base + at + 4 + 11 * j,
            knobs,
            shared,
            handle.process,
            handle.nest,
            colony,
            j,
            handle.ants[j],
        ));
    }
}

} // verus!

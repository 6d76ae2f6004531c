//! What a built colony consists of.

use crate::compiler::run_classes::{ANT_EXPLORE, COLONY_AGGREGATE, WORLD_STEP};
use crate::experiments::ant_build;
use crate::experiments::ant_build::AntColony;
use crate::experiments::ant_colony as colony;
use crate::experiments::ant_colony::{AntFrame, ColonyKnobs, ColonyView, WorldView};
use crate::kernel;
use crate::kernel::{Call, ProcessMode, Ref64, StateAccess};
use vstd::prelude::*;

verus! {

/// Where the calls that make colony `c` start, and those that make its ant `j`.
pub open spec fn colony_place(knobs: ColonyKnobs, c: int) -> int {
    4 + (11 * knobs.ants_per_colony + 5) * c
}

pub open spec fn ant_place(knobs: ColonyKnobs, c: int, j: int) -> int {
    colony_place(knobs, c) + 4 + 11 * j
}

/// The call starts a continuation of `process` in `class`, read-only, with a step for
/// each epoch and sixty-four more, and `content` as its frame.
pub open spec fn begins(
    call: Call,
    knobs: ColonyKnobs,
    process: Ref64,
    class: u32,
    content: Seq<u8>,
    made: Ref64,
) -> bool {
    &&& call matches Call::CreateContinuation { actor, process: of, spec, reply }
    &&& actor == kernel::system_principal()
    &&& of == process
    &&& spec.access == StateAccess::ReadOnly
    &&& spec.run_class == class
    &&& spec.priority == 0
    &&& spec.frame == content
    &&& knobs.epochs <= u32::MAX - 64 ==> spec.max_steps == knobs.epochs + 64
    &&& reply == Ok::<Ref64, kernel::RuntimeError>(made)
}

/// An ant starts as a searcher within three cells of its nest, inside the grid, with
/// empty hands and nothing delivered, and with what the knobs say of it.
pub open spec fn is_fresh_ant(knobs: ColonyKnobs, nest: (u16, u16), c: int, j: int, ant: AntFrame) -> bool {
    &&& ant.id == c * knobs.ants_per_colony + j
    &&& ant.colony == c
    &&& ant.home_x == nest.0
    &&& ant.home_y == nest.1
    &&& ant.x < knobs.width
    &&& ant.y < knobs.height
    &&& -3 <= ant.x - nest.0 <= 3
    &&& -3 <= ant.y - nest.1 <= 3
    &&& ant.width == knobs.width
    &&& ant.height == knobs.height
    &&& ant.carrying == 0
    &&& ant.delivered == 0
    &&& ant.wait_ticks == 0
    &&& ant.wait_reset == knobs.wait_ticks
    &&& ant.deposit_amount == knobs.deposit
    &&& ant.sense_threshold == knobs.sense_threshold
    &&& ant.heading < 8
}

/// Each ant of a built colony is a serial process under its colony, with an empty deposit
/// of two records and a fresh ant as its frame.
pub proof fn law_every_ant_starts_fresh_by_its_nest(
    k: Seq<Call>,
    knobs: ColonyKnobs,
    built: AntColony,
    c: int,
    j: int,
)
    requires
        ant_build::is_built(k, knobs, built),
        0 <= c < knobs.colonies,
        0 <= j < knobs.ants_per_colony,
        knobs.width > 0,
        knobs.height > 0,
    ensures
        ({
            let handle = built.colonies@[c];
            let ant = handle.ants@[j];
            let at = ant_place(knobs, c, j);
            &&& handle.ants@.len() == knobs.ants_per_colony
            &&& k[at] == (Call::Supervise {
                supervisor: handle.process,
                mode: ProcessMode::Serial,
                reply: Ok(ant.process),
            })
            &&& k[at + 1] matches Call::CreateObject { actor, bytes, reply, .. }
            &&& actor == ant.process
            &&& bytes.len() == 32
            &&& (forall|i: int| 0 <= i < 32 ==> #[trigger] bytes[i] == 0)
            &&& reply == ant.deposit
            &&& exists|content: Seq<u8>|
                {
                    &&& #[trigger] begins(
                        k[at + 10],
                        knobs,
                        ant.process,
                        ANT_EXPLORE,
                        content,
                        ant.continuation,
                    )
                    &&& content.len() == 68
                    &&& is_fresh_ant(knobs, handle.nest, c, j, AntFrame::read(content))
                    &&& AntFrame::read(content).deposit == ant.deposit
                    &&& AntFrame::read(content).terrain == built.terrain
                    &&& AntFrame::read(content).field_a == built.field_a
                    &&& AntFrame::read(content).field_b == built.field_b
                }
        }),
{
    let handle = built.colonies@[c];
    let shared = ant_build::Shared {
        world: built.world,
        terrain: built.terrain,
        field_a: built.field_a,
        field_b: built.field_b,
    };
    let at = ant_place(knobs, c, j);
    lemma_colony(k, knobs, built, c);
    let ant = handle@.ants[j];
    assert(ant_build::ant_is_built(
        k,
        at,
        knobs,
        shared,
        handle.process,
        handle.nest,
        c,
        j,
        ant,
    ));
    let frame = ant_build::ant_of(
        knobs,
        handle.nest,
        c as u16,
        j as u16,
        ant.deposit,
        built.terrain,
        built.field_a,
        built.field_b,
    );
    law_nests_and_food_lie_in_the_grid(knobs, c);
    colony::law_ant_frame_reads_back(frame);
    colony::lemma_grid_size(c, knobs.ants_per_colony as int);
    assert(c * knobs.ants_per_colony + j <= u32::MAX) by (nonlinear_arith)
        requires
            0 <= c <= 0xffff,
            0 <= j <= 0xffff,
            0 <= knobs.ants_per_colony <= 0xffff,
    ;
    assert(begins(
        k[at + 10],
        knobs,
        ant.process,
        ANT_EXPLORE,
        frame.encoded(),
        ant.continuation,
    ));
}

proof fn lemma_colony(k: Seq<Call>, knobs: ColonyKnobs, built: AntColony, c: int)
    requires
        ant_build::is_built(k, knobs, built),
        0 <= c < knobs.colonies,
    ensures
        ant_build::colony_is_built(
            k,
            colony_place(knobs, c),
            knobs,
            (ant_build::Shared {
                world: built.world,
                terrain: built.terrain,
                field_a: built.field_a,
                field_b: built.field_b,
            }),
            c,
            built.colonies@[c]@,
        ),
        colony_place(knobs, c) == 4 + ant_build::colony_calls(knobs) * c,
{
    let handle = built.colonies@[c];
}

/// The two calls grant `receiver` to read the whole of `target`, which `owner` owns.
pub open spec fn may_read(a: Call, b: Call, owner: Ref64, receiver: Ref64, target: Ref64) -> bool {
    &&& a matches Call::ByteLength { object, reply: Ok(length) }
    &&& object == target
    &&& b == (Call::GrantRead { owner, receiver, target, length, reply: Ok(()) })
}

/// Authority is passed up and down the tree and nowhere else: a colony may read its ants'
/// deposits, the world the colonies' summaries, and every ant the terrain and both
/// fields.
pub proof fn law_each_stage_may_read_the_one_below(
    k: Seq<Call>,
    knobs: ColonyKnobs,
    built: AntColony,
    c: int,
    j: int,
)
    requires
        ant_build::is_built(k, knobs, built),
        0 <= c < knobs.colonies,
        0 <= j < knobs.ants_per_colony,
    ensures
        ({
            let handle = built.colonies@[c];
            let ant = handle.ants@[j];
            let at = ant_place(knobs, c, j);
            let base = colony_place(knobs, c);
            &&& may_read(k[base + 2], k[base + 3], handle.process, built.world, handle.summary)
            &&& may_read(k[at + 2], k[at + 3], ant.process, handle.process, ant.deposit)
            &&& may_read(k[at + 4], k[at + 5], built.world, ant.process, built.terrain)
            &&& may_read(k[at + 6], k[at + 7], built.world, ant.process, built.field_a)
            &&& may_read(k[at + 8], k[at + 9], built.world, ant.process, built.field_b)
        }),
{
    let handle = built.colonies@[c];
    lemma_colony(k, knobs, built, c);
    lemma_ant(k, knobs, built, c, j);
    let ant = handle@.ants[j];
    let at = ant_place(knobs, c, j);
    let base = colony_place(knobs, c);
    lemma_grants(k, base + 2, handle.process, built.world, handle.summary);
    lemma_grants(k, at + 2, ant.process, handle.process, ant.deposit);
    lemma_grants(k, at + 4, built.world, ant.process, built.terrain);
    lemma_grants(k, at + 6, built.world, ant.process, built.field_a);
    lemma_grants(k, at + 8, built.world, ant.process, built.field_b);
}

proof fn lemma_grants(k: Seq<Call>, at: int, owner: Ref64, receiver: Ref64, target: Ref64)
    requires
        ant_build::grants(k, at, owner, receiver, target),
    ensures
        may_read(k[at], k[at + 1], owner, receiver, target),
{
}

proof fn lemma_ant(k: Seq<Call>, knobs: ColonyKnobs, built: AntColony, c: int, j: int)
    requires
        ant_build::is_built(k, knobs, built),
        0 <= c < knobs.colonies,
        0 <= j < knobs.ants_per_colony,
    ensures
        ({
            let handle = built.colonies@[c];
            let ant = handle.ants@[j];
            let at = ant_place(knobs, c, j);
            &&& ant_build::grants(k, at + 2, ant.process, handle.process, ant.deposit)
            &&& ant_build::grants(k, at + 4, built.world, ant.process, built.terrain)
            &&& ant_build::grants(k, at + 6, built.world, ant.process, built.field_a)
            &&& ant_build::grants(k, at + 8, built.world, ant.process, built.field_b)
        }),
{
    let handle = built.colonies@[c];
    lemma_colony(k, knobs, built, c);
    let ant = handle@.ants[j];
    assert(ant_build::ant_is_built(
        k,
        ant_place(knobs, c, j),
        knobs,
        ant_build::Shared {
            world: built.world,
            terrain: built.terrain,
            field_a: built.field_a,
            field_b: built.field_b,
        },
        handle.process,
        handle.nest,
        c,
        j,
        ant,
    ));
}

/// A colony is a serial process under the world. Its frame names its summary and the
/// deposits of its ants, in order, and its summary has two slots that each hold a count
/// and a record for every ant.
pub proof fn law_a_colony_aggregates_its_own_ants(
    k: Seq<Call>,
    knobs: ColonyKnobs,
    built: AntColony,
    c: int,
)
    requires
        ant_build::is_built(k, knobs, built),
        0 <= c < knobs.colonies,
    ensures
        ({
            let handle = built.colonies@[c];
            let base = colony_place(knobs, c);
            let end = base + 4 + 11 * knobs.ants_per_colony;
            &&& k[base] == (Call::Supervise {
                supervisor: built.world,
                mode: ProcessMode::Serial,
                reply: Ok(handle.process),
            })
            &&& k[base + 1] matches Call::CreateObject { actor, bytes, reply, .. }
            &&& actor == handle.process
            &&& reply == handle.summary
            &&& bytes.len() == 2 * (4 + 8 * knobs.ants_per_colony)
            &&& exists|content: Seq<u8>|
                {
                    &&& #[trigger] begins(
                        k[end],
                        knobs,
                        handle.process,
                        COLONY_AGGREGATE,
                        content,
                        handle.continuation,
                    )
                    &&& ColonyView::read(content) matches Some(frame)
                    &&& frame.id == c
                    &&& frame.summary == handle.summary
                    &&& frame.deposits.len() == knobs.ants_per_colony
                    &&& forall|j: int|
                        0 <= j < knobs.ants_per_colony ==> #[trigger] frame.deposits[j]
                            == handle.ants@[j].deposit.raw
                }
        }),
{
    let handle = built.colonies@[c];
    lemma_colony(k, knobs, built, c);
    let frame = ColonyView {
        id: c as u16,
        summary: handle.summary,
        deposits: ant_build::deposits_of(handle@.ants),
    };
    colony::law_colony_frame_reads_back(frame);
    let end = colony_place(knobs, c) + 4 + 11 * knobs.ants_per_colony;
    assert(begins(
        k[end],
        knobs,
        handle.process,
        COLONY_AGGREGATE,
        frame.encoded(),
        handle.continuation,
    ));
}

/// The world is a serial process of the system. It owns the terrain and two blank fields
/// of two 16-bit trails for each cell, and its frame names the fields and the colonies'
/// summaries in order. It is made first and started last.
pub proof fn law_the_world_holds_terrain_fields_and_summaries(
    k: Seq<Call>,
    knobs: ColonyKnobs,
    built: AntColony,
)
    requires
        ant_build::is_built(k, knobs, built),
    ensures
        ({
            let end = colony_place(knobs, knobs.colonies as int);
            &&& k.len() == end + 1
            &&& built.colonies@.len() == knobs.colonies
            &&& k[0] == (Call::CreateProcess {
                actor: kernel::system_principal(),
                mode: ProcessMode::Serial,
                reply: Ok(built.world),
            })
            &&& is_blank_field(k[2], knobs, built.world, built.field_a)
            &&& is_blank_field(k[3], knobs, built.world, built.field_b)
            &&& exists|content: Seq<u8>|
                {
                    &&& #[trigger] begins(
                        k[end],
                        knobs,
                        built.world,
                        WORLD_STEP,
                        content,
                        built.world_continuation,
                    )
                    &&& WorldView::read(content) matches Some(frame)
                    &&& frame.width == knobs.width
                    &&& frame.height == knobs.height
                    &&& frame.decay == knobs.decay
                    &&& frame.field_a == built.field_a
                    &&& frame.field_b == built.field_b
                    &&& frame.summaries.len() == knobs.colonies
                    &&& forall|c: int|
                        0 <= c < knobs.colonies ==> #[trigger] frame.summaries[c]
                            == built.colonies@[c].summary.raw
                }
        }),
{
    let frame = WorldView {
        width: knobs.width,
        height: knobs.height,
        decay: knobs.decay,
        field_a: built.field_a,
        field_b: built.field_b,
        summaries: ant_build::summaries_of(built.colonies@),
    };
    colony::law_world_frame_reads_back(frame);
    let end = colony_place(knobs, knobs.colonies as int);
    colony::lemma_grid_size(knobs.width as int, knobs.height as int);
    assert(begins(
        k[end],
        knobs,
        built.world,
        WORLD_STEP,
        frame.encoded(),
        built.world_continuation,
    ));
}

/// The call makes an object of `owner` with four zero bytes for each cell.
pub open spec fn is_blank_field(call: Call, knobs: ColonyKnobs, owner: Ref64, made: Ref64) -> bool {
    &&& call matches Call::CreateObject { actor, bytes, reply, .. }
    &&& actor == owner
    &&& reply == made
    &&& bytes.len() == 4 * (knobs.width * knobs.height)
    &&& forall|i: int| 0 <= i < bytes.len() ==> #[trigger] bytes[i] == 0
}

/// Nests and food sources lie in the grid, and a food source reaches three to five cells.
pub proof fn law_nests_and_food_lie_in_the_grid(knobs: ColonyKnobs, i: int)
    requires
        knobs.width > 0,
        knobs.height > 0,
    ensures
        ant_build::nest_of(knobs, i).0 < knobs.width,
        ant_build::nest_of(knobs, i).1 < knobs.height,
        ant_build::food_of(knobs, i).0 < knobs.width,
        ant_build::food_of(knobs, i).1 < knobs.height,
        3 <= ant_build::food_of(knobs, i).2 <= 5,
{
}

/// As many nests and food sources are laid out as the knobs ask for, and a colony's nest
/// is the one of its number.
pub proof fn law_the_layout_is_what_the_knobs_ask_for(
    k: Seq<Call>,
    knobs: ColonyKnobs,
    built: AntColony,
    c: int,
)
    requires
        ant_build::is_built(k, knobs, built),
        0 <= c < knobs.colonies,
    ensures
        ant_build::nests_of(knobs).len() == knobs.colonies,
        ant_build::foods_of(knobs).len() == knobs.food_sources,
        built.colonies@[c].nest == ant_build::nests_of(knobs)[c],
        ({
            &&& k[1] matches Call::CreateObject { actor, bytes, reply, .. }
            &&& actor == built.world
            &&& reply == built.terrain
            &&& colony::food_sources_of(bytes) == ant_build::foods_of(knobs)
        }),
{
    let handle = built.colonies@[c];
    assert(ant_build::colony_is_built(
        k,
        4 + ant_build::colony_calls(knobs) * c,
        knobs,
        ant_build::Shared {
            world: built.world,
            terrain: built.terrain,
            field_a: built.field_a,
            field_b: built.field_b,
        },
        c,
        handle@,
    ));
    let terrain = k[1]->CreateObject_bytes;
    colony::law_terrain_reads_back(
        knobs,
        ant_build::nests_of(knobs),
        ant_build::foods_of(knobs),
        terrain,
        0,
        0,
    );
}

/// No two ants of a built world have the same id.
pub proof fn law_ant_ids_are_distinct(knobs: ColonyKnobs, c: int, j: int, d: int, l: int)
    requires
        0 <= c < knobs.colonies,
        0 <= d < knobs.colonies,
        0 <= j < knobs.ants_per_colony,
        0 <= l < knobs.ants_per_colony,
        c * knobs.ants_per_colony + j == d * knobs.ants_per_colony + l,
    ensures
        c == d && j == l,
{
    let n = knobs.ants_per_colony as int;
    assert(c == d) by (nonlinear_arith)
        requires
            c * n + j == d * n + l,
            0 <= j < n,
            0 <= l < n,
    ;
}

} // verus!

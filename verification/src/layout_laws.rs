//! How values lie in bytes, and how numbers are drawn, written and ranked.

use crate::bytes;
use crate::compiler::run_classes;
use crate::compiler::state_machine_lowering;
use crate::compiler::state_machine_lowering::SearchFrame;
use crate::experiments::ant_colony;
use crate::experiments::ant_colony::{AntFrame, ColonyView, Deposit, WorldView};
use crate::samples;
use crate::text;
use vstd::prelude::*;

verus! {

// ---- words -----------------------------------------------------------------

/// A word is read lowest byte first.
pub proof fn law_words_are_read_lowest_byte_first(s: Seq<u8>, at: int)
    requires
        0 <= at,
        at + 8 <= s.len(),
    ensures
        bytes::word_at(s, at, 1) == s[at],
        bytes::word_at(s, at, 2) == s[at] + 0x100 * s[at + 1],
        bytes::word_at(s, at, 4) == s[at] + 0x100 * s[at + 1] + 0x1_0000 * s[at + 2] + 0x100_0000
            * s[at + 3],
        bytes::word_at(s, at, 8) == bytes::word_at(s, at, 4) + 0x1_0000_0000 * bytes::word_at(
            s,
            at + 4,
            4,
        ),
{
    lemma_first_byte(s, at, 2);
    lemma_first_byte(s, at + 1, 1);
    lemma_first_byte(s, at, 1);
    lemma_first_byte(s, at, 4);
    lemma_first_byte(s, at + 1, 3);
    lemma_first_byte(s, at + 2, 2);
    lemma_first_byte(s, at + 3, 1);
    lemma_first_byte(s, at, 8);
    lemma_first_byte(s, at + 1, 7);
    lemma_first_byte(s, at + 2, 6);
    lemma_first_byte(s, at + 3, 5);
}

proof fn lemma_first_byte(s: Seq<u8>, at: int, n: int)
    requires
        0 <= at,
        0 < n,
        at + n <= s.len(),
    ensures
        bytes::word_at(s, at, n) == s[at] + 256 * bytes::word_at(s, at + 1, n - 1),
        n == 1 ==> bytes::word_at(s, at, n) == s[at],
{
    assert(s.subrange(at, at + n).skip(1) =~= s.subrange(at + 1, at + n));
}

/// A number is written lowest byte first.
pub proof fn law_numbers_are_written_lowest_byte_first(value: nat, n: nat)
    requires
        n > 0,
    ensures
        bytes::le_bytes(value, n).len() == n,
        bytes::le_bytes(value, n)[0] == value % 256,
        bytes::le_bytes(value, n).skip(1) == bytes::le_bytes(value / 256, (n - 1) as nat),
    decreases n,
{
    if n > 1 {
        law_numbers_are_written_lowest_byte_first(value / 256, (n - 1) as nat);
    }
    assert(bytes::le_bytes(value, n).skip(1) =~= bytes::le_bytes(value / 256, (n - 1) as nat));
}

/// A patch replaces the bytes that it lies over and no others.
pub proof fn law_a_patch_replaces_what_it_lies_over(s: Seq<u8>, at: int, patch: Seq<u8>, i: int)
    requires
        0 <= i < s.len(),
    ensures
        bytes::spliced(s, at, patch).len() == s.len(),
        i < at ==> bytes::spliced(s, at, patch)[i] == s[i],
        at <= i < at + patch.len() ==> bytes::spliced(s, at, patch)[i] == patch[i - at],
        at + patch.len() <= i ==> bytes::spliced(s, at, patch)[i] == s[i],
{
}

// ---- frames ----------------------------------------------------------------

/// Where each field of a search frame lies.
pub proof fn law_where_a_search_frame_keeps_its_fields(node: SearchFrame)
    ensures
        ({
            let s = node.encoded();
            &&& s.len() == 24
            &&& bytes::word_at(s, 0, 8) as u64 == node.value
            &&& bytes::word_at(s, 8, 4) as u32 == node.depth
            &&& bytes::word_at(s, 12, 4) as u32 == node.branching
            &&& bytes::word_at(s, 16, 4) as u32 == node.work_iters
            &&& bytes::word_at(s, 20, 4) as u32 == node.class_count
        }),
{
    state_machine_lowering::law_search_frame_reads_back(node);
}

/// Where each field of an ant's frame lies.
pub proof fn law_where_an_ant_keeps_its_fields(ant: AntFrame)
    ensures
        ({
            let s = ant.encoded();
            &&& s.len() == 68
            &&& bytes::word_at(s, 0, 4) as u32 == ant.id
            &&& bytes::word_at(s, 4, 2) as u16 == ant.colony
            &&& bytes::word_at(s, 6, 2) as u16 == ant.x
            &&& bytes::word_at(s, 8, 2) as u16 == ant.y
            &&& bytes::word_at(s, 10, 2) as u16 == ant.home_x
            &&& bytes::word_at(s, 12, 2) as u16 == ant.home_y
            &&& bytes::word_at(s, 14, 2) as u16 == ant.width
            &&& bytes::word_at(s, 16, 2) as u16 == ant.height
            &&& bytes::word_at(s, 18, 8) as u64 == ant.rng
            &&& bytes::word_at(s, 26, 1) as u8 == ant.carrying
            &&& bytes::word_at(s, 27, 1) as u8 == ant.heading
            &&& bytes::word_at(s, 28, 1) as u8 == ant.wait_ticks
            &&& bytes::word_at(s, 29, 1) as u8 == ant.wait_reset
            &&& bytes::word_at(s, 30, 2) as u16 == ant.deposit_amount
            &&& bytes::word_at(s, 32, 2) as u16 == ant.sense_threshold
            &&& bytes::word_at(s, 34, 2) as u16 == ant.delivered
            &&& bytes::word_at(s, 36, 8) as u64 == ant.deposit.raw
            &&& bytes::word_at(s, 44, 8) as u64 == ant.terrain.raw
            &&& bytes::word_at(s, 52, 8) as u64 == ant.field_a.raw
            &&& bytes::word_at(s, 60, 8) as u64 == ant.field_b.raw
        }),
{
    ant_colony::law_ant_frame_reads_back(ant);
}

/// Where a colony's frame keeps its fields, and each of its ants' records.
pub proof fn law_where_a_colony_keeps_its_fields(colony: ColonyView, i: int)
    requires
        colony.deposits.len() <= u32::MAX,
        0 <= i < colony.deposits.len(),
    ensures
        ({
            let s = colony.encoded();
            &&& bytes::word_at(s, 0, 2) as u16 == colony.id
            &&& bytes::word_at(s, 2, 8) as u64 == colony.summary.raw
            &&& bytes::word_at(s, 10, 4) == colony.deposits.len()
            &&& bytes::word_at(s, 14 + 8 * i, 8) as u64 == colony.deposits[i]
        }),
{
    ant_colony::law_colony_frame_reads_back(colony);
    let read = ColonyView::read(colony.encoded())->0;
    assert(read.deposits == colony.deposits);
    assert(read.deposits[i] == colony.deposits[i]);
}

/// Where the world's frame keeps its fields, and each colony's summary.
pub proof fn law_where_the_world_keeps_its_fields(world: WorldView, i: int)
    requires
        world.summaries.len() <= u32::MAX,
        0 <= i < world.summaries.len(),
    ensures
        ({
            let s = world.encoded();
            &&& bytes::word_at(s, 0, 2) as u16 == world.width
            &&& bytes::word_at(s, 2, 2) as u16 == world.height
            &&& bytes::word_at(s, 4, 2) as u16 == world.decay
            &&& bytes::word_at(s, 6, 8) as u64 == world.field_a.raw
            &&& bytes::word_at(s, 14, 8) as u64 == world.field_b.raw
            &&& bytes::word_at(s, 22, 4) == world.summaries.len()
            &&& bytes::word_at(s, 26 + 8 * i, 8) as u64 == world.summaries[i]
        }),
{
    ant_colony::law_world_frame_reads_back(world);
    let read = WorldView::read(world.encoded())->0;
    assert(read.summaries == world.summaries);
    assert(read.summaries[i] == world.summaries[i]);
}

/// Where a record keeps the epoch, the place and what was laid there.
pub proof fn law_where_a_record_keeps_its_fields(record: Deposit, s: Seq<u8>, at: int)
    requires
        0 <= at,
        at + 16 <= s.len(),
    ensures
        ({
            let w = record.written(s, at);
            &&& w.len() == s.len()
            &&& bytes::word_at(w, at, 4) as u32 == record.epoch
            &&& bytes::word_at(w, at + 4, 2) as u16 == record.x
            &&& bytes::word_at(w, at + 6, 2) as u16 == record.y
            &&& bytes::word_at(w, at + 8, 2) as u16 == record.food
            &&& bytes::word_at(w, at + 10, 2) as u16 == record.home
        }),
{
    ant_colony::law_deposit_reads_back(record, s, at);
}

// ---- terrain ---------------------------------------------------------------

proof fn lemma_bit(byte: u8, at: u8)
    by (bit_vector)
    requires
        at < 8,
    ensures
        (byte & (1u8 << at) != 0) == ((byte / if at == 0 {
            1
        } else if at == 1 {
            2
        } else if at == 2 {
            4
        } else if at == 3 {
            8
        } else if at == 4 {
            16
        } else if at == 5 {
            32
        } else if at == 6 {
            64
        } else {
            128
        }) % 2 == 1),
{
}

/// A cell outside the grid is an obstacle. One inside it is where its bit is set: eight
/// cells to a byte, the first in the lowest bit, row by row behind nests and food.
pub proof fn law_obstacles_are_bits_in_rows(
    terrain: Seq<u8>,
    width: u16,
    height: u16,
    x: int,
    y: int,
)
    ensures
        ({
            let food = bytes::word_at(terrain, 4, 2) as int;
            let nests = bytes::word_at(terrain, 6, 2) as int;
            let cell = y * width + x;
            let at = 8 + 6 * food + 4 * nests + cell / 8;
            let weight = if cell % 8 == 0 {
                1int
            } else if cell % 8 == 1 {
                2
            } else if cell % 8 == 2 {
                4
            } else if cell % 8 == 3 {
                8
            } else if cell % 8 == 4 {
                16
            } else if cell % 8 == 5 {
                32
            } else if cell % 8 == 6 {
                64
            } else {
                128
            };
            let blocked = ant_colony::obstacle_at(terrain, width, height, x, y);
            &&& !(0 <= x < width && 0 <= y < height) ==> blocked
            &&& 0 <= x < width && 0 <= y < height && at >= terrain.len() ==> blocked
            &&& 0 <= x < width && 0 <= y < height && at < terrain.len() ==> (blocked <==> (
            terrain[at] as int / weight) % 2 == 1)
        }),
{
    let cell = y * width + x;
    let off = ant_colony::bitmap_offset(terrain);
    if 0 <= x < width && 0 <= y < height {
        assert(0 <= cell) by (nonlinear_arith)
            requires
                cell == y * width + x,
                0 <= y,
                0 <= width,
                0 <= x,
        ;
        if off + cell / 8 < terrain.len() {
            lemma_bit(terrain[off + cell / 8], (cell % 8) as u8);
            assert(terrain.skip(off)[cell / 8] == terrain[off + cell / 8]);
        }
    }
}

/// Each cell of the grid is drawn for by itself, in the order of the cells: an obstacle
/// where the draw's last two decimal digits are below the share of obstacles.
pub proof fn law_obstacles_are_drawn_by_share(knobs: ant_colony::ColonyKnobs, index: nat)
    ensures
        ant_colony::is_blocked(knobs, index as int) <==> ant_colony::rng_draw(
            ant_colony::rng_after(knobs.seed ^ 0xB10C_C0DE, index),
        ) as int % 100 < knobs.obstacle_percent,
        knobs.obstacle_percent == 0 ==> !ant_colony::is_blocked(knobs, index as int),
        knobs.obstacle_percent >= 100 ==> ant_colony::is_blocked(knobs, index as int),
{
}

// ---- numbers ---------------------------------------------------------------

/// A generator's states lie the golden ratio's fraction apart, and each draw mixes the next
/// state twice: shifted over itself and multiplied, modulo 2^64.
pub proof fn law_a_draw_mixes_the_next_state(state: u64, n: nat)
    ensures
        ({
            let z = ((state + 0x9E37_79B9_7F4A_7C15) % 0x1_0000_0000_0000_0000) as u64;
            let y = (((z ^ (z >> 30u64)) * 0xBF58_476D_1CE4_E5B9) % 0x1_0000_0000_0000_0000) as u64;
            let x = (((y ^ (y >> 27u64)) * 0x94D0_49BB_1331_11EB) % 0x1_0000_0000_0000_0000) as u64;
            &&& ant_colony::rng_step(state) == z
            &&& ant_colony::rng_draw(state) == x ^ (x >> 31u64)
        }),
        ant_colony::rng_after(state, 0) == state,
        ant_colony::rng_after(state, n + 1) as int == (ant_colony::rng_after(state, n)
            + 0x9E37_79B9_7F4A_7C15) % 0x1_0000_0000_0000_0000,
{
}

/// The number that decimal digits stand for.
pub open spec fn digits_value(digits: Seq<char>) -> int
    decreases digits.len(),
{
    if digits.len() == 0 {
        0
    } else {
        10 * digits_value(digits.drop_last()) + (digits.last() as int - 48)
    }
}

/// A written number reads back, in digits only and without a leading zero.
pub proof fn law_a_written_number_reads_back(n: nat)
    ensures
        digits_value(text::decimal(n)) == n,
        text::decimal(n).len() > 0,
        forall|i: int| 0 <= i < text::decimal(n).len() ==> '0' <= #[trigger] text::decimal(n)[i] <= '9',
        text::decimal(n).len() > 1 ==> text::decimal(n)[0] != '0',
    decreases n,
{
    reveal_with_fuel(digits_value, 2);
    if n >= 10 {
        law_a_written_number_reads_back(n / 10);
        assert(text::decimal(n).drop_last() =~= text::decimal(n / 10));
        assert(text::decimal(n)[0] == text::decimal(n / 10)[0]);
        if text::decimal(n / 10).len() == 1 {
            assert(n / 10 >= 1);
            assert(digits_value(text::decimal(n / 10)) == n / 10);
            assert(text::decimal(n / 10).drop_last().len() == 0);
        }
    } else {
        assert(text::decimal(n).drop_last().len() == 0);
    }
}

/// A percentile is the sample whose rank is nearest to that share of the way from the least
/// sample to the greatest, the upper one where two are as near.
pub proof fn law_a_percentile_is_the_nearest_rank(list: Seq<u64>, percent: int)
    requires
        0 <= percent <= 100,
    ensures
        list.len() == 0 ==> samples::percentile_of(list, percent) == 0,
        list.len() > 0 ==> exists|rank: int|
            {
                &&& 0 <= rank < list.len()
                &&& samples::percentile_of(list, percent) == #[trigger] samples::in_order(list)[rank]
                &&& -50 <= percent * (list.len() - 1) - 100 * rank < 50
            },
{
    if list.len() > 0 {
        let n = list.len() as int;
        let rank = samples::rank_at(percent, n);
        assert(0 <= percent * (n - 1) <= 100 * (n - 1)) by (nonlinear_arith)
            requires
                0 <= percent <= 100,
                n >= 1,
        ;
        assert(samples::percentile_of(list, percent) == samples::in_order(list)[rank]);
    }
}

// ---- classes ---------------------------------------------------------------

/// Search nodes run as one of eight classes, by their value modulo the number in use.
pub proof fn law_a_value_s_class_is_its_remainder(value: u64, count: u32)
    ensures
        ({
            let class = run_classes::class_of_value(value, count);
            &&& 10 <= class < 18
            &&& count <= 1 ==> class == 10
            &&& 1 <= count <= 8 ==> class as int == 10 + value as int % count as int
            &&& count > 8 ==> class as int == 10 + value as int % 8
        }),
{
    if 1 <= count <= 8 {
        let c = count as int;
        assert(0 <= value as int % c < c) by (nonlinear_arith)
            requires
                c >= 1,
        ;
    }
}

} // verus!

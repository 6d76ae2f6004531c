//! An ant colony as a population of persistent processes.
//!
//! Ants hold their own state, decide their next behaviour from it, and never
//! synchronise with each other. Each solely owns a deposit object; a colony
//! folds its ants' deposits into a summary that it solely owns; the world folds
//! the summaries into the pheromone field. Every stage is double-buffered on
//! epoch parity: a reader never touches the slot that its writer is filling, so
//! the world does not depend on the order in which the stages run.
//!
//! Every ant carries its own generator, so a run is a function of its knobs.

use crate::bytes;
use crate::compiler::frame;
use crate::compiler::frame::Frame;
pub use crate::experiments::ant_build::{build_in, AntColony, AntHandle, ColonyHandle};
pub use crate::experiments::ant_observe::{
    compare, field_totals, inject_predator, observe_ants, population_digest, predator_outcome, read_frame,
    run, run_mode, total_delivered, AntView, ColonyComparison, ColonyRun, PredatorOutcome,
    PredatorStrike,
};
use crate::kernel::Ref64;
use vstd::prelude::*;

verus! {

/// Trail channels held in the field: an outbound ant and a laden ant follow
/// different gradients.
pub const TRAIL_FOOD: usize = 0;

pub const TRAIL_HOME: usize = 1;

pub const TRAIL_COUNT: usize = 2;

/// Bytes of one deposit record.
pub const DEPOSIT_RECORD: usize = 16;

/// Bytes of an ant's deposit object: two records, one per epoch parity.
pub const DEPOSIT_BYTES: usize = 32;

/// Bytes of the terrain before its food sources.
pub const TERRAIN_HEADER: usize = 8;

/// The deposit slot written during `epoch`.
pub open spec fn slot_of(epoch: u32) -> int {
    epoch as int % 2
}

pub fn write_slot(epoch: u32) -> (slot: usize)
    ensures
        slot == slot_of(epoch),
        slot <= 1,
{
    (epoch % 2) as usize
}

/// The deposit slot filled during the previous epoch, and therefore the one
/// that a downstream stage reads.
pub fn read_slot(epoch: u32) -> (slot: usize)
    requires
        epoch < u32::MAX,
    ensures
        slot == 1 - slot_of(epoch),
{
    ((epoch + 1) % 2) as usize
}

/// A reader never touches the slot that its writer fills in the same epoch,
/// and reads in each epoch what was written in the one before.
pub proof fn law_parity_slots_do_not_meet(epoch: u32)
    requires
        epoch < u32::MAX,
    ensures
        slot_of(epoch) != slot_of((epoch + 1) as u32),
        1 - slot_of((epoch + 1) as u32) == slot_of(epoch),
{
}

/// The neighbour offsets in a fixed order, so that a direction index is stable
/// across a run.
pub open spec fn offset_of_direction(index: int) -> (int, int) {
    if index == 0 {
        (0, -1)
    } else if index == 1 {
        (1, -1)
    } else if index == 2 {
        (1, 0)
    } else if index == 3 {
        (1, 1)
    } else if index == 4 {
        (0, 1)
    } else if index == 5 {
        (-1, 1)
    } else if index == 6 {
        (-1, 0)
    } else {
        (-1, -1)
    }
}

pub fn direction_offset(index: usize) -> (offset: (i32, i32))
    requires
        index < 8,
    ensures
        (offset.0 as int, offset.1 as int) == offset_of_direction(index as int),
        -1 <= offset.0 <= 1,
        -1 <= offset.1 <= 1,
{
    if index == 0 {
        (0, -1)
    } else if index == 1 {
        (1, -1)
    } else if index == 2 {
        (1, 0)
    } else if index == 3 {
        (1, 1)
    } else if index == 4 {
        (0, 1)
    } else if index == 5 {
        (-1, 1)
    } else if index == 6 {
        (-1, 0)
    } else {
        (-1, -1)
    }
}

/// Control variables for the colony.
#[derive(Clone, Copy, Debug)]
pub struct ColonyKnobs {
    pub width: u16,
    pub height: u16,
    /// Colonies, each a supervision subtree with its own nest.
    pub colonies: u16,
    pub ants_per_colony: u16,
    pub food_sources: u16,
    /// Percent of cells that are impassable.
    pub obstacle_percent: u8,
    /// Pheromone subtracted from every cell each epoch.
    pub decay: u16,
    /// Pheromone laid by one ant in one step.
    pub deposit: u16,
    /// Trail strength up to which an ant treats a cell as unmarked.
    pub sense_threshold: u16,
    /// Epochs a waiting ant idles for.
    pub wait_ticks: u8,
    /// Epochs the run is expected to last. It sizes each ant's step budget.
    pub epochs: u32,
    pub seed: u64,
}

impl Default for ColonyKnobs {
    fn default() -> (knobs: Self)
        ensures
            knobs == (ColonyKnobs {
                width: 96,
                height: 96,
                colonies: 4,
                ants_per_colony: 64,
                food_sources: 5,
                obstacle_percent: 6,
                decay: 3,
                deposit: 220,
                sense_threshold: 12,
                wait_ticks: 3,
                epochs: 400,
                seed: 0x5EED_A417_C0FF_EE01,
            }),
    {
        ColonyKnobs {
            width: 96,
            height: 96,
            colonies: 4,
            ants_per_colony: 64,
            food_sources: 5,
            obstacle_percent: 6,
            decay: 3,
            deposit: 220,
            sense_threshold: 12,
            wait_ticks: 3,
            epochs: 400,
            seed: 0x5EED_A417_C0FF_EE01,
        }
    }
}

proof fn lemma_product_of_words(a: int, b: int)
    requires
        0 <= a <= 0xffff,
        0 <= b <= 0xffff,
    ensures
        0 <= a * b <= 0xfffe_0001,
{
    assert(a * b <= 0xffff * 0xffff) by (nonlinear_arith)
        requires
            0 <= a <= 0xffff,
            0 <= b <= 0xffff,
    ;
    assert(0 <= a * b) by (nonlinear_arith)
        requires
            0 <= a,
            0 <= b,
    ;
}

/// A grid of 16-bit extents has fewer than 2^32 cells.
pub proof fn lemma_grid_size(width: int, height: int)
    requires
        0 <= width <= 0xffff,
        0 <= height <= 0xffff,
    ensures
        0 <= width * height <= 0xfffe_0001,
{
    lemma_product_of_words(width, height);
}

impl ColonyKnobs {
    pub open spec fn cell_count(self) -> int {
        self.width * self.height
    }

    pub fn cells(&self) -> (cells: usize)
        ensures
            cells == self.cell_count(),
    {
        proof {
            lemma_product_of_words(self.width as int, self.height as int);
        }
        self.width as usize * self.height as usize
    }

    pub fn ant_count(&self) -> (ants: u32)
        ensures
            ants == self.colonies * self.ants_per_colony,
    {
        proof {
            lemma_product_of_words(self.colonies as int, self.ants_per_colony as int);
        }
        self.colonies as u32 * self.ants_per_colony as u32
    }

    /// Bytes of one field buffer: two 16-bit trail channels per cell.
    pub fn field_bytes(&self) -> (n: usize)
        requires
            4 * self.cell_count() <= usize::MAX,
        ensures
            n == 4 * self.cell_count(),
    {
        self.cells() * TRAIL_COUNT * 2
    }

    /// Bytes of one parity slot of a colony summary: a count and one record
    /// per ant.
    pub fn summary_slot_bytes(&self) -> (n: usize)
        ensures
            n == 4 + 8 * self.ants_per_colony,
    {
        4 + self.ants_per_colony as usize * 8
    }

    /// Bytes of one colony's summary object: two parity slots.
    pub fn summary_bytes(&self) -> (n: usize)
        ensures
            n == 2 * (4 + 8 * self.ants_per_colony),
    {
        self.summary_slot_bytes() * 2
    }
}

// ---- deterministic generator -----------------------------------------------

/// The state of a generator after one draw.
pub open spec fn rng_step(state: u64) -> u64 {
    state.wrapping_add(0x9E37_79B9_7F4A_7C15)
}

/// What a generator in `state` draws: the SplitMix64 finalizer.
pub open spec fn rng_draw(state: u64) -> u64 {
    let z = rng_step(state);
    let y = (z ^ (z >> 30)).wrapping_mul(0xBF58_476D_1CE4_E5B9);
    let x = (y ^ (y >> 27)).wrapping_mul(0x94D0_49BB_1331_11EB);
    x ^ (x >> 31)
}

/// The state of a generator after `n` draws.
pub open spec fn rng_after(state: u64, n: nat) -> u64
    decreases n,
{
    if n == 0 {
        state
    } else {
        rng_step(rng_after(state, (n - 1) as nat))
    }
}

/// SplitMix64. Each ant owns one, so no two ants share a stream and no ant
/// depends on when it ran.
pub fn split_mix(state: &mut u64) -> (value: u64)
    ensures
        *final(state) == rng_step(*old(state)),
        value == rng_draw(*old(state)),
{
    *state = state.wrapping_add(0x9E37_79B9_7F4A_7C15);
    let z: u64 = *state;
    let y: u64 = (z ^ (z >> 30)).wrapping_mul(0xBF58_476D_1CE4_E5B9);
    let x: u64 = (y ^ (y >> 27)).wrapping_mul(0x94D0_49BB_1331_11EB);
    x ^ (x >> 31)
}

// ---- terrain ---------------------------------------------------------------

/// A nest position.
pub type Nest = (u16, u16);

/// A food source: position and radius.
pub type FoodSource = (u16, u16, u16);

/// Immutable world geometry: bounds, nests, food sources, obstacles.
pub struct Terrain;

pub open spec fn header_words(knobs: ColonyKnobs, nests: nat, food: nat) -> Seq<(nat, nat)> {
    seq![(knobs.width as nat, 2), (knobs.height as nat, 2), (food, 2), (nests, 2)]
}

pub open spec fn food_words(food: Seq<FoodSource>, n: int) -> Seq<(nat, nat)>
    decreases n,
{
    if n <= 0 {
        Seq::empty()
    } else {
        let f = food[n - 1];
        food_words(food, n - 1) + seq![(f.0 as nat, 2nat), (f.1 as nat, 2nat), (f.2 as nat, 2nat)]
    }
}

pub open spec fn nest_words(nests: Seq<Nest>, n: int) -> Seq<(nat, nat)>
    decreases n,
{
    if n <= 0 {
        Seq::empty()
    } else {
        let t = nests[n - 1];
        nest_words(nests, n - 1) + seq![(t.0 as nat, 2nat), (t.1 as nat, 2nat)]
    }
}

/// The terrain up to its obstacle bitmap.
pub open spec fn terrain_head(knobs: ColonyKnobs, nests: Seq<Nest>, food: Seq<FoodSource>) -> Seq<
    u8,
> {
    frame::packed(
        header_words(knobs, nests.len(), food.len()) + food_words(food, food.len() as int)
            + nest_words(nests, nests.len() as int),
    )
}

/// Whether cell `index` is impassable: its draw of the seed's stream, out of a
/// hundred, lies below the percentage.
pub open spec fn is_blocked(knobs: ColonyKnobs, index: int) -> bool {
    rng_draw(rng_after(knobs.seed ^ 0xB10C_C0DE, index as nat)) % 100 < knobs.obstacle_percent
}

/// Bit `index` of a bitmap, lowest bit of each byte first.
pub open spec fn bit_of(bitmap: Seq<u8>, index: int) -> bool {
    bitmap[index / 8] & (1u8 << ((index % 8) as u8)) != 0
}

/// `bitmap` marks the impassable cells among the first `n` and nothing else.
pub open spec fn marks_blocked(bitmap: Seq<u8>, knobs: ColonyKnobs, n: int) -> bool {
    forall|i: int|
        0 <= i < 8 * bitmap.len() ==> #[trigger] bit_of(bitmap, i) == (i < n && is_blocked(
            knobs,
            i,
        ))
}

proof fn lemma_set_bit(byte: u8, at: u8, probe: u8)
    by (bit_vector)
    requires
        at < 8,
        probe < 8,
    ensures
        ((byte | (1u8 << at)) & (1u8 << probe) != 0) == (byte & (1u8 << probe) != 0 || at == probe),
{
}

proof fn lemma_blank_bit(probe: u8)
    by (bit_vector)
    requires
        probe < 8,
    ensures
        0u8 & (1u8 << probe) == 0,
{
}

impl Terrain {
    /// `width | height | food_count | nest_count`, then food sources, then
    /// nests, then the obstacle bitmap.
    pub fn encode(knobs: &ColonyKnobs, nests: &Vec<Nest>, food: &Vec<FoodSource>) -> (out: Vec<u8>)
        ensures
            ({
                let head = terrain_head(*knobs, nests@, food@);
                &&& out@.len() == head.len() + (knobs.cell_count() + 7) / 8
                &&& out@.take(head.len() as int) == head
                &&& marks_blocked(out@.skip(head.len() as int), *knobs, knobs.cell_count())
            }),
    {
        let mut out: Vec<u8> = Vec::new();
        let ghost head_words = header_words(*knobs, nests@.len(), food@.len());
        bytes::put_le(&mut out, knobs.width as u64, 2);
        bytes::put_le(&mut out, knobs.height as u64, 2);
        bytes::put_le(&mut out, food.len() as u64, 2);
        bytes::put_le(&mut out, nests.len() as u64, 2);
        proof {
            reveal_with_fuel(frame::packed, 5);
            assert(head_words.drop_last() =~= seq![
                (knobs.width as nat, 2nat),
                (knobs.height as nat, 2nat),
                (food@.len(), 2nat),
            ]);
            assert(head_words.drop_last().drop_last() =~= seq![
                (knobs.width as nat, 2nat),
                (knobs.height as nat, 2nat),
            ]);
            assert(head_words.drop_last().drop_last().drop_last() =~= seq![
                (knobs.width as nat, 2nat),
            ]);
            assert(head_words.drop_last().drop_last().drop_last().drop_last() =~= Seq::<
                (nat, nat),
            >::empty());
            assert(out@ =~= frame::packed(head_words));
        }
        let mut i: usize = 0;
        assert(head_words + food_words(food@, 0) =~= head_words);
        while i < food.len()
            invariant
                i <= food.len(),
                out@ == frame::packed(head_words + food_words(food@, i as int)),
            decreases food.len() - i,
        {
            let (x, y, r) = food[i];
            let ghost before = out@;
            bytes::put_le(&mut out, x as u64, 2);
            bytes::put_le(&mut out, y as u64, 2);
            bytes::put_le(&mut out, r as u64, 2);
            proof {
                let w = seq![(x as nat, 2nat), (y as nat, 2nat), (r as nat, 2nat)];
                lemma_packed_three(w);
                frame::lemma_packed_join(head_words + food_words(food@, i as int), w);
                assert(head_words + food_words(food@, i + 1) =~= head_words + food_words(
                    food@,
                    i as int,
                ) + w);
                assert(out@ =~= before + frame::packed(w));
            }
            i = i + 1;
        }
        let ghost food_done = head_words + food_words(food@, food@.len() as int);
        let mut n: usize = 0;
        assert(food_done + nest_words(nests@, 0) =~= food_done);
        while n < nests.len()
            invariant
                n <= nests.len(),
                out@ == frame::packed(food_done + nest_words(nests@, n as int)),
            decreases nests.len() - n,
        {
            let (x, y) = nests[n];
            let ghost before = out@;
            bytes::put_le(&mut out, x as u64, 2);
            bytes::put_le(&mut out, y as u64, 2);
            proof {
                let w = seq![(x as nat, 2nat), (y as nat, 2nat)];
                lemma_packed_two(w);
                frame::lemma_packed_join(food_done + nest_words(nests@, n as int), w);
                assert(food_done + nest_words(nests@, n + 1) =~= food_done + nest_words(
                    nests@,
                    n as int,
                ) + w);
                assert(out@ =~= before + frame::packed(w));
            }
            n = n + 1;
        }
        let ghost head = out@;
        let mut bitmap: Vec<u8> = Self::obstacle_bitmap(knobs);
        let ghost bits = bitmap@;
        out.append(&mut bitmap);
        assert(out@.take(head.len() as int) =~= head);
        assert(out@.skip(head.len() as int) =~= bits);
        out
    }

    fn obstacle_bitmap(knobs: &ColonyKnobs) -> (bits: Vec<u8>)
        ensures
            bits@.len() == (knobs.cell_count() + 7) / 8,
            marks_blocked(bits@, *knobs, knobs.cell_count()),
    {
        let cells: usize = knobs.cells();
        proof {
            lemma_product_of_words(knobs.width as int, knobs.height as int);
        }
        let whole: usize = cells / 8 + if cells % 8 == 0 {
            0
        } else {
            1
        };
        let mut bits: Vec<u8> = vec![0u8; whole];
        proof {
            assert forall|i: int| 0 <= i < 8 * bits@.len() implies !#[trigger] bit_of(bits@, i) by {
                lemma_blank_bit((i % 8) as u8);
            }
        }
        if knobs.obstacle_percent == 0 {
            return bits;
        }
        let mut rng: u64 = knobs.seed ^ 0xB10C_C0DE;
        let mut index: usize = 0;
        while index < cells
            invariant
                index <= cells,
                cells == knobs.cell_count(),
                bits@.len() == whole,
                cells <= 8 * whole,
                rng == rng_after(knobs.seed ^ 0xB10C_C0DE, index as nat),
                marks_blocked(bits@, *knobs, index as int),
            decreases cells - index,
        {
            let ghost before = bits@;
            let drawn: u64 = split_mix(&mut rng);
            if drawn % 100 < knobs.obstacle_percent as u64 {
                let at: u8 = (index % 8) as u8;
                let byte: u8 = bits[index / 8];
                bits.set(index / 8, byte | (1u8 << at));
                proof {
                    assert forall|i: int| 0 <= i < 8 * bits@.len() implies #[trigger] bit_of(
                        bits@,
                        i,
                    ) == (i < index + 1 && is_blocked(*knobs, i)) by {
                        lemma_set_bit(byte, at, (i % 8) as u8);
                        assert(bit_of(before, i) == (i < index && is_blocked(*knobs, i)));
                    }
                }
            } else {
                proof {
                    assert forall|i: int| 0 <= i < 8 * bits@.len() implies #[trigger] bit_of(
                        bits@,
                        i,
                    ) == (i < index + 1 && is_blocked(*knobs, i)) by {
                        assert(bit_of(before, i) == (i < index && is_blocked(*knobs, i)));
                    }
                }
            }
            index = index + 1;
        }
        bits
    }

    /// Whether `(x, y)` is impassable. Out of bounds counts as impassable, so a
    /// bounds check and an obstacle check are the same test to the caller.
    pub fn is_obstacle(bytes: &[u8], width: u16, height: u16, x: i32, y: i32) -> (blocked: bool)
        requires
            0 <= x < width && 0 <= y < height ==> bytes@.len() >= 8,
        ensures
            blocked == obstacle_at(bytes@, width, height, x as int, y as int),
    {
        if x < 0 || y < 0 || x >= width as i32 || y >= height as i32 {
            return true;
        }
        proof {
            lemma_cell_in_grid(x as int, y as int, width as int, height as int);
            bytes::lemma_radix_values();
        }
        let index: usize = y as usize * width as usize + x as usize;
        let food: usize = bytes::get_le(bytes, 4, 2) as usize;
        let nests: usize = bytes::get_le(bytes, 6, 2) as usize;
        let base: usize = TERRAIN_HEADER + food * 6 + nests * 4;
        if base + index / 8 < bytes.len() {
            let at: u8 = (index % 8) as u8;
            bytes[base + index / 8] & (1u8 << at) != 0
        } else {
            true
        }
    }

    /// Whether `(x, y)` lies inside a food source, or none where the terrain ends
    /// before that is known.
    pub fn find_food(bytes: &[u8], x: i32, y: i32) -> (found: Option<bool>)
        ensures
            found == if food_is_known(bytes@, x as int, y as int) {
                Some(food_at(bytes@, x as int, y as int))
            } else {
                None
            },
    {
        proof {
            bytes::lemma_radix_values();
        }
        let len: usize = bytes.len();
        assert(len == bytes@.len());
        if len < 6 {
            return None;
        }
        let count: usize = bytes::get_le(bytes, 4, 2) as usize;
        let mut i: usize = 0;
        while i < count
            invariant
                i <= count,
                len == bytes@.len(),
                len >= 6,
                count == food_count(bytes@),
                count <= 0xffff,
                forall|j: int| 0 <= j < i ==> !#[trigger] inside_source(bytes@, j, x as int, y as int),
                food_is_known(bytes@, x as int, y as int) == is_known_from(
                    bytes@,
                    x as int,
                    y as int,
                    i as int,
                ),
            decreases count - i,
        {
            if len < 8 + 6 * i + 6 {
                return None;
            }
            let (fx, fy, r) = Self::source_at(bytes, i);
            let dx: i128 = x as i128 - fx as i128;
            let dy: i128 = y as i128 - fy as i128;
            let reach: i128 = r as i128;
            proof {
                lemma_square(dx as int, 0x1_0000_0000);
                lemma_square(dy as int, 0x1_0000_0000);
                lemma_square(reach as int, 0x1_0000_0000);
            }
            if dx * dx + dy * dy <= reach * reach {
                assert(inside_source(bytes@, i as int, x as int, y as int));
                return Some(true);
            }
            i = i + 1;
        }
        Some(false)
    }

    /// Whether `(x, y)` lies inside a food source.
    pub fn is_food(bytes: &[u8], x: i32, y: i32) -> (found: bool)
        requires
            food_is_known(bytes@, x as int, y as int),
        ensures
            found == food_at(bytes@, x as int, y as int),
    {
        Self::find_food(bytes, x, y) == Some(true)
    }

    fn source_at(bytes: &[u8], i: usize) -> (source: FoodSource)
        requires
            8 + 6 * i + 6 <= bytes@.len(),
        ensures
            source == food_source(bytes@, i as int),
    {
        proof {
            bytes::lemma_radix_values();
        }
        let len: usize = bytes.len();
        assert(8 + 6 * i + 6 <= len);
        let at: usize = TERRAIN_HEADER + i * 6;
        (
            bytes::get_le(bytes, at, 2) as u16,
            bytes::get_le(bytes, at + 2, 2) as u16,
            bytes::get_le(bytes, at + 4, 2) as u16,
        )
    }

    /// Whether the terrain is long enough for the food sources that it counts.
    pub fn has_food_sources(bytes: &[u8]) -> (held: bool)
        ensures
            held == holds_food(bytes@),
    {
        proof {
            bytes::lemma_radix_values();
        }
        let len: usize = bytes.len();
        assert(len == bytes@.len());
        if len < 6 {
            return false;
        }
        let count: usize = bytes::get_le(bytes, 4, 2) as usize;
        count == 0 || len >= TERRAIN_HEADER + 6 * count
    }

    /// The food sources.
    pub fn food_sources(bytes: &[u8]) -> (sources: Vec<FoodSource>)
        requires
            holds_food(bytes@),
        ensures
            sources@ == food_sources_of(bytes@),
    {
        proof {
            bytes::lemma_radix_values();
        }
        let count: usize = bytes::get_le(bytes, 4, 2) as usize;
        let mut sources: Vec<FoodSource> = Vec::new();
        let mut i: usize = 0;
        while i < count
            invariant
                i <= count,
                count == food_count(bytes@),
                holds_food(bytes@),
                sources@ =~= food_sources_of(bytes@).take(i as int),
            decreases count - i,
        {
            sources.push(Self::source_at(bytes, i));
            i = i + 1;
        }
        sources
    }
}

proof fn lemma_packed_three(w: Seq<(nat, nat)>)
    requires
        w.len() == 3,
    ensures
        frame::packed(w) == bytes::le_bytes(w[0].0, w[0].1) + bytes::le_bytes(w[1].0, w[1].1)
            + bytes::le_bytes(w[2].0, w[2].1),
{
    lemma_packed_two(w.drop_last());
}

proof fn lemma_packed_two(w: Seq<(nat, nat)>)
    requires
        w.len() == 2,
    ensures
        frame::packed(w) == bytes::le_bytes(w[0].0, w[0].1) + bytes::le_bytes(w[1].0, w[1].1),
{
    reveal_with_fuel(frame::packed, 3);
    assert(frame::packed(w) =~= bytes::le_bytes(w[0].0, w[0].1) + bytes::le_bytes(w[1].0, w[1].1));
}

proof fn lemma_square(x: int, bound: int)
    requires
        -bound <= x <= bound,
    ensures
        0 <= x * x <= bound * bound,
{
    assert(0 <= x * x <= bound * bound) by (nonlinear_arith)
        requires
            -bound <= x <= bound,
    ;
}

pub proof fn lemma_cell_in_grid(x: int, y: int, width: int, height: int)
    requires
        0 <= x < width <= 0xffff,
        0 <= y < height <= 0xffff,
    ensures
        0 <= y * width,
        0 <= y * width + x < width * height <= 0xfffe_0001,
{
    lemma_product_of_words(width, height);
    assert(y * width + width <= width * height) by (nonlinear_arith)
        requires
            y + 1 <= height,
            0 <= width,
    ;
    assert(0 <= y * width) by (nonlinear_arith)
        requires
            0 <= y,
            0 <= width,
    ;
}

pub open spec fn food_count(terrain: Seq<u8>) -> int {
    bytes::word_at(terrain, 4, 2) as int
}

pub open spec fn nest_count(terrain: Seq<u8>) -> int {
    bytes::word_at(terrain, 6, 2) as int
}

/// The terrain is long enough for the food sources that it counts.
pub open spec fn holds_food(terrain: Seq<u8>) -> bool {
    &&& terrain.len() >= 6
    &&& food_count(terrain) > 0 ==> terrain.len() >= 8 + 6 * food_count(terrain)
}

/// The terrain holds its food sources from `i` on, up to the first around
/// `(x, y)` or to the last.
pub open spec fn is_known_from(terrain: Seq<u8>, x: int, y: int, i: int) -> bool
    decreases food_count(terrain) - i,
{
    ||| i >= food_count(terrain)
    ||| {
        &&& terrain.len() >= 8 + 6 * i + 6
        &&& inside_source(terrain, i, x, y) || is_known_from(terrain, x, y, i + 1)
    }
}

/// The terrain says whether `(x, y)` lies inside a food source.
pub open spec fn food_is_known(terrain: Seq<u8>, x: int, y: int) -> bool {
    terrain.len() >= 6 && is_known_from(terrain, x, y, 0)
}

pub open spec fn food_source(terrain: Seq<u8>, i: int) -> FoodSource {
    let at = 8 + 6 * i;
    (
        bytes::word_at(terrain, at, 2) as u16,
        bytes::word_at(terrain, at + 2, 2) as u16,
        bytes::word_at(terrain, at + 4, 2) as u16,
    )
}

pub open spec fn food_sources_of(terrain: Seq<u8>) -> Seq<FoodSource> {
    Seq::new(food_count(terrain) as nat, |i: int| food_source(terrain, i))
}

/// `(x, y)` lies within the radius of food source `i`.
pub open spec fn inside_source(terrain: Seq<u8>, i: int, x: int, y: int) -> bool {
    let (fx, fy, r) = food_source(terrain, i);
    (x - fx) * (x - fx) + (y - fy) * (y - fy) <= r * r
}

pub open spec fn food_at(terrain: Seq<u8>, x: int, y: int) -> bool {
    exists|i: int| 0 <= i < food_count(terrain) && #[trigger] inside_source(terrain, i, x, y)
}

/// Where the obstacle bitmap starts.
pub open spec fn bitmap_offset(terrain: Seq<u8>) -> int {
    8 + 6 * food_count(terrain) + 4 * nest_count(terrain)
}

/// Outside the grid, past the bitmap, or marked in it.
pub open spec fn obstacle_at(terrain: Seq<u8>, width: u16, height: u16, x: int, y: int) -> bool {
    ||| x < 0
    ||| y < 0
    ||| x >= width
    ||| y >= height
    ||| bitmap_offset(terrain) + (y * width + x) / 8 >= terrain.len()
    ||| bit_of(terrain.skip(bitmap_offset(terrain)), y * width + x)
}

proof fn lemma_food_words(food: Seq<FoodSource>, n: int)
    requires
        0 <= n <= food.len(),
    ensures
        food_words(food, n).len() == 3 * n,
        forall|i: int|
            0 <= i < n ==> {
                &&& #[trigger] food_words(food, n)[3 * i] == (food[i].0 as nat, 2nat)
                &&& food_words(food, n)[3 * i + 1] == (food[i].1 as nat, 2nat)
                &&& food_words(food, n)[3 * i + 2] == (food[i].2 as nat, 2nat)
            },
        forall|j: int| 0 <= j < 3 * n ==> (#[trigger] food_words(food, n)[j]).1 == 2 && food_words(
            food,
            n,
        )[j].0 < 0x1_0000,
    decreases n,
{
    if n > 0 {
        lemma_food_words(food, n - 1);
        let before = food_words(food, n - 1);
        let after = food_words(food, n);
        assert forall|i: int| 0 <= i < n implies {
            &&& #[trigger] after[3 * i] == (food[i].0 as nat, 2nat)
            &&& after[3 * i + 1] == (food[i].1 as nat, 2nat)
            &&& after[3 * i + 2] == (food[i].2 as nat, 2nat)
        } by {
            if i < n - 1 {
                assert(after[3 * i] == before[3 * i]);
                assert(after[3 * i + 1] == before[3 * i + 1]);
                assert(after[3 * i + 2] == before[3 * i + 2]);
            }
        }
        assert forall|j: int| 0 <= j < 3 * n implies (#[trigger] after[j]).1 == 2 && after[j].0
            < 0x1_0000 by {
            if j < 3 * (n - 1) {
                assert(after[j] == before[j]);
            }
        }
    }
}

proof fn lemma_nest_words(nests: Seq<Nest>, n: int)
    requires
        0 <= n <= nests.len(),
    ensures
        nest_words(nests, n).len() == 2 * n,
        forall|j: int| 0 <= j < 2 * n ==> (#[trigger] nest_words(nests, n)[j]).1 == 2 && nest_words(
            nests,
            n,
        )[j].0 < 0x1_0000,
    decreases n,
{
    if n > 0 {
        lemma_nest_words(nests, n - 1);
    }
}

proof fn lemma_pairs_offset(words: Seq<(nat, nat)>, i: int)
    requires
        0 <= i <= words.len(),
        forall|j: int| 0 <= j < words.len() ==> (#[trigger] words[j]).1 == 2,
    ensures
        frame::word_offset(words, i) == 2 * i,
    decreases i,
{
    if i > 0 {
        lemma_pairs_offset(words, i - 1);
    }
}

/// A word of a prefix is the word of the whole.
pub proof fn lemma_word_of_prefix(whole: Seq<u8>, head: Seq<u8>, at: int, n: int)
    requires
        0 <= at,
        0 <= n,
        at + n <= head.len() <= whole.len(),
        whole.take(head.len() as int) == head,
    ensures
        bytes::word_at(whole, at, n) == bytes::word_at(head, at, n),
{
    assert(whole.subrange(at, at + n) =~= whole.take(head.len() as int).subrange(at, at + n));
}

/// Reading an encoded terrain gives back what was encoded: its food sources,
/// whatever the grid, and an obstacle exactly outside the grid and where the
/// seed's stream put one.
pub proof fn law_terrain_reads_back(
    knobs: ColonyKnobs,
    nests: Seq<Nest>,
    food: Seq<FoodSource>,
    terrain: Seq<u8>,
    x: int,
    y: int,
)
    requires
        nests.len() <= u16::MAX,
        food.len() <= u16::MAX,
        ({
            let head = terrain_head(knobs, nests, food);
            &&& terrain.len() == head.len() + (knobs.cell_count() + 7) / 8
            &&& terrain.take(head.len() as int) == head
            &&& marks_blocked(terrain.skip(head.len() as int), knobs, knobs.cell_count())
        }),
    ensures
        holds_food(terrain),
        food_sources_of(terrain) == food,
        obstacle_at(terrain, knobs.width, knobs.height, x, y) == !(0 <= x < knobs.width && 0 <= y
            < knobs.height && !is_blocked(knobs, y * knobs.width + x)),
{
    let head = terrain_head(knobs, nests, food);
    let hw = header_words(knobs, nests.len(), food.len());
    let fw = food_words(food, food.len() as int);
    let nw = nest_words(nests, nests.len() as int);
    let words = hw + fw + nw;
    lemma_food_words(food, food.len() as int);
    lemma_nest_words(nests, nests.len() as int);
    bytes::lemma_radix_values();
    assert forall|j: int| 0 <= j < words.len() implies (#[trigger] words[j]).1 == 2 && words[j].0
        < 0x1_0000 by {
        if j >= 4 + fw.len() {
            assert(words[j] == nw[j - 4 - fw.len()]);
        } else if j >= 4 {
            assert(words[j] == fw[j - 4]);
        }
    }
    frame::lemma_packed_len(words);
    lemma_pairs_offset(words, words.len() as int);
    assert(head.len() == 8 + 6 * food.len() + 4 * nests.len());
    assert forall|j: int| 0 <= j < words.len() implies bytes::word_at(terrain, 2 * j, 2)
        == (#[trigger] words[j]).0 by {
        frame::lemma_packed_word(words, j);
        lemma_pairs_offset(words, j);
        lemma_word_of_prefix(terrain, head, 2 * j, 2);
    }
    assert(words[2].0 == food.len());
    assert(words[3].0 == nests.len());
    assert(food_count(terrain) == food.len());
    assert(nest_count(terrain) == nests.len());
    assert forall|i: int| 0 <= i < food.len() implies #[trigger] food_source(terrain, i)
        == food[i] by {
        assert(fw[3 * i] == (food[i].0 as nat, 2nat));
        assert(words[4 + 3 * i] == fw[3 * i]);
        assert(words[4 + 3 * i + 1] == fw[3 * i + 1]);
        assert(words[4 + 3 * i + 2] == fw[3 * i + 2]);
        assert(bytes::word_at(terrain, 2 * (4 + 3 * i), 2) == food[i].0);
        assert(bytes::word_at(terrain, 2 * (4 + 3 * i + 1), 2) == food[i].1);
        assert(bytes::word_at(terrain, 2 * (4 + 3 * i + 2), 2) == food[i].2);
    }
    assert(food_sources_of(terrain) =~= food);
    if 0 <= x < knobs.width && 0 <= y < knobs.height {
        lemma_cell_in_grid(x, y, knobs.width as int, knobs.height as int);
        let index = y * knobs.width + x;
        assert(index < knobs.cell_count());
        assert(bit_of(terrain.skip(head.len() as int), index) == (index < knobs.cell_count()
            && is_blocked(knobs, index)));
    }
}

// ---- field -----------------------------------------------------------------

/// Byte offset of one cell's trail value in a field buffer.
pub open spec fn trail_offset(cells: int, trail: int, index: int) -> int {
    (trail * cells + index) * 2
}

pub fn field_offset(cells: usize, trail: usize, index: usize) -> (at: usize)
    requires
        trail_offset(cells as int, trail as int, index as int) <= usize::MAX,
    ensures
        at == trail_offset(cells as int, trail as int, index as int),
{
    proof {
        assert(0 <= trail * cells) by (nonlinear_arith);
    }
    (trail * cells + index) * 2
}

/// A trail's strength at a cell, zero where the buffer does not reach.
pub open spec fn trail_at(field: Seq<u8>, cells: int, trail: int, index: int) -> u16 {
    let at = trail_offset(cells, trail, index);
    if at + 1 < field.len() {
        bytes::word_at(field, at, 2) as u16
    } else {
        0
    }
}

/// A field with one cell's trail set, where the buffer reaches it.
pub open spec fn trail_set(field: Seq<u8>, cells: int, trail: int, index: int, value: u16) -> Seq<u8> {
    let at = trail_offset(cells, trail, index);
    if at + 1 < field.len() {
        bytes::spliced(field, at, bytes::le_bytes(value as nat, 2))
    } else {
        field
    }
}

pub fn read_trail(bytes: &[u8], cells: usize, trail: usize, index: usize) -> (value: u16)
    requires
        trail_offset(cells as int, trail as int, index as int) < usize::MAX,
    ensures
        value == trail_at(bytes@, cells as int, trail as int, index as int),
{
    let at: usize = field_offset(cells, trail, index);
    let len: usize = bytes.len();
    if at + 1 < len {
        proof {
            bytes::lemma_radix_values();
        }
        bytes::get_le(bytes, at, 2) as u16
    } else {
        0
    }
}

pub fn write_trail(bytes: &mut [u8], cells: usize, trail: usize, index: usize, value: u16)
    requires
        trail_offset(cells as int, trail as int, index as int) < usize::MAX,
    ensures
        final(bytes)@ == trail_set(
            old(bytes)@,
            cells as int,
            trail as int,
            index as int,
            value,
        ),
        final(bytes)@.len() == old(bytes)@.len(),
{
    let at: usize = field_offset(cells, trail, index);
    if at + 1 < bytes.len() {
        bytes::set_le(bytes, at, value as u64, 2);
    }
}

/// A trail that was set reads back, and no other cell or channel changes.
pub proof fn law_trail_reads_back(
    field: Seq<u8>,
    cells: int,
    trail: int,
    index: int,
    value: u16,
    other_trail: int,
    other: int,
)
    requires
        0 <= trail_offset(cells, trail, index),
        trail_offset(cells, trail, index) + 1 < field.len(),
        0 <= trail_offset(cells, other_trail, other),
    ensures
        trail_at(trail_set(field, cells, trail, index, value), cells, trail, index) == value,
        trail_offset(cells, other_trail, other) != trail_offset(cells, trail, index) ==> trail_at(
            trail_set(field, cells, trail, index, value),
            cells,
            other_trail,
            other,
        ) == trail_at(field, cells, other_trail, other),
        trail_set(field, cells, trail, index, value).len() == field.len(),
{
    let at = trail_offset(cells, trail, index);
    let after = trail_set(field, cells, trail, index, value);
    bytes::lemma_radix_values();
    bytes::lemma_le_round_trip(value as nat, 2);
    assert(after.subrange(at, at + 2) =~= bytes::le_bytes(value as nat, 2));
    let elsewhere = trail_offset(cells, other_trail, other);
    if elsewhere != at && elsewhere + 1 < field.len() {
        assert(after.subrange(elsewhere, elsewhere + 2) =~= field.subrange(
            elsewhere,
            elsewhere + 2,
        ));
    }
}

// ---- frames ----------------------------------------------------------------

/// One ant's durable state. This is the whole ant, so any executive can resume
/// it at a continuation boundary.
#[derive(Clone, Copy, Debug, PartialEq, Eq, Structural)]
pub struct AntFrame {
    pub id: u32,
    pub colony: u16,
    pub x: u16,
    pub y: u16,
    pub home_x: u16,
    pub home_y: u16,
    pub width: u16,
    pub height: u16,
    pub rng: u64,
    pub carrying: u8,
    /// The direction index the ant is travelling in. Mostly keeping it turns a
    /// jitter into a search that covers ground.
    pub heading: u8,
    pub wait_ticks: u8,
    /// Epochs an ant idles for when it decides to wait.
    pub wait_reset: u8,
    /// Pheromone laid in one step.
    pub deposit_amount: u16,
    /// The strength up to which a cell reads as unmarked.
    pub sense_threshold: u16,
    /// Loads delivered home.
    pub delivered: u16,
    pub deposit: Ref64,
    pub terrain: Ref64,
    pub field_a: Ref64,
    pub field_b: Ref64,
}

pub const ANT_FRAME_BYTES: usize = 68;

impl AntFrame {
    /// The field buffer readable during `epoch`. The world writes the other.
    pub open spec fn field_read(self, epoch: u32) -> Ref64 {
        if epoch as int % 2 == 0 {
            self.field_a
        } else {
            self.field_b
        }
    }

    pub fn readable_field(&self, epoch: u32) -> (field: Ref64)
        ensures
            field == self.field_read(epoch),
    {
        if epoch % 2 == 0 {
            self.field_a
        } else {
            self.field_b
        }
    }

    pub fn cell(&self) -> (cell: usize)
        requires
            self.y * self.width + self.x <= usize::MAX,
        ensures
            cell == self.y * self.width + self.x,
    {
        proof {
            lemma_product_of_words(self.y as int, self.width as int);
        }
        self.y as usize * self.width as usize + self.x as usize
    }

    pub open spec fn words(self) -> Seq<(nat, nat)> {
        seq![
            (self.id as nat, 4nat),
            (self.colony as nat, 2nat),
            (self.x as nat, 2nat),
            (self.y as nat, 2nat),
            (self.home_x as nat, 2nat),
            (self.home_y as nat, 2nat),
            (self.width as nat, 2nat),
            (self.height as nat, 2nat),
            (self.rng as nat, 8nat),
            (self.carrying as nat, 1nat),
            (self.heading as nat, 1nat),
            (self.wait_ticks as nat, 1nat),
            (self.wait_reset as nat, 1nat),
            (self.deposit_amount as nat, 2nat),
            (self.sense_threshold as nat, 2nat),
            (self.delivered as nat, 2nat),
            (self.deposit.raw as nat, 8nat),
            (self.terrain.raw as nat, 8nat),
            (self.field_a.raw as nat, 8nat),
            (self.field_b.raw as nat, 8nat),
        ]
    }

    pub open spec fn encoded(self) -> Seq<u8> {
        frame::packed(self.words())
    }

    /// The ant that `s` starts with.
    pub open spec fn read(s: Seq<u8>) -> AntFrame {
        AntFrame {
            id: bytes::word_at(s, 0, 4) as u32,
            colony: bytes::word_at(s, 4, 2) as u16,
            x: bytes::word_at(s, 6, 2) as u16,
            y: bytes::word_at(s, 8, 2) as u16,
            home_x: bytes::word_at(s, 10, 2) as u16,
            home_y: bytes::word_at(s, 12, 2) as u16,
            width: bytes::word_at(s, 14, 2) as u16,
            height: bytes::word_at(s, 16, 2) as u16,
            rng: bytes::word_at(s, 18, 8) as u64,
            carrying: bytes::word_at(s, 26, 1) as u8,
            heading: bytes::word_at(s, 27, 1) as u8,
            wait_ticks: bytes::word_at(s, 28, 1) as u8,
            wait_reset: bytes::word_at(s, 29, 1) as u8,
            deposit_amount: bytes::word_at(s, 30, 2) as u16,
            sense_threshold: bytes::word_at(s, 32, 2) as u16,
            delivered: bytes::word_at(s, 34, 2) as u16,
            deposit: Ref64::of(bytes::word_at(s, 36, 8) as u64),
            terrain: Ref64::of(bytes::word_at(s, 44, 8) as u64),
            field_a: Ref64::of(bytes::word_at(s, 52, 8) as u64),
            field_b: Ref64::of(bytes::word_at(s, 60, 8) as u64),
        }
    }

    pub fn encode(&self, out: &mut Vec<u8>)
        ensures
            final(out)@ == old(out)@ + self.encoded(),
    {
        let words: Vec<(u64, usize)> =
            vec![
            (self.id as u64, 4),
            (self.colony as u64, 2),
            (self.x as u64, 2),
            (self.y as u64, 2),
            (self.home_x as u64, 2),
            (self.home_y as u64, 2),
            (self.width as u64, 2),
            (self.height as u64, 2),
            (self.rng, 8),
            (self.carrying as u64, 1),
            (self.heading as u64, 1),
            (self.wait_ticks as u64, 1),
            (self.wait_reset as u64, 1),
            (self.deposit_amount as u64, 2),
            (self.sense_threshold as u64, 2),
            (self.delivered as u64, 2),
            (self.deposit.raw, 8),
            (self.terrain.raw, 8),
            (self.field_a.raw, 8),
            (self.field_b.raw, 8),
        ];
        assert(frame::words_of(words@) =~= self.words());
        frame::put_words(out, &words);
    }

    /// The ant at the start of `s`, where it is long enough.
    pub fn decode(s: &[u8]) -> (ant: Option<AntFrame>)
        ensures
            ant == if s@.len() >= 68 {
                Some(AntFrame::read(s@))
            } else {
                None
            },
    {
        if s.len() < ANT_FRAME_BYTES {
            return None;
        }
        proof {
            bytes::lemma_radix_values();
        }
        Some(
            AntFrame {
                id: bytes::get_le(s, 0, 4) as u32,
                colony: bytes::get_le(s, 4, 2) as u16,
                x: bytes::get_le(s, 6, 2) as u16,
                y: bytes::get_le(s, 8, 2) as u16,
                home_x: bytes::get_le(s, 10, 2) as u16,
                home_y: bytes::get_le(s, 12, 2) as u16,
                width: bytes::get_le(s, 14, 2) as u16,
                height: bytes::get_le(s, 16, 2) as u16,
                rng: bytes::get_le(s, 18, 8),
                carrying: bytes::get_le(s, 26, 1) as u8,
                heading: bytes::get_le(s, 27, 1) as u8,
                wait_ticks: bytes::get_le(s, 28, 1) as u8,
                wait_reset: bytes::get_le(s, 29, 1) as u8,
                deposit_amount: bytes::get_le(s, 30, 2) as u16,
                sense_threshold: bytes::get_le(s, 32, 2) as u16,
                delivered: bytes::get_le(s, 34, 2) as u16,
                deposit: Ref64 { raw: bytes::get_le(s, 36, 8) },
                terrain: Ref64 { raw: bytes::get_le(s, 44, 8) },
                field_a: Ref64 { raw: bytes::get_le(s, 52, 8) },
                field_b: Ref64 { raw: bytes::get_le(s, 60, 8) },
            },
        )
    }
}

/// An ant's frame reads back as the ant.
#[verifier::rlimit(60)]
pub proof fn law_ant_frame_reads_back(ant: AntFrame)
    ensures
        ant.encoded().len() == 68,
        AntFrame::read(ant.encoded()) == ant,
{
    let w = ant.words();
    bytes::lemma_radix_values();
    reveal_with_fuel(frame::word_offset, 21);
    frame::lemma_packed_len(w);
    frame::lemma_packed_word(w, 0);
    frame::lemma_packed_word(w, 1);
    frame::lemma_packed_word(w, 2);
    frame::lemma_packed_word(w, 3);
    frame::lemma_packed_word(w, 4);
    frame::lemma_packed_word(w, 5);
    frame::lemma_packed_word(w, 6);
    frame::lemma_packed_word(w, 7);
    frame::lemma_packed_word(w, 8);
    frame::lemma_packed_word(w, 9);
    frame::lemma_packed_word(w, 10);
    frame::lemma_packed_word(w, 11);
    frame::lemma_packed_word(w, 12);
    frame::lemma_packed_word(w, 13);
    frame::lemma_packed_word(w, 14);
    frame::lemma_packed_word(w, 15);
    frame::lemma_packed_word(w, 16);
    frame::lemma_packed_word(w, 17);
    frame::lemma_packed_word(w, 18);
    frame::lemma_packed_word(w, 19);
}

/// One colony's aggregation state.
#[derive(Debug)]
pub struct ColonyFrame {
    pub id: u16,
    pub summary: Ref64,
    /// The deposit objects this colony may read, one per ant.
    pub deposits: Vec<u64>,
}

#[verifier::ext_equal]
pub ghost struct ColonyView {
    pub id: u16,
    pub summary: Ref64,
    pub deposits: Seq<u64>,
}

impl View for ColonyFrame {
    type V = ColonyView;

    open spec fn view(&self) -> ColonyView {
        ColonyView { id: self.id, summary: self.summary, deposits: self.deposits@ }
    }
}

impl ColonyView {
    pub open spec fn encoded(self) -> Seq<u8> {
        frame::packed(seq![(self.id as nat, 2nat), (self.summary.raw as nat, 8nat)])
            + bytes::le_bytes(self.deposits.len(), 4) + frame::packed(
            frame::long_words(self.deposits),
        )
    }

    /// The colony that `s` starts with, where it is long enough.
    pub open spec fn read(s: Seq<u8>) -> Option<ColonyView> {
        if s.len() < 10 {
            None
        } else {
            match frame::long_list_at(s, 10) {
                Some(deposits) => Some(
                    ColonyView {
                        id: bytes::word_at(s, 0, 2) as u16,
                        summary: Ref64::of(bytes::word_at(s, 2, 8) as u64),
                        deposits,
                    },
                ),
                None => None,
            }
        }
    }
}

pub open spec fn colony_view(frame: Option<ColonyFrame>) -> Option<ColonyView> {
    match frame {
        Some(frame) => Some(frame@),
        None => None,
    }
}

impl ColonyFrame {
    pub fn encode(&self, out: &mut Vec<u8>)
        requires
            self@.deposits.len() <= u32::MAX,
        ensures
            final(out)@ == old(out)@ + self@.encoded(),
    {
        let ghost start = out@;
        let words: Vec<(u64, usize)> = vec![(self.id as u64, 2), (self.summary.raw, 8)];
        assert(frame::words_of(words@) =~= seq![
            (self.id as nat, 2nat),
            (self.summary.raw as nat, 8nat),
        ]);
        frame::put_words(out, &words);
        frame::put_vec_u64(out, &self.deposits);
        assert(out@ =~= start + self@.encoded());
    }

    pub fn decode(s: &[u8]) -> (colony: Option<ColonyFrame>)
        ensures
            colony_view(colony) == ColonyView::read(s@),
    {
        if s.len() < 10 {
            return None;
        }
        proof {
            bytes::lemma_radix_values();
        }
        match frame::get_vec_u64(s, 10) {
            Some(deposits) => {
                let colony = ColonyFrame {
                    id: bytes::get_le(s, 0, 2) as u16,
                    summary: Ref64 { raw: bytes::get_le(s, 2, 8) },
                    deposits,
                };
                Some(colony)
            },
            None => None,
        }
    }
}

/// The world's aggregation state.
#[derive(Debug)]
pub struct WorldFrame {
    pub width: u16,
    pub height: u16,
    pub decay: u16,
    pub field_a: Ref64,
    pub field_b: Ref64,
    pub summaries: Vec<u64>,
}

#[verifier::ext_equal]
pub ghost struct WorldView {
    pub width: u16,
    pub height: u16,
    pub decay: u16,
    pub field_a: Ref64,
    pub field_b: Ref64,
    pub summaries: Seq<u64>,
}

impl View for WorldFrame {
    type V = WorldView;

    open spec fn view(&self) -> WorldView {
        WorldView {
            width: self.width,
            height: self.height,
            decay: self.decay,
            field_a: self.field_a,
            field_b: self.field_b,
            summaries: self.summaries@,
        }
    }
}

impl WorldView {
    /// The buffer that ants read during `epoch`, and the one the world writes.
    pub open spec fn buffers_at(self, epoch: u32) -> (Ref64, Ref64) {
        if epoch as int % 2 == 0 {
            (self.field_a, self.field_b)
        } else {
            (self.field_b, self.field_a)
        }
    }

    pub open spec fn head_words(self) -> Seq<(nat, nat)> {
        seq![
            (self.width as nat, 2nat),
            (self.height as nat, 2nat),
            (self.decay as nat, 2nat),
            (self.field_a.raw as nat, 8nat),
            (self.field_b.raw as nat, 8nat),
        ]
    }

    pub open spec fn encoded(self) -> Seq<u8> {
        frame::packed(self.head_words()) + bytes::le_bytes(self.summaries.len(), 4) + frame::packed(
            frame::long_words(self.summaries),
        )
    }

    /// The world that `s` starts with, where it is long enough.
    pub open spec fn read(s: Seq<u8>) -> Option<WorldView> {
        if s.len() < 22 {
            None
        } else {
            match frame::long_list_at(s, 22) {
                Some(summaries) => Some(
                    WorldView {
                        width: bytes::word_at(s, 0, 2) as u16,
                        height: bytes::word_at(s, 2, 2) as u16,
                        decay: bytes::word_at(s, 4, 2) as u16,
                        field_a: Ref64::of(bytes::word_at(s, 6, 8) as u64),
                        field_b: Ref64::of(bytes::word_at(s, 14, 8) as u64),
                        summaries,
                    },
                ),
                None => None,
            }
        }
    }
}

pub open spec fn world_view(frame: Option<WorldFrame>) -> Option<WorldView> {
    match frame {
        Some(frame) => Some(frame@),
        None => None,
    }
}

impl WorldFrame {
    pub fn cells(&self) -> (cells: usize)
        ensures
            cells == self.width * self.height,
    {
        proof {
            lemma_product_of_words(self.width as int, self.height as int);
        }
        self.width as usize * self.height as usize
    }

    pub fn buffers(&self, epoch: u32) -> (pair: (Ref64, Ref64))
        ensures
            pair == self@.buffers_at(epoch),
    {
        if epoch % 2 == 0 {
            (self.field_a, self.field_b)
        } else {
            (self.field_b, self.field_a)
        }
    }

    pub fn encode(&self, out: &mut Vec<u8>)
        requires
            self@.summaries.len() <= u32::MAX,
        ensures
            final(out)@ == old(out)@ + self@.encoded(),
    {
        let ghost start = out@;
        let words: Vec<(u64, usize)> =
            vec![
            (self.width as u64, 2),
            (self.height as u64, 2),
            (self.decay as u64, 2),
            (self.field_a.raw, 8),
            (self.field_b.raw, 8),
        ];
        assert(frame::words_of(words@) =~= self@.head_words());
        frame::put_words(out, &words);
        frame::put_vec_u64(out, &self.summaries);
        assert(out@ =~= start + self@.encoded());
    }

    pub fn decode(s: &[u8]) -> (world: Option<WorldFrame>)
        ensures
            world_view(world) == WorldView::read(s@),
    {
        if s.len() < 22 {
            return None;
        }
        proof {
            bytes::lemma_radix_values();
        }
        match frame::get_vec_u64(s, 22) {
            Some(summaries) => {
                let world = WorldFrame {
                    width: bytes::get_le(s, 0, 2) as u16,
                    height: bytes::get_le(s, 2, 2) as u16,
                    decay: bytes::get_le(s, 4, 2) as u16,
                    field_a: Ref64 { raw: bytes::get_le(s, 6, 8) },
                    field_b: Ref64 { raw: bytes::get_le(s, 14, 8) },
                    summaries,
                };
                Some(world)
            },
            None => None,
        }
    }
}

/// The buffer being read is never the buffer being written, and what the world
/// writes in one epoch is what ants read in the next.
pub proof fn law_field_buffers_alternate(world: WorldView, epoch: u32)
    requires
        world.field_a != world.field_b,
        epoch < u32::MAX,
    ensures
        world.buffers_at(epoch).0 != world.buffers_at(epoch).1,
        world.buffers_at((epoch + 1) as u32).0 == world.buffers_at(epoch).1,
{
}

/// The numbers of a list read back from its place in a frame.
pub proof fn lemma_list_reads_back(head: Seq<u8>, values: Seq<u64>)
    requires
        values.len() <= u32::MAX,
    ensures
        frame::long_list_at(
            head + bytes::le_bytes(values.len(), 4) + frame::packed(frame::long_words(values)),
            head.len() as int,
        ) == Some(values),
{
    let words = frame::long_words(values);
    let tail = frame::packed(words);
    let count = bytes::le_bytes(values.len(), 4);
    let s = head + count + tail;
    let at = head.len() as int;
    bytes::lemma_radix_values();
    bytes::lemma_le_round_trip(values.len(), 4);
    assert(s.subrange(at, at + 4) =~= count);
    frame::lemma_packed_len(words);
    frame::lemma_long_offset(values, values.len() as int);
    assert forall|i: int| 0 <= i < values.len() implies bytes::word_at(s, at + 4 + 8 * i, 8)
        == #[trigger] values[i] by {
        frame::lemma_packed_word(words, i);
        frame::lemma_long_offset(values, i);
        assert(s.subrange(at + 4 + 8 * i, at + 4 + 8 * i + 8) =~= tail.subrange(8 * i, 8 * i + 8));
    }
    assert(frame::long_list_at(s, at)->Some_0 =~= values);
}

/// A colony's frame reads back as the colony.
pub proof fn law_colony_frame_reads_back(colony: ColonyView)
    requires
        colony.deposits.len() <= u32::MAX,
    ensures
        ColonyView::read(colony.encoded()) == Some(colony),
{
    let w = seq![(colony.id as nat, 2nat), (colony.summary.raw as nat, 8nat)];
    let head = frame::packed(w);
    bytes::lemma_radix_values();
    reveal_with_fuel(frame::word_offset, 3);
    frame::lemma_packed_len(w);
    frame::lemma_packed_word(w, 0);
    frame::lemma_packed_word(w, 1);
    lemma_list_reads_back(head, colony.deposits);
    assert(colony.encoded().take(10) =~= head);
    lemma_word_of_prefix(colony.encoded(), head, 0, 2);
    lemma_word_of_prefix(colony.encoded(), head, 2, 8);
    assert(ColonyView::read(colony.encoded())->Some_0 =~= colony);
}

/// The world's frame reads back as the world.
pub proof fn law_world_frame_reads_back(world: WorldView)
    requires
        world.summaries.len() <= u32::MAX,
    ensures
        WorldView::read(world.encoded()) == Some(world),
{
    let w = world.head_words();
    let head = frame::packed(w);
    bytes::lemma_radix_values();
    reveal_with_fuel(frame::word_offset, 6);
    frame::lemma_packed_len(w);
    frame::lemma_packed_word(w, 0);
    frame::lemma_packed_word(w, 1);
    frame::lemma_packed_word(w, 2);
    frame::lemma_packed_word(w, 3);
    frame::lemma_packed_word(w, 4);
    lemma_list_reads_back(head, world.summaries);
    assert(world.encoded().take(22) =~= head);
    lemma_word_of_prefix(world.encoded(), head, 0, 2);
    lemma_word_of_prefix(world.encoded(), head, 2, 2);
    lemma_word_of_prefix(world.encoded(), head, 4, 2);
    lemma_word_of_prefix(world.encoded(), head, 6, 8);
    lemma_word_of_prefix(world.encoded(), head, 14, 8);
    assert(WorldView::read(world.encoded())->Some_0 =~= world);
}

// ---- deposits --------------------------------------------------------------

/// One ant's report for one epoch. The epoch stamp is what makes a dead ant
/// harmless: a record with another stamp is not counted.
#[derive(Clone, Copy, Debug, PartialEq, Eq, Structural)]
pub struct Deposit {
    pub epoch: u32,
    pub x: u16,
    pub y: u16,
    pub food: u16,
    pub home: u16,
}

impl Deposit {
    pub open spec fn words(self) -> Seq<(nat, nat)> {
        seq![
            (self.epoch as nat, 4nat),
            (self.x as nat, 2nat),
            (self.y as nat, 2nat),
            (self.food as nat, 2nat),
            (self.home as nat, 2nat),
        ]
    }

    /// `s` with this record at `at`. The last bytes of a record are not used.
    pub open spec fn written(self, s: Seq<u8>, at: int) -> Seq<u8> {
        bytes::spliced(s, at, frame::packed(self.words()))
    }

    /// The record at `at`.
    pub open spec fn read_at(s: Seq<u8>, at: int) -> Deposit {
        Deposit {
            epoch: bytes::word_at(s, at, 4) as u32,
            x: bytes::word_at(s, at + 4, 2) as u16,
            y: bytes::word_at(s, at + 6, 2) as u16,
            food: bytes::word_at(s, at + 8, 2) as u16,
            home: bytes::word_at(s, at + 10, 2) as u16,
        }
    }

    pub open spec fn blank() -> Deposit {
        Deposit { epoch: 0, x: 0, y: 0, food: 0, home: 0 }
    }

    pub fn write_at(&self, bytes: &mut [u8], at: usize)
        requires
            at + 16 <= old(bytes)@.len(),
        ensures
            final(bytes)@ == self.written(old(bytes)@, at as int),
            final(bytes)@.len() == old(bytes)@.len(),
    {
        let ghost start = bytes@;
        let mut record: Vec<u8> = Vec::new();
        let words: Vec<(u64, usize)> =
            vec![
            (self.epoch as u64, 4),
            (self.x as u64, 2),
            (self.y as u64, 2),
            (self.food as u64, 2),
            (self.home as u64, 2),
        ];
        assert(frame::words_of(words@) =~= self.words());
        frame::put_words(&mut record, &words);
        proof {
            assert(record@ =~= frame::packed(self.words()));
            reveal_with_fuel(frame::word_offset, 6);
            frame::lemma_packed_len(self.words());
        }
        overwrite(bytes, at, &record);
    }

    /// Writes the record at the start of `bytes`, where it fits.
    pub fn write(&self, bytes: &mut [u8])
        ensures
            final(bytes)@ == if old(bytes)@.len() < 16 {
                old(bytes)@
            } else {
                self.written(old(bytes)@, 0)
            },
    {
        if bytes.len() < DEPOSIT_RECORD {
            return;
        }
        self.write_at(bytes, 0);
    }

    /// The record at the start of `bytes`; a blank one where it does not fit.
    pub fn read(bytes: &[u8]) -> (record: Deposit)
        ensures
            record == if bytes@.len() < 16 {
                Deposit::blank()
            } else {
                Deposit::read_at(bytes@, 0)
            },
    {
        if bytes.len() < DEPOSIT_RECORD {
            return Deposit { epoch: 0, x: 0, y: 0, food: 0, home: 0 };
        }
        Self::read_from(bytes, 0)
    }

    pub fn read_from(bytes: &[u8], at: usize) -> (record: Deposit)
        requires
            at + 16 <= bytes@.len(),
        ensures
            record == Deposit::read_at(bytes@, at as int),
    {
        proof {
            bytes::lemma_radix_values();
        }
        let len: usize = bytes.len();
        assert(at + 16 <= len);
        Deposit {
            epoch: bytes::get_le(bytes, at, 4) as u32,
            x: bytes::get_le(bytes, at + 4, 2) as u16,
            y: bytes::get_le(bytes, at + 6, 2) as u16,
            food: bytes::get_le(bytes, at + 8, 2) as u16,
            home: bytes::get_le(bytes, at + 10, 2) as u16,
        }
    }
}

/// Overwrites `bytes` from `at` with `patch`.
pub fn overwrite(bytes: &mut [u8], at: usize, patch: &Vec<u8>)
    requires
        at + patch@.len() <= old(bytes)@.len(),
    ensures
        final(bytes)@ == bytes::spliced(old(bytes)@, at as int, patch@),
        final(bytes)@.len() == old(bytes)@.len(),
{
    let ghost start = bytes@;
    let mut i: usize = 0;
    while i < patch.len()
        invariant
            i <= patch.len(),
            at + patch.len() <= bytes@.len(),
            bytes@.len() == start.len(),
            bytes@ =~= bytes::spliced(start, at as int, patch@.take(i as int)),
        decreases patch.len() - i,
    {
        let len: usize = bytes.len();
        assert(at + i < len);
        bytes[at + i] = patch[i];
        i = i + 1;
    }
    assert(patch@.take(i as int) =~= patch@);
}

/// A deposit that was written reads back.
pub proof fn law_deposit_reads_back(record: Deposit, s: Seq<u8>, at: int)
    requires
        0 <= at,
        at + 16 <= s.len(),
    ensures
        Deposit::read_at(record.written(s, at), at) == record,
{
    let w = record.words();
    let p = frame::packed(w);
    let after = record.written(s, at);
    bytes::lemma_radix_values();
    reveal_with_fuel(frame::word_offset, 6);
    frame::lemma_packed_len(w);
    frame::lemma_packed_word(w, 0);
    frame::lemma_packed_word(w, 1);
    frame::lemma_packed_word(w, 2);
    frame::lemma_packed_word(w, 3);
    frame::lemma_packed_word(w, 4);
    assert(after.subrange(at, at + 4) =~= p.subrange(0, 4));
    assert(after.subrange(at + 4, at + 6) =~= p.subrange(4, 6));
    assert(after.subrange(at + 6, at + 8) =~= p.subrange(6, 8));
    assert(after.subrange(at + 8, at + 10) =~= p.subrange(8, 10));
    assert(after.subrange(at + 10, at + 12) =~= p.subrange(10, 12));
}

impl Frame for AntFrame {
    open spec fn reads_as(s: Seq<u8>, frame: Option<Self>) -> bool {
        frame == if s.len() >= 68 {
            Some(AntFrame::read(s))
        } else {
            None
        }
    }

    fn from_bytes(s: &[u8]) -> (frame: Option<Self>) {
        AntFrame::decode(s)
    }
}

impl Frame for ColonyFrame {
    open spec fn reads_as(s: Seq<u8>, frame: Option<Self>) -> bool {
        colony_view(frame) == ColonyView::read(s)
    }

    fn from_bytes(s: &[u8]) -> (frame: Option<Self>) {
        ColonyFrame::decode(s)
    }
}

impl Frame for WorldFrame {
    open spec fn reads_as(s: Seq<u8>, frame: Option<Self>) -> bool {
        world_view(frame) == WorldView::read(s)
    }

    fn from_bytes(s: &[u8]) -> (frame: Option<Self>) {
        WorldFrame::decode(s)
    }
}

} // verus!

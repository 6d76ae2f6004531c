//! Ants, colonies and the world, one step at a time.
//!
//! An ant's decision is a function of its frame and of what it senses. The
//! handlers around it read what the decision needs and write what came of it.

use crate::bytes;
use crate::compiler::frame;
use crate::compiler::run_classes::{
    ANT_AVOID_OBSTACLE, ANT_CARRY_FOOD, ANT_EXPLORE, ANT_FOLLOW_TRAIL, ANT_RETURN_HOME, ANT_WAIT,
    COLONY_AGGREGATE, WORLD_STEP,
};
use crate::executives::lane;
use crate::executives::lane::LaneView;
use crate::executives::step;
use crate::executives::step::{frame_bytes, store_bytes, StepResult};
use crate::experiments::ant_build;
use crate::experiments::ant_colony as colony;
use crate::experiments::ant_colony::{
    direction_offset, overwrite, read_trail, split_mix, write_slot, write_trail, AntFrame,
    ColonyFrame, ColonyView, Deposit, Terrain, WorldFrame, WorldView, DEPOSIT_RECORD, TRAIL_FOOD,
    TRAIL_HOME,
};
use crate::experiments::ant_observe;
use crate::kernel;
use crate::kernel::{Call, Kernel, Ref64, RuntimeError};
use vstd::prelude::*;

verus! {

// ---- sensing ---------------------------------------------------------------

/// What an ant can see from where it stands, neighbour by neighbour.
#[derive(Clone, Copy, Debug)]
pub struct Senses {
    /// Whether each of the eight neighbours can be entered.
    pub passable: [bool; 8],
    /// Food-trail strength at each neighbour.
    pub food_trail: [u16; 8],
    /// Home-trail strength at each neighbour.
    pub home_trail: [u16; 8],
    /// Whether the ant is standing on a food source.
    pub on_food: bool,
}

#[verifier::ext_equal]
pub ghost struct SensesView {
    pub passable: Seq<bool>,
    pub food: Seq<u16>,
    pub home: Seq<u16>,
    pub on_food: bool,
}

impl View for Senses {
    type V = SensesView;

    open spec fn view(&self) -> SensesView {
        SensesView {
            passable: self.passable@,
            food: self.food_trail@,
            home: self.home_trail@,
            on_food: self.on_food,
        }
    }
}

/// Where the neighbour in direction `i` lies.
pub open spec fn neighbour(ant: AntFrame, i: int) -> (int, int) {
    let (dx, dy) = colony::offset_of_direction(i);
    (ant.x + dx, ant.y + dy)
}

pub open spec fn can_enter(ant: AntFrame, terrain: Seq<u8>, i: int) -> bool {
    let (x, y) = neighbour(ant, i);
    !colony::obstacle_at(terrain, ant.width, ant.height, x, y)
}

/// A trail's strength at a neighbour, zero outside the grid.
pub open spec fn sensed(ant: AntFrame, field: Seq<u8>, trail: int, i: int) -> u16 {
    let (x, y) = neighbour(ant, i);
    if 0 <= x < ant.width && 0 <= y < ant.height {
        colony::trail_at(field, ant.width * ant.height, trail, y * ant.width + x)
    } else {
        0
    }
}

pub open spec fn senses_of(ant: AntFrame, terrain: Seq<u8>, field: Seq<u8>) -> SensesView {
    SensesView {
        passable: Seq::new(8, |i: int| can_enter(ant, terrain, i)),
        food: Seq::new(8, |i: int| sensed(ant, field, 0, i)),
        home: Seq::new(8, |i: int| sensed(ant, field, 1, i)),
        on_food: colony::food_at(terrain, ant.x as int, ant.y as int),
    }
}

/// A field over the ant's grid can be addressed.
pub open spec fn is_addressable(width: u16, height: u16) -> bool {
    4 * (width * height) <= usize::MAX
}

/// A neighbour that lies in the grid.
pub open spec fn is_inside(ant: AntFrame, i: int) -> bool {
    let (x, y) = neighbour(ant, i);
    0 <= x < ant.width && 0 <= y < ant.height
}

/// The terrain reaches as far as an ant looks into it: its header where a
/// neighbour lies in the grid, and its food sources up to the one that the ant
/// stands in.
pub open spec fn can_see(ant: AntFrame, terrain: Seq<u8>) -> bool {
    &&& forall|i: int| 0 <= i < 8 && #[trigger] is_inside(ant, i) ==> terrain.len() >= 8
    &&& colony::food_is_known(terrain, ant.x as int, ant.y as int)
}

/// Reads what an ant sees out of the terrain and the readable field. Only the
/// eight neighbours are read.
pub fn sense(ant: &AntFrame, terrain: &Vec<u8>, field: &Vec<u8>) -> (senses: Senses)
    requires
        can_see(*ant, terrain@),
        is_addressable(ant.width, ant.height),
    ensures
        senses@ == senses_of(*ant, terrain@, field@),
{
    let mut passable: [bool; 8] = [false; 8];
    let mut food: [u16; 8] = [0u16; 8];
    let mut home: [u16; 8] = [0u16; 8];
    proof {
        colony::lemma_grid_size(ant.width as int, ant.height as int);
    }
    let cells: usize = ant.width as usize * ant.height as usize;
    let mut i: usize = 0;
    while i < 8
        invariant
            i <= 8,
            can_see(*ant, terrain@),
            cells == ant.width * ant.height,
            4 * cells <= usize::MAX,
            forall|j: int| 0 <= j < i ==> passable@[j] == can_enter(*ant, terrain@, j),
            forall|j: int| 0 <= j < i ==> food@[j] == sensed(*ant, field@, 0, j),
            forall|j: int| 0 <= j < i ==> home@[j] == sensed(*ant, field@, 1, j),
            forall|j: int| i <= j < 8 ==> food@[j] == 0 && home@[j] == 0,
        decreases 8 - i,
    {
        let (dx, dy) = direction_offset(i);
        let x: i32 = ant.x as i32 + dx;
        let y: i32 = ant.y as i32 + dy;
        assert(is_inside(*ant, i as int) ==> terrain@.len() >= 8);
        passable[i] = !Terrain::is_obstacle(terrain.as_slice(), ant.width, ant.height, x, y);
        if x >= 0 && y >= 0 && x < ant.width as i32 && y < ant.height as i32 {
            proof {
                colony::lemma_cell_in_grid(x as int, y as int, ant.width as int, ant.height as int);
            }
            let cell: usize = y as usize * ant.width as usize + x as usize;
            proof {
                ant_observe::lemma_offset_fits(cells as int, 0, cell as int);
                ant_observe::lemma_offset_fits(cells as int, 1, cell as int);
            }
            food[i] = read_trail(field.as_slice(), cells, TRAIL_FOOD, cell);
            home[i] = read_trail(field.as_slice(), cells, TRAIL_HOME, cell);
        }
        i = i + 1;
    }
    let senses = Senses {
        passable,
        food_trail: food,
        home_trail: home,
        on_food: Terrain::is_food(terrain.as_slice(), ant.x as i32, ant.y as i32),
    };
    assert(senses@ =~= senses_of(*ant, terrain@, field@));
    senses
}

// ---- directions ------------------------------------------------------------

/// The strongest open direction above the threshold among the first `n` from
/// `start` on; the first of them where several are as strong.
pub open spec fn best_among(
    scores: Seq<u16>,
    open: Seq<bool>,
    threshold: u16,
    start: int,
    n: int,
) -> Option<int>
    decreases n,
{
    if n <= 0 {
        None
    } else {
        let before = best_among(scores, open, threshold, start, n - 1);
        let i = (start + n - 1) % 8;
        if !open[i] || scores[i] <= threshold {
            before
        } else {
            match before {
                Some(best) => if scores[i] > scores[best] {
                    Some(i)
                } else {
                    before
                },
                None => Some(i),
            }
        }
    }
}

/// The strongest open direction, scanned from where the generator says.
pub open spec fn best_of(scores: Seq<u16>, open: Seq<bool>, threshold: u16, rng: u64) -> Option<int> {
    best_among(scores, open, threshold, (colony::rng_draw(rng) % 8) as int, 8)
}

/// The first open direction from `start + k` on.
pub open spec fn first_open(open: Seq<bool>, start: int, k: int) -> Option<int>
    decreases 8 - k,
{
    if k >= 8 {
        None
    } else if open[(start + k) % 8] {
        Some((start + k) % 8)
    } else {
        first_open(open, start, k + 1)
    }
}

/// An open direction chosen at random.
pub open spec fn random_of(open: Seq<bool>, rng: u64) -> Option<int> {
    first_open(open, (colony::rng_draw(rng) % 8) as int, 0)
}

proof fn lemma_best_in_range(scores: Seq<u16>, open: Seq<bool>, threshold: u16, start: int, n: int)
    requires
        0 <= start,
    ensures
        best_among(scores, open, threshold, start, n) matches Some(i) ==> {
            &&& 0 <= i < 8
            &&& open[i]
            &&& scores[i] > threshold
        },
    decreases n,
{
    if n > 0 {
        lemma_best_in_range(scores, open, threshold, start, n - 1);
    }
}

/// The direction an ant climbs is open, clears its threshold, and no open
/// neighbour is stronger; there is none exactly where no open neighbour clears
/// the threshold.
pub proof fn law_best_direction_is_strongest(
    scores: Seq<u16>,
    open: Seq<bool>,
    threshold: u16,
    rng: u64,
    other: int,
)
    requires
        0 <= other < 8,
    ensures
        match best_of(scores, open, threshold, rng) {
            Some(i) => {
                &&& 0 <= i < 8
                &&& open[i]
                &&& scores[i] > threshold
                &&& open[other] ==> scores[other] <= scores[i]
            },
            None => open[other] ==> scores[other] <= threshold,
        },
{
    let start = (colony::rng_draw(rng) % 8) as int;
    lemma_best_in_range(scores, open, threshold, start, 8);
    let n = if other >= start {
        other - start + 1
    } else {
        other + 8 - start + 1
    };
    assert((start + n - 1) % 8 == other);
    lemma_best_covers(scores, open, threshold, start, n, 8);
}

proof fn lemma_best_covers(
    scores: Seq<u16>,
    open: Seq<bool>,
    threshold: u16,
    start: int,
    k: int,
    n: int,
)
    requires
        0 <= start,
        1 <= k <= n,
    ensures
        ({
            let i = (start + k - 1) % 8;
            open[i] && scores[i] > threshold ==> {
                &&& best_among(scores, open, threshold, start, n) is Some
                &&& scores[i] <= scores[best_among(scores, open, threshold, start, n)->Some_0]
            }
        }),
    decreases n - k,
{
    if k < n {
        lemma_best_covers(scores, open, threshold, start, k, n - 1);
    }
}

fn best_direction(scores: &[u16; 8], passable: &[bool; 8], threshold: u16, rng: &mut u64) -> (best:
    Option<usize>)
    ensures
        *final(rng) == colony::rng_step(*old(rng)),
        best matches Some(i) ==> i < 8,
        (match best {
            Some(i) => Some(i as int),
            None => None,
        }) == best_of(scores@, passable@, threshold, *old(rng)),
{
    let start: usize = (split_mix(rng) % 8) as usize;
    let mut best: Option<usize> = None;
    let mut offset: usize = 0;
    while offset < 8
        invariant
            start < 8,
            offset <= 8,
            best matches Some(i) ==> i < 8,
            (match best {
                Some(i) => Some(i as int),
                None => None,
            }) == best_among(scores@, passable@, threshold, start as int, offset as int),
        decreases 8 - offset,
    {
        let index: usize = (start + offset) % 8;
        if passable[index] && scores[index] > threshold {
            match best {
                Some(held) => {
                    if scores[index] > scores[held] {
                        best = Some(index);
                    }
                },
                None => {
                    best = Some(index);
                },
            }
        }
        offset = offset + 1;
    }
    best
}

#[verifier::loop_isolation(false)]
fn random_direction(passable: &[bool; 8], rng: &mut u64) -> (found: Option<usize>)
    ensures
        *final(rng) == colony::rng_step(*old(rng)),
        found matches Some(i) ==> i < 8,
        (match found {
            Some(i) => Some(i as int),
            None => None,
        }) == random_of(passable@, *old(rng)),
{
    let start: usize = (split_mix(rng) % 8) as usize;
    let mut offset: usize = 0;
    while offset < 8
        invariant
            start < 8,
            offset <= 8,
            first_open(passable@, start as int, 0) == first_open(
                passable@,
                start as int,
                offset as int,
            ),
        decreases 8 - offset,
    {
        let index: usize = (start + offset) % 8;
        if passable[index] {
            return Some(index);
        }
        offset = offset + 1;
    }
    None
}

pub open spec fn sign(v: int) -> int {
    if v > 0 {
        1
    } else if v < 0 {
        -1
    } else {
        0
    }
}

/// The neighbour that points at `(dx, dy)`; straight to the right where there
/// is nowhere to go.
pub open spec fn towards(dx: int, dy: int) -> int {
    let want = (sign(dx), sign(dy));
    if want == (0int, -1int) {
        0
    } else if want == (1int, -1int) {
        1
    } else if want == (1int, 0int) {
        2
    } else if want == (1int, 1int) {
        3
    } else if want == (0int, 1int) {
        4
    } else if want == (-1int, 1int) {
        5
    } else if want == (-1int, 0int) {
        6
    } else if want == (-1int, -1int) {
        7
    } else {
        2
    }
}

fn direction_towards(dx: i32, dy: i32) -> (direction: usize)
    ensures
        direction == towards(dx as int, dy as int),
        direction < 8,
{
    if dx > 0 {
        if dy > 0 {
            3
        } else if dy < 0 {
            1
        } else {
            2
        }
    } else if dx < 0 {
        if dy > 0 {
            5
        } else if dy < 0 {
            7
        } else {
            6
        }
    } else if dy > 0 {
        4
    } else if dy < 0 {
        0
    } else {
        2
    }
}

/// A heading for home and the generator after choosing it: up the home trail,
/// or where there is none straight for the nest, or else anywhere open.
pub open spec fn homeward_of(ant: AntFrame, s: SensesView, rng: u64) -> (Option<int>, u64) {
    let direct = towards(ant.home_x - ant.x, ant.home_y - ant.y);
    let best = best_of(s.home, s.passable, ant.sense_threshold, rng);
    let second = colony::rng_step(rng);
    if best is Some {
        (best, second)
    } else if s.passable[direct] {
        (Some(direct), second)
    } else {
        (random_of(s.passable, second), colony::rng_step(second))
    }
}

fn homeward(senses: &Senses, ant: &AntFrame, rng: &mut u64) -> (heading: Option<usize>)
    ensures
        heading matches Some(i) ==> i < 8,
        (
            match heading {
                Some(i) => Some(i as int),
                None => None,
            },
            *final(rng),
        ) == homeward_of(*ant, senses@, *old(rng)),
{
    let best = best_direction(&senses.home_trail, &senses.passable, ant.sense_threshold, rng);
    if best.is_some() {
        return best;
    }
    let dx: i32 = ant.home_x as i32 - ant.x as i32;
    let dy: i32 = ant.home_y as i32 - ant.y as i32;
    let direct: usize = direction_towards(dx, dy);
    if senses.passable[direct] {
        return Some(direct);
    }
    random_direction(&senses.passable, rng)
}

/// A trail home is followed wherever there is one. The straight heading is taken
/// only without it.
pub proof fn law_the_home_trail_is_preferred(ant: AntFrame, s: SensesView, rng: u64)
    ensures
        ({
            let direct = towards(ant.home_x - ant.x, ant.home_y - ant.y);
            let best = best_of(s.home, s.passable, ant.sense_threshold, rng);
            &&& best is Some ==> homeward_of(ant, s, rng).0 == best
            &&& best is None && s.passable[direct] ==> homeward_of(ant, s, rng).0 == Some(direct)
        }),
{
}

pub open spec fn is_home(ant: AntFrame) -> bool {
    &&& -1 <= ant.home_x - ant.x <= 1
    &&& -1 <= ant.home_y - ant.y <= 1
}

fn at_home(ant: &AntFrame) -> (home: bool)
    ensures
        home == is_home(*ant),
{
    let dx: i32 = ant.home_x as i32 - ant.x as i32;
    let dy: i32 = ant.home_y as i32 - ant.y as i32;
    -1 <= dx && dx <= 1 && -1 <= dy && dy <= 1
}

// ---- deciding --------------------------------------------------------------

/// What an ant decides: its own state, its generator, where it steps, and the
/// behaviour it names next.
pub ghost struct Choice {
    pub ant: AntFrame,
    pub rng: u64,
    pub step: Option<int>,
    pub next: u32,
}

pub open spec fn stay(ant: AntFrame, rng: u64, next: u32) -> Choice {
    Choice { ant, rng, step: None, next }
}

/// Idle for a bounded number of epochs, then rejoin the search.
pub open spec fn waiting(ant: AntFrame) -> Choice {
    if ant.wait_ticks > 0 {
        stay(AntFrame { wait_ticks: (ant.wait_ticks - 1) as u8, ..ant }, ant.rng, ANT_WAIT)
    } else {
        stay(ant, ant.rng, ANT_EXPLORE)
    }
}

/// Blocked last step: take a fresh heading, then go on with what the ant was
/// doing.
pub open spec fn avoiding(ant: AntFrame, s: SensesView) -> Choice {
    let second = colony::rng_step(ant.rng);
    let step = random_of(s.passable, ant.rng);
    if ant.carrying == 1 {
        Choice { ant, rng: second, step, next: ANT_CARRY_FOOD }
    } else {
        Choice {
            ant,
            rng: colony::rng_step(second),
            step,
            next: if best_of(s.food, s.passable, ant.sense_threshold, second) is Some {
                ANT_FOLLOW_TRAIL
            } else {
                ANT_EXPLORE
            },
        }
    }
}

pub open spec fn any_open(open: Seq<bool>) -> bool {
    exists|i: int| 0 <= i < 8 && #[trigger] open[i]
}

pub open spec fn picks_up(ant: AntFrame) -> Choice {
    stay(AntFrame { carrying: 1, ..ant }, ant.rng, ANT_CARRY_FOOD)
}

/// Search: pick up food, notice a trail, stop now and then, and otherwise keep
/// going, mostly straight on.
pub open spec fn exploring(ant: AntFrame, s: SensesView) -> Choice {
    let second = colony::rng_step(ant.rng);
    let third = colony::rng_step(second);
    let fourth = colony::rng_step(third);
    if s.on_food && ant.carrying == 0 {
        picks_up(ant)
    } else if best_of(s.food, s.passable, ant.sense_threshold, ant.rng) is Some {
        stay(ant, second, ANT_FOLLOW_TRAIL)
    } else if !any_open(s.passable) {
        stay(ant, second, ANT_AVOID_OBSTACLE)
    } else if colony::rng_draw(second) % 64 == 0 {
        stay(AntFrame { wait_ticks: ant.wait_reset, ..ant }, third, ANT_WAIT)
    } else {
        let straight = ant.heading as int % 8;
        let keeps = colony::rng_draw(third) % 4 != 0 && s.passable[straight];
        let heading = if keeps {
            straight
        } else {
            (colony::rng_draw(fourth) % 8) as int
        };
        let rng = if keeps {
            fourth
        } else {
            colony::rng_step(fourth)
        };
        if s.passable[heading] {
            Choice { ant, rng, step: Some(heading), next: ANT_EXPLORE }
        } else {
            stay(ant, rng, ANT_AVOID_OBSTACLE)
        }
    }
}

/// Climb the food trail, never straight back. A trail that is gone ends the
/// climb.
pub open spec fn following(ant: AntFrame, s: SensesView) -> Choice {
    if s.on_food && ant.carrying == 0 {
        picks_up(ant)
    } else {
        let allowed = s.passable.update((ant.heading + 4) % 8, false);
        let second = colony::rng_step(ant.rng);
        match best_of(s.food, allowed, ant.sense_threshold, ant.rng) {
            Some(heading) => Choice {
                ant,
                rng: second,
                step: Some(heading),
                next: ANT_FOLLOW_TRAIL,
            },
            None => stay(ant, second, ANT_EXPLORE),
        }
    }
}

/// Head for the nest, as `class`.
pub open spec fn homing(ant: AntFrame, s: SensesView, class: u32) -> Choice {
    let (heading, rng) = homeward_of(ant, s, ant.rng);
    match heading {
        Some(heading) => Choice { ant, rng, step: Some(heading), next: class },
        None => stay(ant, rng, ANT_AVOID_OBSTACLE),
    }
}

pub open spec fn carrying_home(ant: AntFrame, s: SensesView) -> Choice {
    if is_home(ant) {
        stay(
            AntFrame {
                carrying: 0,
                delivered: if ant.delivered == u16::MAX {
                    u16::MAX
                } else {
                    (ant.delivered + 1) as u16
                },
                ..ant
            },
            ant.rng,
            ANT_EXPLORE,
        )
    } else {
        homing(ant, s, ANT_CARRY_FOOD)
    }
}

pub open spec fn returning(ant: AntFrame, s: SensesView) -> Choice {
    if is_home(ant) {
        stay(ant, ant.rng, ANT_EXPLORE)
    } else {
        homing(ant, s, ANT_RETURN_HOME)
    }
}

/// What an ant that runs as `class` decides, where that is a behaviour.
#[verifier::opaque]
pub open spec fn choice_of(ant: AntFrame, class: int, s: SensesView) -> Option<Choice> {
    if class == ANT_WAIT {
        Some(waiting(ant))
    } else if class == ANT_AVOID_OBSTACLE {
        Some(avoiding(ant, s))
    } else if class == ANT_EXPLORE {
        Some(exploring(ant, s))
    } else if class == ANT_FOLLOW_TRAIL {
        Some(following(ant, s))
    } else if class == ANT_CARRY_FOOD {
        Some(carrying_home(ant, s))
    } else if class == ANT_RETURN_HOME {
        Some(returning(ant, s))
    } else {
        None
    }
}

/// The ant after its choice: it moves, if at all, one cell inside the grid.
pub open spec fn chosen(c: Choice) -> AntFrame {
    match c.step {
        None => AntFrame { rng: c.rng, ..c.ant },
        Some(heading) => {
            let (x, y) = neighbour(c.ant, heading);
            AntFrame {
                rng: c.rng,
                heading: heading as u8,
                x: ant_build::clamped(x, c.ant.width),
                y: ant_build::clamped(y, c.ant.height),
                ..c.ant
            }
        },
    }
}

/// An outbound ant lays the trail home; a laden ant lays the trail to food.
pub open spec fn laid(ant: AntFrame, epoch: u32) -> Deposit {
    Deposit {
        epoch,
        x: ant.x,
        y: ant.y,
        food: if ant.carrying == 1 {
            ant.deposit_amount
        } else {
            0
        },
        home: if ant.carrying == 0 {
            ant.deposit_amount
        } else {
            0
        },
    }
}

fn clamp_to(v: i32, extent: u16) -> (r: u16)
    requires
        extent > 0,
    ensures
        r == ant_build::clamped(v as int, extent),
{
    if v < 0 {
        0
    } else if v >= extent as i32 {
        extent - 1
    } else {
        v as u16
    }
}

impl Senses {
    fn any_passable(&self) -> (any: bool)
        ensures
            any == any_open(self@.passable),
    {
        let mut i: usize = 0;
        while i < 8
            invariant
                i <= 8,
                forall|j: int| 0 <= j < i ==> !#[trigger] self.passable@[j],
            decreases 8 - i,
        {
            if self.passable[i] {
                assert(self@.passable[i as int]);
                return true;
            }
            i = i + 1;
        }
        false
    }
}

/// What an ant does with one step: its new state and the behaviour it names,
/// or none where `class` is no behaviour of an ant.
#[verifier::rlimit(40)]
pub fn decide(ant: &AntFrame, class: u32, senses: &Senses) -> (decision: Option<(AntFrame, u32)>)
    requires
        ant.width > 0,
        ant.height > 0,
    ensures
        decision == match choice_of(*ant, class as int, senses@) {
            Some(c) => Some((chosen(c), c.next)),
            None => None,
        },
{
    proof {
        reveal(choice_of);
    }
    let mut frame: AntFrame = *ant;
    let mut rng: u64 = ant.rng;
    let mut heading: Option<usize> = None;
    let next: u32;
    if class == ANT_WAIT {
        if frame.wait_ticks > 0 {
            frame.wait_ticks = frame.wait_ticks - 1;
            next = ANT_WAIT;
        } else {
            next = ANT_EXPLORE;
        }
    } else if class == ANT_AVOID_OBSTACLE {
        heading = random_direction(&senses.passable, &mut rng);
        if frame.carrying == 1 {
            next = ANT_CARRY_FOOD;
        } else if best_direction(
            &senses.food_trail,
            &senses.passable,
            frame.sense_threshold,
            &mut rng,
        ).is_some() {
            next = ANT_FOLLOW_TRAIL;
        } else {
            next = ANT_EXPLORE;
        }
    } else if class == ANT_EXPLORE {
        if senses.on_food && frame.carrying == 0 {
            frame.carrying = 1;
            next = ANT_CARRY_FOOD;
        } else if best_direction(
            &senses.food_trail,
            &senses.passable,
            frame.sense_threshold,
            &mut rng,
        ).is_some() {
            next = ANT_FOLLOW_TRAIL;
        } else if !senses.any_passable() {
            next = ANT_AVOID_OBSTACLE;
        } else if split_mix(&mut rng) % 64 == 0 {
            frame.wait_ticks = frame.wait_reset;
            next = ANT_WAIT;
        } else {
            let straight: usize = frame.heading as usize % 8;
            let keeps: bool = split_mix(&mut rng) % 4 != 0 && senses.passable[straight];
            let wanted: usize = if keeps {
                straight
            } else {
                (split_mix(&mut rng) % 8) as usize
            };
            if senses.passable[wanted] {
                heading = Some(wanted);
                next = ANT_EXPLORE;
            } else {
                next = ANT_AVOID_OBSTACLE;
            }
        }
    } else if class == ANT_FOLLOW_TRAIL {
        if senses.on_food && frame.carrying == 0 {
            frame.carrying = 1;
            next = ANT_CARRY_FOOD;
        } else {
            let mut allowed: [bool; 8] = senses.passable;
            allowed[(frame.heading as usize + 4) % 8] = false;
            assert(allowed@ =~= senses@.passable.update((frame.heading + 4) % 8, false));
            heading = best_direction(
                &senses.food_trail,
                &allowed,
                frame.sense_threshold,
                &mut rng,
            );
            if heading.is_some() {
                next = ANT_FOLLOW_TRAIL;
            } else {
                next = ANT_EXPLORE;
            }
        }
    } else if class == ANT_CARRY_FOOD {
        if at_home(&frame) {
            frame.carrying = 0;
            frame.delivered = frame.delivered.saturating_add(1);
            next = ANT_EXPLORE;
        } else {
            heading = homeward(senses, &frame, &mut rng);
            if heading.is_some() {
                next = ANT_CARRY_FOOD;
            } else {
                next = ANT_AVOID_OBSTACLE;
            }
        }
    } else if class == ANT_RETURN_HOME {
        if at_home(&frame) {
            next = ANT_EXPLORE;
        } else {
            heading = homeward(senses, &frame, &mut rng);
            if heading.is_some() {
                next = ANT_RETURN_HOME;
            } else {
                next = ANT_AVOID_OBSTACLE;
            }
        }
    } else {
        return None;
    }
    proof {
        let c = choice_of(*ant, class as int, senses@)->Some_0;
        lemma_best_in_range(
            senses@.food,
            senses@.passable,
            ant.sense_threshold,
            (colony::rng_draw(ant.rng) % 8) as int,
            8,
        );
        assert(c.rng == rng);
        assert(c.next == next);
        assert(c.ant == frame);
        assert(c.step == match heading {
            Some(i) => Some(i as int),
            None => None,
        });
    }
    if let Some(direction) = heading {
        let (dx, dy) = direction_offset(direction);
        let x: i32 = frame.x as i32 + dx;
        let y: i32 = frame.y as i32 + dy;
        frame.heading = direction as u8;
        frame.x = clamp_to(x, frame.width);
        frame.y = clamp_to(y, frame.height);
    }
    frame.rng = rng;
    Some((frame, next))
}

/// A step never leaves the grid, moves an ant by at most one cell each way,
/// and changes neither where the ant belongs nor what it may read and write.
pub proof fn law_ant_steps_stay_in_the_grid(ant: AntFrame, class: int, s: SensesView)
    requires
        ant.x < ant.width,
        ant.y < ant.height,
        choice_of(ant, class, s) is Some,
    ensures
        ({
            let after = chosen(choice_of(ant, class, s)->Some_0);
            &&& after.x < after.width
            &&& after.y < after.height
            &&& -1 <= after.x - ant.x <= 1
            &&& -1 <= after.y - ant.y <= 1
            &&& after.id == ant.id
            &&& after.colony == ant.colony
            &&& after.width == ant.width
            &&& after.height == ant.height
            &&& after.home_x == ant.home_x
            &&& after.home_y == ant.home_y
            &&& after.deposit == ant.deposit
            &&& after.terrain == ant.terrain
            &&& after.field_a == ant.field_a
            &&& after.field_b == ant.field_b
            &&& ANT_EXPLORE <= choice_of(ant, class, s)->Some_0.next <= ANT_WAIT
        }),
{
    reveal(choice_of);
}

/// An ant delivers at most one load in a step, and only one that it carries
/// home and then puts down.
pub proof fn law_delivery_puts_the_load_down(ant: AntFrame, class: int, s: SensesView)
    requires
        choice_of(ant, class, s) is Some,
    ensures
        ({
            let after = chosen(choice_of(ant, class, s)->Some_0);
            &&& after.delivered != ant.delivered ==> {
                &&& after.delivered == ant.delivered + 1
                &&& class == ANT_CARRY_FOOD
                &&& is_home(ant)
                &&& after.carrying == 0
            }
            &&& laid(after, 0).food == 0 || laid(after, 0).home == 0
        }),
{
    reveal(choice_of);
}

// ---- an ant's step ---------------------------------------------------------

/// The ant that a frame's bytes hold. A frame that does not decode, and one in
/// a world without cells, is no ant.
pub open spec fn loaded_ant(reply: Result<Seq<u8>, RuntimeError>) -> Option<AntFrame> {
    match reply {
        Ok(content) => if content.len() >= 68 && AntFrame::read(content).id != u32::MAX
            && AntFrame::read(content).width > 0 {
            Some(AntFrame::read(content))
        } else {
            None
        },
        Err(_) => None,
    }
}

fn load_frame_ant<K: Kernel>(lane: &mut LaneView<K>, process: Ref64) -> (found: (
    Ghost<Result<Seq<u8>, RuntimeError>>,
    Option<AntFrame>,
))
    ensures
        final(lane).log() == old(lane).log() + lane::read_calls(process, old(lane).frame, found.0@),
        final(lane).same_place(old(lane)),
        found.1 == loaded_ant(found.0@),
{
    let reply = frame_bytes(lane, process);
    let ghost seen = kernel::replied_bytes(reply);
    let mut ant: Option<AntFrame> = None;
    if let Ok(content) = reply {
        if let Some(frame) = AntFrame::decode(content.as_slice()) {
            if frame.id != u32::MAX && frame.width > 0 {
                ant = Some(frame);
            }
        }
    }
    (Ghost(seen), ant)
}

/// What the kernel answered during an ant's step.
pub ghost struct AntReplies {
    pub frame: Result<Seq<u8>, RuntimeError>,
    pub terrain: Result<Seq<u8>, RuntimeError>,
    pub field: Result<Seq<u8>, RuntimeError>,
    pub deposit: Result<Seq<u8>, RuntimeError>,
    pub stored: Result<Seq<u8>, RuntimeError>,
}

/// What an ant's step does, as far as its replies let it go.
pub ghost enum AntStep {
    /// The frame holds no ant.
    NoAnt,
    /// The terrain cannot be read, or is not one.
    Lost(AntFrame),
    /// The field cannot be read.
    Blind(AntFrame),
    Done { ant: AntFrame, after: AntFrame, next: u32 },
    /// The run class is no behaviour of an ant.
    Unknown(AntFrame),
}

/// The terrain can be walked: it reaches as far as the ant looks, and the grid on
/// it is not empty and can be addressed.
pub open spec fn is_walkable(ant: AntFrame, terrain: Seq<u8>) -> bool {
    &&& can_see(ant, terrain)
    &&& ant.height > 0
    &&& is_addressable(ant.width, ant.height)
}

pub open spec fn ant_step_of(class: int, r: AntReplies) -> AntStep {
    match loaded_ant(r.frame) {
        None => AntStep::NoAnt,
        Some(ant) => match r.terrain {
            Err(_) => AntStep::Lost(ant),
            Ok(terrain) => if !is_walkable(ant, terrain) {
                AntStep::Lost(ant)
            } else {
                match r.field {
                    Err(_) => AntStep::Blind(ant),
                    Ok(field) => match choice_of(ant, class, senses_of(ant, terrain, field)) {
                        None => AntStep::Unknown(ant),
                        Some(c) => AntStep::Done { ant, after: chosen(c), next: c.next },
                    },
                }
            },
        },
    }
}

/// What a deposit object that held `held` is left with: this epoch's slot takes
/// the record, where it reaches that far.
pub open spec fn deposited(held: Seq<u8>, ant: AntFrame, epoch: u32) -> Seq<u8> {
    let at = 16 * colony::slot_of(epoch);
    if held.len() >= at + 16 {
        laid(ant, epoch).written(held, at)
    } else {
        held
    }
}

/// What an ant's step asks of the kernel.
pub open spec fn ant_calls(
    frame: Ref64,
    process: Ref64,
    epoch: u32,
    class: int,
    r: AntReplies,
) -> Seq<Call> {
    let loading = lane::read_calls(process, frame, r.frame);
    match ant_step_of(class, r) {
        AntStep::NoAnt => loading,
        AntStep::Lost(ant) => loading + lane::read_calls(process, ant.terrain, r.terrain),
        AntStep::Blind(ant) => loading + lane::read_calls(process, ant.terrain, r.terrain)
            + lane::read_calls(process, ant.field_read(epoch), r.field),
        AntStep::Unknown(ant) => loading + lane::read_calls(process, ant.terrain, r.terrain)
            + lane::read_calls(process, ant.field_read(epoch), r.field),
        AntStep::Done { ant, after, next } => loading + lane::read_calls(
            process,
            ant.terrain,
            r.terrain,
        ) + lane::read_calls(process, ant.field_read(epoch), r.field) + lane::edit_calls(
            process,
            after.deposit,
            false,
            match r.deposit {
                Ok(held) => Ok((held, deposited(held, after, epoch))),
                Err(error) => Err(error),
            },
        ) + step::store_calls(frame, process, after.encoded(), r.stored),
    }
}

pub open spec fn ant_result(process: Ref64, class: int, r: AntReplies) -> StepResult {
    match ant_step_of(class, r) {
        AntStep::Done { ant, after, next } => StepResult::Yield { next },
        _ => StepResult::Fault { process, run_class: class as u32 },
    }
}

pub open spec fn ant_stepped(
    frame: Ref64,
    process: Ref64,
    epoch: u32,
    class: int,
    r: AntReplies,
    before: Seq<Call>,
    after: Seq<Call>,
    result: StepResult,
) -> bool {
    &&& after == before + ant_calls(frame, process, epoch, class, r)
    &&& result == ant_result(process, class, r)
}

fn lay<K: Kernel>(lane: &mut LaneView<K>, process: Ref64, ant: &AntFrame, epoch: u32) -> (held: Ghost<
    Result<Seq<u8>, RuntimeError>,
>)
    ensures
        final(lane).log() == old(lane).log() + lane::edit_calls(
            process,
            ant.deposit,
            false,
            match held@ {
                Ok(held) => Ok((held, deposited(held, *ant, epoch))),
                Err(error) => Err(error),
            },
        ),
        final(lane).same_place(old(lane)),
{
    let deposit = Deposit {
        epoch,
        x: ant.x,
        y: ant.y,
        food: if ant.carrying == 1 {
            ant.deposit_amount
        } else {
            0
        },
        home: if ant.carrying == 0 {
            ant.deposit_amount
        } else {
            0
        },
    };
    let slot: usize = write_slot(epoch) * DEPOSIT_RECORD;
    let ghost mut held: Result<Seq<u8>, RuntimeError> = Err(RuntimeError::Unavailable);
    match lane.object_bytes_mut(process, ant.deposit) {
        Ok(buffer) => {
            proof {
                held = Ok(buffer@);
            }
            if buffer.len() >= slot + DEPOSIT_RECORD {
                deposit.write_at(buffer, slot);
            }
        },
        Err(error) => {
            proof {
                held = Err(error);
            }
        },
    }
    Ghost(held)
}

/// One ant's step. `behaviour` is the index within the ant block: the run class
/// is both the switch and the bin.
pub fn ant_step<K: Kernel>(lane: &mut LaneView<K>, process: Ref64, behaviour: u32) -> (result:
    StepResult)
    requires
        ANT_EXPLORE + behaviour <= u32::MAX,
    ensures
        exists|r: AntReplies| #[trigger]
            ant_stepped(
                old(lane).frame,
                process,
                old(lane).kernel.epoch(),
                ANT_EXPLORE + behaviour,
                r,
                old(lane).log(),
                final(lane).log(),
                result,
            ),
        final(lane).same_place(old(lane)),
{
    let epoch: u32 = lane.epoch_number();
    let class: u32 = ANT_EXPLORE + behaviour;
    let ghost l0 = lane.log();
    let ghost none: Result<Seq<u8>, RuntimeError> = Err(RuntimeError::Unavailable);
    let fault = StepResult::Fault { process, run_class: class };
    let (Ghost(seen), loaded) = load_frame_ant(lane, process);
    let ghost l1 = lane.log();
    let ant: AntFrame = match loaded {
        Some(ant) => ant,
        None => {
            proof {
                let r = AntReplies {
                    frame: seen,
                    terrain: none,
                    field: none,
                    deposit: none,
                    stored: none,
                };
                assert(ant_stepped(
                    lane.frame,
                    process,
                    epoch,
                    class as int,
                    r,
                    l0,
                    lane.log(),
                    fault,
                ));
            }
            return fault;
        },
    };
    let terrain_reply = lane.object_bytes(process, ant.terrain);
    let ghost terrain_seen = kernel::replied_bytes(terrain_reply);
    let ghost l2 = lane.log();
    let mut walkable: bool = false;
    let mut terrain: Vec<u8> = Vec::new();
    if let Ok(content) = terrain_reply {
        walkable = can_walk(&ant, &content);
        terrain = content;
    }
    if !walkable {
        proof {
            let r = AntReplies {
                frame: seen,
                terrain: terrain_seen,
                field: none,
                deposit: none,
                stored: none,
            };
            assert(l2 =~= l0 + (lane::read_calls(process, lane.frame, seen) + lane::read_calls(
                process,
                ant.terrain,
                terrain_seen,
            )));
            assert(ant_stepped(
                lane.frame,
                process,
                epoch,
                class as int,
                r,
                l0,
                lane.log(),
                fault,
            ));
        }
        return fault;
    }
    let field_ref: Ref64 = ant.readable_field(epoch);
    let field_reply = lane.object_bytes(process, field_ref);
    let ghost field_seen = kernel::replied_bytes(field_reply);
    let ghost l3 = lane.log();
    proof {
        assert(l3 =~= l0 + (lane::read_calls(process, lane.frame, seen) + lane::read_calls(
            process,
            ant.terrain,
            terrain_seen,
        ) + lane::read_calls(process, field_ref, field_seen)));
    }
    let field: Vec<u8> = match field_reply {
        Ok(field) => field,
        Err(_) => {
            proof {
                let r = AntReplies {
                    frame: seen,
                    terrain: terrain_seen,
                    field: field_seen,
                    deposit: none,
                    stored: none,
                };
                assert(ant_stepped(
                    lane.frame,
                    process,
                    epoch,
                    class as int,
                    r,
                    l0,
                    lane.log(),
                    fault,
                ));
            }
            return fault;
        },
    };
    let senses: Senses = sense(&ant, &terrain, &field);
    let (after, next) = match decide(&ant, class, &senses) {
        Some(decision) => decision,
        None => {
            proof {
                let r = AntReplies {
                    frame: seen,
                    terrain: terrain_seen,
                    field: field_seen,
                    deposit: none,
                    stored: none,
                };
                assert(ant_stepped(
                    lane.frame,
                    process,
                    epoch,
                    class as int,
                    r,
                    l0,
                    lane.log(),
                    fault,
                ));
            }
            return fault;
        },
    };
    let Ghost(deposit_seen) = lay(lane, process, &after, epoch);
    let ghost l4 = lane.log();
    let mut content: Vec<u8> = Vec::new();
    after.encode(&mut content);
    assert(content@ =~= after.encoded());
    store_bytes(lane, process, content);
    let result = StepResult::Yield { next };
    proof {
        let frame = lane.frame;
        let stored = choose|held: Result<Seq<u8>, RuntimeError>|
            lane.log() == l4 + #[trigger] step::store_calls(frame, process, content@, held);
        let r = AntReplies {
            frame: seen,
            terrain: terrain_seen,
            field: field_seen,
            deposit: deposit_seen,
            stored,
        };
        assert(lane.log() =~= l0 + ant_calls(frame, process, epoch, class as int, r));
        assert(ant_stepped(frame, process, epoch, class as int, r, l0, lane.log(), result));
    }
    result
}

fn can_walk(ant: &AntFrame, terrain: &Vec<u8>) -> (walkable: bool)
    requires
        ant.width > 0,
    ensures
        walkable == is_walkable(*ant, terrain@),
{
    if ant.height == 0 {
        return false;
    }
    let len: usize = terrain.len();
    let mut i: usize = 0;
    while i < 8
        invariant
            i <= 8,
            len == terrain@.len(),
            forall|j: int| 0 <= j < i && #[trigger] is_inside(*ant, j) ==> len >= 8,
        decreases 8 - i,
    {
        let (dx, dy) = direction_offset(i);
        let x: i32 = ant.x as i32 + dx;
        let y: i32 = ant.y as i32 + dy;
        if x >= 0 && y >= 0 && x < ant.width as i32 && y < ant.height as i32 && len < 8 {
            assert(is_inside(*ant, i as int));
            return false;
        }
        i = i + 1;
    }
    if Terrain::find_food(terrain.as_slice(), ant.x as i32, ant.y as i32).is_none() {
        return false;
    }
    proof {
        colony::lemma_grid_size(ant.width as int, ant.height as int);
    }
    let cells: usize = ant.width as usize * ant.height as usize;
    cells <= usize::MAX / 4
}

// ---- a colony's step -------------------------------------------------------

/// The record of one deposit object that counts: stamped with the epoch that
/// is wanted, and laying something.
pub open spec fn counted(reply: Result<Seq<u8>, RuntimeError>, want: u32) -> Option<Deposit> {
    match reply {
        Err(_) => None,
        Ok(held) => {
            let at = 16 * colony::slot_of(want);
            let record = Deposit::read_at(held, at);
            if held.len() >= at + 16 && record.epoch == want && (record.food > 0 || record.home
                > 0) {
                Some(record)
            } else {
                None
            }
        },
    }
}

/// The records that count among the first `n` replies.
pub open spec fn all_counted(replies: Seq<Result<Seq<u8>, RuntimeError>>, want: u32, n: int) -> Seq<
    Deposit,
>
    decreases n,
{
    if n <= 0 {
        Seq::empty()
    } else {
        match counted(replies[n - 1], want) {
            Some(record) => all_counted(replies, want, n - 1).push(record),
            None => all_counted(replies, want, n - 1),
        }
    }
}

pub open spec fn record_words(records: Seq<Deposit>, n: int) -> Seq<(nat, nat)>
    decreases n,
{
    if n <= 0 {
        Seq::empty()
    } else {
        let r = records[n - 1];
        record_words(records, n - 1) + seq![
            (r.x as nat, 2nat),
            (r.y as nat, 2nat),
            (r.food as nat, 2nat),
            (r.home as nat, 2nat),
        ]
    }
}

/// A summary slot's bytes: how many records, and then the records.
pub open spec fn summary_of(records: Seq<Deposit>) -> Seq<u8> {
    bytes::le_bytes(records.len(), 4) + frame::packed(
        record_words(records, records.len() as int),
    )
}

/// What a summary object that held `held` is left with: this epoch's slot takes
/// the records, where the object reaches that far.
pub open spec fn summarized(held: Seq<u8>, ants: nat, epoch: u32, records: Seq<Deposit>) -> Seq<u8> {
    let slot = 4 + 8 * ants;
    let at = slot * colony::slot_of(epoch);
    if held.len() >= at + slot {
        bytes::spliced(held, at, summary_of(records))
    } else {
        held
    }
}

/// Reads one after the other.
pub open spec fn reads_of(
    process: Ref64,
    objects: Seq<u64>,
    replies: Seq<Result<Seq<u8>, RuntimeError>>,
    n: int,
) -> Seq<Call>
    decreases n,
{
    if n <= 0 {
        Seq::empty()
    } else {
        reads_of(process, objects, replies, n - 1) + lane::read_calls(
            process,
            Ref64::of(objects[n - 1]),
            replies[n - 1],
        )
    }
}

proof fn lemma_reads_extend(
    process: Ref64,
    objects: Seq<u64>,
    replies: Seq<Result<Seq<u8>, RuntimeError>>,
    more: Result<Seq<u8>, RuntimeError>,
    want: u32,
    n: int,
)
    requires
        0 <= n <= replies.len(),
    ensures
        reads_of(process, objects, replies.push(more), n) == reads_of(
            process,
            objects,
            replies,
            n,
        ),
        all_counted(replies.push(more), want, n) == all_counted(replies, want, n),
        all_reported(replies.push(more), want, n) == all_reported(replies, want, n),
    decreases n,
{
    if n > 0 {
        lemma_reads_extend(process, objects, replies, more, want, n - 1);
    }
}

pub ghost struct ColonyReplies {
    pub frame: Result<Seq<u8>, RuntimeError>,
    pub deposits: Seq<Result<Seq<u8>, RuntimeError>>,
    pub summary: Result<Seq<u8>, RuntimeError>,
    pub stored: Result<Seq<u8>, RuntimeError>,
}

/// The colony that a frame's bytes hold, where it has a summary.
pub open spec fn loaded_colony(reply: Result<Seq<u8>, RuntimeError>) -> Option<ColonyView> {
    match reply {
        Ok(content) => match ColonyView::read(content) {
            Some(view) => if view.summary.raw != 0 {
                Some(view)
            } else {
                None
            },
            None => None,
        },
        Err(_) => None,
    }
}

pub open spec fn previous(epoch: u32) -> u32 {
    if epoch == 0 {
        u32::MAX
    } else {
        (epoch - 1) as u32
    }
}

pub open spec fn colony_calls_of(frame: Ref64, process: Ref64, epoch: u32, r: ColonyReplies) -> Seq<
    Call,
> {
    let loading = lane::read_calls(process, frame, r.frame);
    match loaded_colony(r.frame) {
        None => loading,
        Some(view) => {
            let n = view.deposits.len();
            let records = all_counted(r.deposits, previous(epoch), n as int);
            loading + reads_of(process, view.deposits, r.deposits, n as int) + lane::edit_calls(
                process,
                view.summary,
                false,
                match r.summary {
                    Ok(held) => Ok((held, summarized(held, n, epoch, records))),
                    Err(error) => Err(error),
                },
            ) + step::store_calls(frame, process, view.encoded(), r.stored)
        },
    }
}

/// Folds the ants' deposits of the previous epoch into this epoch's slot of the
/// colony's summary. An ant that has failed stops stamping its record, and a
/// stale stamp is not counted.
pub open spec fn colony_stepped(
    frame: Ref64,
    process: Ref64,
    epoch: u32,
    r: ColonyReplies,
    before: Seq<Call>,
    after: Seq<Call>,
    result: StepResult,
) -> bool {
    &&& after == before + colony_calls_of(frame, process, epoch, r)
    &&& match loaded_colony(r.frame) {
        None => result == (StepResult::Fault { process, run_class: COLONY_AGGREGATE }),
        Some(view) => {
            &&& r.deposits.len() == view.deposits.len()
            &&& result == (StepResult::Yield { next: COLONY_AGGREGATE })
        },
    }
}

pub proof fn lemma_counted_fewer(replies: Seq<Result<Seq<u8>, RuntimeError>>, want: u32, n: int)
    requires
        0 <= n,
    ensures
        all_counted(replies, want, n).len() <= n,
    decreases n,
{
    if n > 0 {
        lemma_counted_fewer(replies, want, n - 1);
    }
}

fn summary_bytes(records: &Vec<Deposit>) -> (content: Vec<u8>)
    ensures
        content@ == summary_of(records@),
        content@.len() == 4 + 8 * records@.len(),
{
    let mut content: Vec<u8> = Vec::new();
    bytes::put_le(&mut content, records.len() as u64, 4);
    let ghost head = content@;
    let mut i: usize = 0;
    proof {
        bytes::lemma_le_bytes_len(records@.len(), 4);
        assert(head =~= bytes::le_bytes(records@.len(), 4));
        assert(head + frame::packed(record_words(records@, 0)) =~= head);
    }
    while i < records.len()
        invariant
            i <= records.len(),
            head == bytes::le_bytes(records@.len(), 4),
            head.len() == 4,
            content@ == head + frame::packed(record_words(records@, i as int)),
            content@.len() == 4 + 8 * i,
        decreases records.len() - i,
    {
        let r: Deposit = records[i];
        let words: Vec<(u64, usize)> =
            vec![(r.x as u64, 2), (r.y as u64, 2), (r.food as u64, 2), (r.home as u64, 2)];
        let ghost before = content@;
        frame::put_words(&mut content, &words);
        proof {
            let w = frame::words_of(words@);
            assert(record_words(records@, i + 1) =~= record_words(records@, i as int) + w);
            frame::lemma_packed_join(record_words(records@, i as int), w);
            frame::lemma_packed_len(w);
            reveal_with_fuel(frame::word_offset, 5);
            assert(content@ =~= before + frame::packed(w));
            assert(content@ =~= head + frame::packed(record_words(records@, i + 1)));
        }
        i = i + 1;
    }
    content
}

pub fn colony_aggregate<K: Kernel>(lane: &mut LaneView<K>, process: Ref64) -> (result: StepResult)
    ensures
        exists|r: ColonyReplies| #[trigger]
            colony_stepped(
                old(lane).frame,
                process,
                old(lane).kernel.epoch(),
                r,
                old(lane).log(),
                final(lane).log(),
                result,
            ),
        final(lane).same_place(old(lane)),
{
    let epoch: u32 = lane.epoch_number();
    let ghost l0 = lane.log();
    let ghost none: Result<Seq<u8>, RuntimeError> = Err(RuntimeError::Unavailable);
    let fault = StepResult::Fault { process, run_class: COLONY_AGGREGATE };
    let reply = frame_bytes(lane, process);
    let ghost seen = kernel::replied_bytes(reply);
    let ghost l1 = lane.log();
    let mut loaded: Option<ColonyFrame> = None;
    if let Ok(content) = reply {
        if let Some(held) = ColonyFrame::decode(content.as_slice()) {
            if !held.summary.is_null() {
                loaded = Some(held);
            }
        }
    }
    let held: ColonyFrame = match loaded {
        Some(held) => held,
        None => {
            proof {
                let r = ColonyReplies {
                    frame: seen,
                    deposits: Seq::empty(),
                    summary: none,
                    stored: none,
                };
                assert(loaded_colony(seen) is None);
                assert(colony_stepped(lane.frame, process, epoch, r, l0, lane.log(), fault));
            }
            return fault;
        },
    };
    let ghost view = held@;
    assert(loaded_colony(seen) == Some(view));
    proof {
        lemma_list_is_short(seen->Ok_0, 10);
    }
    let want: u32 = epoch.wrapping_sub(1);
    assert(want == previous(epoch));
    let read_at: usize = write_slot(want) * DEPOSIT_RECORD;
    let mut records: Vec<Deposit> = Vec::new();
    let ghost mut replies: Seq<Result<Seq<u8>, RuntimeError>> = Seq::empty();
    let mut i: usize = 0;
    assert(l1 + reads_of(process, view.deposits, replies, 0) =~= l1);
    while i < held.deposits.len()
        invariant
            i <= held.deposits.len(),
            view == held@,
            read_at == 16 * colony::slot_of(want),
            read_at <= 16,
            lane.same_place(old(lane)),
            replies.len() == i,
            lane.log() == l1 + reads_of(process, view.deposits, replies, i as int),
            records@ == all_counted(replies, want, i as int),
        decreases held.deposits.len() - i,
    {
        let ghost before = lane.log();
        let answer = lane.object_bytes(process, Ref64::from_u64(held.deposits[i]));
        proof {
            let more = kernel::replied_bytes(answer);
            lemma_reads_extend(process, view.deposits, replies, more, want, i as int);
            replies = replies.push(more);
            assert(lane.log() =~= l1 + reads_of(process, view.deposits, replies, i + 1));
        }
        if let Ok(content) = answer {
            if content.len() >= read_at + DEPOSIT_RECORD {
                let record: Deposit = Deposit::read_from(content.as_slice(), read_at);
                if record.epoch == want && (record.food > 0 || record.home > 0) {
                    records.push(record);
                }
            }
        }
        i = i + 1;
    }
    let ghost l2 = lane.log();
    let ghost n = view.deposits.len();
    proof {
        lemma_counted_fewer(replies, want, n as int);
    }
    let patch: Vec<u8> = summary_bytes(&records);
    let slot: u64 = 4 + held.deposits.len() as u64 * 8;
    let at: u64 = if write_slot(epoch) == 0 {
        0
    } else {
        slot
    };
    let ghost mut summary_seen: Result<Seq<u8>, RuntimeError> = none;
    match lane.object_bytes_mut(process, held.summary) {
        Ok(buffer) => {
            proof {
                summary_seen = Ok(buffer@);
            }
            if buffer.len() as u64 >= at + slot {
                overwrite(buffer, at as usize, &patch);
            }
        },
        Err(error) => {
            proof {
                summary_seen = Err(error);
            }
        },
    }
    let ghost l3 = lane.log();
    let mut content: Vec<u8> = Vec::new();
    held.encode(&mut content);
    assert(content@ =~= view.encoded());
    store_bytes(lane, process, content);
    let result = StepResult::Yield { next: COLONY_AGGREGATE };
    proof {
        let f = lane.frame;
        let stored = choose|held: Result<Seq<u8>, RuntimeError>|
            lane.log() == l3 + #[trigger] step::store_calls(f, process, content@, held);
        let r = ColonyReplies { frame: seen, deposits: replies, summary: summary_seen, stored };
        assert(slot * colony::slot_of(epoch) == at) by (nonlinear_arith)
            requires
                colony::slot_of(epoch) == 0 || colony::slot_of(epoch) == 1,
                colony::slot_of(epoch) == 0 ==> at == 0,
                colony::slot_of(epoch) == 1 ==> at == slot,
        ;
        assert(lane.log() =~= l0 + colony_calls_of(f, process, epoch, r));
        assert(colony_stepped(f, process, epoch, r, l0, lane.log(), result));
    }
    result
}

/// A list in a frame has fewer than 2^32 numbers.
pub proof fn lemma_list_is_short(s: Seq<u8>, at: int)
    ensures
        frame::long_list_at(s, at) matches Some(values) ==> 0 <= at && values.len() <= u32::MAX
            || at < 0,
{
    if 0 <= at && at + 4 <= s.len() {
        bytes::lemma_radix_values();
        bytes::lemma_le_bytes_of_value(s.subrange(at, at + 4));
    }
}

// ---- the world's step ------------------------------------------------------

/// Record `i` of a summary slot that starts at `at`.
pub open spec fn report_at(s: Seq<u8>, at: int, i: int) -> (u16, u16, u16, u16) {
    let from = at + 4 + 8 * i;
    (
        bytes::word_at(s, from, 2) as u16,
        bytes::word_at(s, from + 2, 2) as u16,
        bytes::word_at(s, from + 4, 2) as u16,
        bytes::word_at(s, from + 6, 2) as u16,
    )
}

/// How many records the wanted slot of a summary holds: as many as it counts,
/// and no more than fit.
pub open spec fn report_count(s: Seq<u8>, want: u32) -> int {
    let slot = s.len() as int / 2;
    let at = slot * colony::slot_of(want);
    if slot < 4 {
        0
    } else if bytes::word_at(s, at, 4) <= (slot - 4) / 8 {
        bytes::word_at(s, at, 4) as int
    } else {
        (slot - 4) / 8
    }
}

/// The records in the wanted slot of a summary.
pub open spec fn reported(reply: Result<Seq<u8>, RuntimeError>, want: u32) -> Seq<
    (u16, u16, u16, u16),
> {
    match reply {
        Err(_) => Seq::empty(),
        Ok(s) => Seq::new(
            report_count(s, want) as nat,
            |i: int| report_at(s, (s.len() as int / 2) * colony::slot_of(want), i),
        ),
    }
}

pub open spec fn all_reported(replies: Seq<Result<Seq<u8>, RuntimeError>>, want: u32, n: int) -> Seq<
    (u16, u16, u16, u16),
>
    decreases n,
{
    if n <= 0 {
        Seq::empty()
    } else {
        all_reported(replies, want, n - 1) + reported(replies[n - 1], want)
    }
}

pub open spec fn less(value: u16, by: u16) -> u16 {
    if value <= by {
        0
    } else {
        (value - by) as u16
    }
}

pub open spec fn more(value: u16, by: u16) -> u16 {
    if value + by > u16::MAX {
        u16::MAX
    } else {
        (value + by) as u16
    }
}

/// A field with the first `n` cells of a trail decayed.
pub open spec fn decayed(field: Seq<u8>, cells: int, trail: int, decay: u16, n: int) -> Seq<u8>
    decreases n,
{
    if n <= 0 {
        field
    } else {
        let before = decayed(field, cells, trail, decay, n - 1);
        colony::trail_set(
            before,
            cells,
            trail,
            n - 1,
            less(colony::trail_at(before, cells, trail, n - 1), decay),
        )
    }
}

/// A field with one ant's trail laid on a cell.
pub open spec fn strengthened(field: Seq<u8>, cells: int, trail: int, cell: int, by: u16) -> Seq<u8> {
    if by > 0 {
        colony::trail_set(
            field,
            cells,
            trail,
            cell,
            more(colony::trail_at(field, cells, trail, cell), by),
        )
    } else {
        field
    }
}

/// A field with the first `n` records added.
pub open spec fn marked(
    field: Seq<u8>,
    cells: int,
    width: int,
    records: Seq<(u16, u16, u16, u16)>,
    n: int,
) -> Seq<u8>
    decreases n,
{
    if n <= 0 {
        field
    } else {
        let before = marked(field, cells, width, records, n - 1);
        let (x, y, food, home) = records[n - 1];
        let cell = y * width + x;
        if cell >= cells {
            before
        } else {
            strengthened(strengthened(before, cells, 0, cell, food), cells, 1, cell, home)
        }
    }
}

/// The field one epoch on: decayed, with what the colonies report added.
pub open spec fn field_after(
    field: Seq<u8>,
    width: u16,
    height: u16,
    decay: u16,
    records: Seq<(u16, u16, u16, u16)>,
) -> Seq<u8> {
    let cells = width * height;
    let faded = decayed(decayed(field, cells, 0, decay, cells), cells, 1, decay, cells);
    marked(faded, cells, width as int, records, records.len() as int)
}

proof fn lemma_decayed_len(field: Seq<u8>, cells: int, trail: int, decay: u16, n: int)
    ensures
        decayed(field, cells, trail, decay, n).len() == field.len(),
    decreases n,
{
    if n > 0 {
        lemma_decayed_len(field, cells, trail, decay, n - 1);
    }
}

/// Decay takes the same from every cell of a trail, down to zero, and leaves
/// the other trail alone.
pub proof fn law_decay_is_uniform(field: Seq<u8>, cells: int, trail: int, decay: u16, n: int, i: int)
    requires
        0 <= n <= cells,
        0 <= i < cells,
        0 <= trail <= 1,
        field.len() >= 4 * cells,
    ensures
        colony::trail_at(decayed(field, cells, trail, decay, n), cells, trail, i) == if i < n {
            less(colony::trail_at(field, cells, trail, i), decay)
        } else {
            colony::trail_at(field, cells, trail, i)
        },
        colony::trail_at(decayed(field, cells, trail, decay, n), cells, 1 - trail, i)
            == colony::trail_at(field, cells, 1 - trail, i),
    decreases n,
{
    if n > 0 {
        law_decay_is_uniform(field, cells, trail, decay, n - 1, i);
        law_decay_is_uniform(field, cells, trail, decay, n - 1, n - 1);
        lemma_decayed_len(field, cells, trail, decay, n - 1);
        let before = decayed(field, cells, trail, decay, n - 1);
        let value = less(colony::trail_at(before, cells, trail, n - 1), decay);
        ant_observe::lemma_offset_fits(cells, trail, n - 1);
        ant_observe::lemma_offset_fits(cells, trail, i);
        ant_observe::lemma_offset_fits(cells, 1 - trail, i);
        assert(trail * cells == 0 || trail * cells == cells) by (nonlinear_arith)
            requires
                0 <= trail <= 1,
        ;
        assert((1 - trail) * cells == cells - trail * cells) by (nonlinear_arith);
        colony::law_trail_reads_back(before, cells, trail, n - 1, value, trail, i);
        colony::law_trail_reads_back(before, cells, trail, n - 1, value, 1 - trail, i);
    }
}

fn fade(field: &mut [u8], cells: usize, trail: usize, decay: u16)
    requires
        trail <= 1,
        4 * cells <= usize::MAX,
    ensures
        final(field)@ == decayed(old(field)@, cells as int, trail as int, decay, cells as int),
        final(field)@.len() == old(field)@.len(),
{
    let ghost start = field@;
    let mut cell: usize = 0;
    while cell < cells
        invariant
            cell <= cells,
            trail <= 1,
            4 * cells <= usize::MAX,
            field@.len() == start.len(),
            field@ == decayed(start, cells as int, trail as int, decay, cell as int),
        decreases cells - cell,
    {
        proof {
            ant_observe::lemma_offset_fits(cells as int, trail as int, cell as int);
        }
        let value: u16 = read_trail(field, cells, trail, cell);
        write_trail(field, cells, trail, cell, value.saturating_sub(decay));
        cell = cell + 1;
    }
}

fn strengthen(field: &mut [u8], cells: usize, trail: usize, cell: usize, by: u16)
    requires
        trail <= 1,
        cell < cells,
        4 * cells <= usize::MAX,
    ensures
        final(field)@ == strengthened(old(field)@, cells as int, trail as int, cell as int, by),
        final(field)@.len() == old(field)@.len(),
{
    if by > 0 {
        proof {
            ant_observe::lemma_offset_fits(cells as int, trail as int, cell as int);
        }
        let value: u16 = read_trail(field, cells, trail, cell);
        write_trail(field, cells, trail, cell, value.saturating_add(by));
    }
}

/// Advances a field by one epoch.
pub fn advance_field(
    field: &mut [u8],
    width: u16,
    height: u16,
    decay: u16,
    records: &Vec<(u16, u16, u16, u16)>,
)
    requires
        is_addressable(width, height),
    ensures
        final(field)@ == field_after(old(field)@, width, height, decay, records@),
        final(field)@.len() == old(field)@.len(),
{
    proof {
        colony::lemma_grid_size(width as int, height as int);
    }
    let cells: usize = width as usize * height as usize;
    fade(field, cells, TRAIL_FOOD, decay);
    fade(field, cells, TRAIL_HOME, decay);
    let ghost faded = field@;
    let mut i: usize = 0;
    while i < records.len()
        invariant
            i <= records.len(),
            cells == width * height,
            4 * cells <= usize::MAX,
            field@.len() == faded.len(),
            field@ == marked(faded, cells as int, width as int, records@, i as int),
        decreases records.len() - i,
    {
        let (x, y, food, home) = records[i];
        proof {
            colony::lemma_grid_size(y as int, width as int);
        }
        let cell: u64 = y as u64 * width as u64 + x as u64;
        if cell < cells as u64 {
            strengthen(field, cells, TRAIL_FOOD, cell as usize, food);
            strengthen(field, cells, TRAIL_HOME, cell as usize, home);
        }
        i = i + 1;
    }
}

/// The records in the wanted slot of a summary object.
pub fn read_reports(content: &Vec<u8>, want: u32) -> (records: Vec<(u16, u16, u16, u16)>)
    ensures
        records@ == reported(Ok::<Seq<u8>, RuntimeError>(content@), want),
{
    let slot: usize = content.len() / 2;
    let mut records: Vec<(u16, u16, u16, u16)> = Vec::new();
    if slot < 4 {
        assert(records@ =~= reported(Ok::<Seq<u8>, RuntimeError>(content@), want));
        return records;
    }
    let at: usize = if write_slot(want) == 0 {
        0
    } else {
        slot
    };
    proof {
        bytes::lemma_radix_values();
        assert(slot * colony::slot_of(want) == at) by (nonlinear_arith)
            requires
                colony::slot_of(want) == 0 || colony::slot_of(want) == 1,
                colony::slot_of(want) == 0 ==> at == 0,
                colony::slot_of(want) == 1 ==> at == slot,
        ;
    }
    let counted: u64 = bytes::get_le(content.as_slice(), at, 4);
    let capacity: usize = (slot - 4) / 8;
    let count: usize = if counted <= capacity as u64 {
        counted as usize
    } else {
        capacity
    };
    let mut i: usize = 0;
    while i < count
        invariant
            i <= count <= capacity,
            capacity == (slot - 4) / 8,
            slot >= 4,
            slot == content@.len() as int / 2,
            at + slot <= content.len(),
            count == report_count(content@, want),
            at == (content@.len() as int / 2) * colony::slot_of(want),
            records@ =~= reported(Ok::<Seq<u8>, RuntimeError>(content@), want).take(i as int),
            bytes::radix(2) == 0x1_0000,
        decreases count - i,
    {
        let from: usize = at + 4 + 8 * i;
        let record = (
            bytes::get_le(content.as_slice(), from, 2) as u16,
            bytes::get_le(content.as_slice(), from + 2, 2) as u16,
            bytes::get_le(content.as_slice(), from + 4, 2) as u16,
            bytes::get_le(content.as_slice(), from + 6, 2) as u16,
        );
        records.push(record);
        i = i + 1;
    }
    records
}

pub ghost struct WorldReplies {
    pub frame: Result<Seq<u8>, RuntimeError>,
    pub summaries: Seq<Result<Seq<u8>, RuntimeError>>,
    pub readable: Result<Seq<u8>, RuntimeError>,
    pub writable: Result<Seq<u8>, RuntimeError>,
    pub stored: Result<Seq<u8>, RuntimeError>,
}

/// The world that a frame's bytes hold, where its grid is one that can be
/// addressed.
pub open spec fn loaded_world(reply: Result<Seq<u8>, RuntimeError>) -> Option<WorldView> {
    match reply {
        Ok(content) => match WorldView::read(content) {
            Some(view) => if view.width != 0 && is_addressable(view.width, view.height) {
                Some(view)
            } else {
                None
            },
            None => None,
        },
        Err(_) => None,
    }
}

/// The buffer that ants read next epoch can be written: it was opened, and is
/// as long as the one they read now.
pub open spec fn is_writable(r: WorldReplies) -> bool {
    r.writable matches Ok(held) ==> held.len() == r.readable->Ok_0.len()
}

pub open spec fn world_calls_of(frame: Ref64, process: Ref64, epoch: u32, r: WorldReplies) -> Seq<
    Call,
> {
    let loading = lane::read_calls(process, frame, r.frame);
    match loaded_world(r.frame) {
        None => loading,
        Some(view) => {
            let n = view.summaries.len() as int;
            let (readable, writable) = view.buffers_at(epoch);
            let records = all_reported(r.summaries, previous(epoch), n);
            let reading = loading + reads_of(process, view.summaries, r.summaries, n)
                + lane::read_calls(process, readable, r.readable);
            match r.readable {
                Err(_) => reading,
                Ok(carried) => {
                    let written = reading + lane::edit_calls(
                        process,
                        writable,
                        false,
                        match r.writable {
                            Ok(held) => Ok(
                                (
                                    held,
                                    if held.len() == carried.len() {
                                        field_after(
                                            carried,
                                            view.width,
                                            view.height,
                                            view.decay,
                                            records,
                                        )
                                    } else {
                                        held
                                    },
                                ),
                            ),
                            Err(error) => Err(error),
                        },
                    );
                    if is_writable(r) {
                        written + step::store_calls(frame, process, view.encoded(), r.stored)
                    } else {
                        written
                    }
                },
            }
        },
    }
}

/// Advances the pheromone field by one epoch: the readable buffer, carried
/// forward, is left in the buffer that ants read next. A step that cannot do so
/// faults and leaves the buffer as it is.
pub open spec fn world_stepped(
    frame: Ref64,
    process: Ref64,
    epoch: u32,
    r: WorldReplies,
    before: Seq<Call>,
    after: Seq<Call>,
    result: StepResult,
) -> bool {
    &&& after == before + world_calls_of(frame, process, epoch, r)
    &&& loaded_world(r.frame) matches Some(view) ==> r.summaries.len() == view.summaries.len()
    &&& result == if loaded_world(r.frame) is Some && r.readable is Ok && is_writable(r) {
        StepResult::Yield { next: WORLD_STEP }
    } else {
        StepResult::Fault { process, run_class: WORLD_STEP }
    }
}

fn load_world<K: Kernel>(lane: &mut LaneView<K>, process: Ref64) -> (found: (
    Ghost<Result<Seq<u8>, RuntimeError>>,
    Option<WorldFrame>,
))
    ensures
        final(lane).log() == old(lane).log() + lane::read_calls(process, old(lane).frame, found.0@),
        final(lane).same_place(old(lane)),
        colony::world_view(found.1) == loaded_world(found.0@),
        found.1 matches Some(world) ==> world@.summaries.len() <= u32::MAX,
{
    let reply = frame_bytes(lane, process);
    let ghost seen = kernel::replied_bytes(reply);
    let mut loaded: Option<WorldFrame> = None;
    if let Ok(content) = reply {
        if let Some(world) = WorldFrame::decode(content.as_slice()) {
            proof {
                lemma_list_is_short(content@, 22);
                colony::lemma_grid_size(world.width as int, world.height as int);
            }
            if world.width != 0 && world.cells() <= usize::MAX / 4 {
                loaded = Some(world);
            }
        }
    }
    (Ghost(seen), loaded)
}

fn gather_reports<K: Kernel>(lane: &mut LaneView<K>, process: Ref64, summaries: &Vec<u64>, want: u32) -> (gathered:
    (Ghost<Seq<Result<Seq<u8>, RuntimeError>>>, Vec<(u16, u16, u16, u16)>))
    ensures
        gathered.0@.len() == summaries@.len(),
        final(lane).log() == old(lane).log() + reads_of(
            process,
            summaries@,
            gathered.0@,
            summaries@.len() as int,
        ),
        final(lane).same_place(old(lane)),
        gathered.1@ == all_reported(gathered.0@, want, summaries@.len() as int),
{
    let ghost l0 = lane.log();
    let mut records: Vec<(u16, u16, u16, u16)> = Vec::new();
    let ghost mut replies: Seq<Result<Seq<u8>, RuntimeError>> = Seq::empty();
    let mut i: usize = 0;
    assert(l0 + reads_of(process, summaries@, replies, 0) =~= l0);
    while i < summaries.len()
        invariant
            i <= summaries.len(),
            lane.same_place(old(lane)),
            replies.len() == i,
            lane.log() == l0 + reads_of(process, summaries@, replies, i as int),
            records@ == all_reported(replies, want, i as int),
        decreases summaries.len() - i,
    {
        let answer = lane.object_bytes(process, Ref64::from_u64(summaries[i]));
        let ghost before = records@;
        let ghost more = kernel::replied_bytes(answer);
        proof {
            lemma_reads_extend(process, summaries@, replies, more, want, i as int);
            replies = replies.push(more);
            assert(lane.log() =~= l0 + reads_of(process, summaries@, replies, i + 1));
        }
        if let Ok(content) = answer {
            let mut found: Vec<(u16, u16, u16, u16)> = read_reports(&content, want);
            records.append(&mut found);
        }
        assert(records@ =~= before + reported(more, want));
        i = i + 1;
    }
    (Ghost(replies), records)
}

pub fn world_step<K: Kernel>(lane: &mut LaneView<K>, process: Ref64) -> (result: StepResult)
    ensures
        exists|r: WorldReplies| #[trigger]
            world_stepped(
                old(lane).frame,
                process,
                old(lane).kernel.epoch(),
                r,
                old(lane).log(),
                final(lane).log(),
                result,
            ),
        final(lane).same_place(old(lane)),
{
    let epoch: u32 = lane.epoch_number();
    let ghost l0 = lane.log();
    let ghost none: Result<Seq<u8>, RuntimeError> = Err(RuntimeError::Unavailable);
    let fault = StepResult::Fault { process, run_class: WORLD_STEP };
    let (Ghost(seen), loaded) = load_world(lane, process);
    let ghost f = lane.frame;
    let world: WorldFrame = match loaded {
        Some(world) => world,
        None => {
            proof {
                let r = WorldReplies {
                    frame: seen,
                    summaries: Seq::empty(),
                    readable: none,
                    writable: none,
                    stored: none,
                };
                assert(world_stepped(f, process, epoch, r, l0, lane.log(), fault));
            }
            return fault;
        },
    };
    let ghost view = world@;
    let ghost n = view.summaries.len() as int;
    let (readable, writable) = world.buffers(epoch);
    let want: u32 = epoch.wrapping_sub(1);
    assert(want == previous(epoch));
    let (Ghost(replies), records) = gather_reports(lane, process, &world.summaries, want);
    let carried_reply = lane.object_bytes(process, readable);
    let ghost carried_seen = kernel::replied_bytes(carried_reply);
    let ghost l3 = lane.log();
    proof {
        assert(l3 =~= l0 + (lane::read_calls(process, f, seen) + reads_of(
            process,
            view.summaries,
            replies,
            n,
        ) + lane::read_calls(process, readable, carried_seen)));
    }
    let mut carried: Vec<u8> = match carried_reply {
        Ok(carried) => carried,
        Err(_) => {
            proof {
                let r = WorldReplies {
                    frame: seen,
                    summaries: replies,
                    readable: carried_seen,
                    writable: none,
                    stored: none,
                };
                assert(world_stepped(f, process, epoch, r, l0, lane.log(), fault));
            }
            return fault;
        },
    };
    let length: usize = carried.len();
    advance_field(carried.as_mut_slice(), world.width, world.height, world.decay, &records);
    let mut fits: bool = true;
    let ghost mut writable_seen: Result<Seq<u8>, RuntimeError> = none;
    match lane.object_bytes_mut(process, writable) {
        Ok(buffer) => {
            proof {
                writable_seen = Ok(buffer@);
            }
            if buffer.len() == length {
                overwrite(buffer, 0, &carried);
                assert(bytes::spliced(writable_seen->Ok_0, 0, carried@) =~= carried@);
            } else {
                fits = false;
            }
        },
        Err(error) => {
            proof {
                writable_seen = Err(error);
            }
        },
    }
    let ghost l4 = lane.log();
    if !fits {
        proof {
            let r = WorldReplies {
                frame: seen,
                summaries: replies,
                readable: carried_seen,
                writable: writable_seen,
                stored: none,
            };
            assert(l4 =~= l0 + world_calls_of(f, process, epoch, r));
            assert(world_stepped(f, process, epoch, r, l0, lane.log(), fault));
        }
        return fault;
    }
    let mut content: Vec<u8> = Vec::new();
    world.encode(&mut content);
    assert(content@ =~= view.encoded());
    store_bytes(lane, process, content);
    let result = StepResult::Yield { next: WORLD_STEP };
    proof {
        let stored = choose|held: Result<Seq<u8>, RuntimeError>|
            lane.log() == l4 + #[trigger] step::store_calls(f, process, content@, held);
        let r = WorldReplies {
            frame: seen,
            summaries: replies,
            readable: carried_seen,
            writable: writable_seen,
            stored,
        };
        assert(lane.log() =~= l0 + world_calls_of(f, process, epoch, r));
        assert(world_stepped(f, process, epoch, r, l0, lane.log(), result));
    }
    result
}

} // verus!

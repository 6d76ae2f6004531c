//! What an ant does, behaviour by behaviour, and what becomes of the field.

use crate::bytes;
use crate::compiler::run_classes::{
    ANT_AVOID_OBSTACLE, ANT_CARRY_FOOD, ANT_EXPLORE, ANT_FOLLOW_TRAIL, ANT_RETURN_HOME, ANT_WAIT,
};
use crate::executives::ant_colony;
use crate::executives::ant_colony::SensesView;
use crate::experiments::ant_colony as colony;
use crate::experiments::ant_colony::{AntFrame, Deposit};
use vstd::prelude::*;

verus! {

// ---- directions ------------------------------------------------------------

/// Directions go clockwise from straight up: one to three lead right, five to seven
/// lead left.
pub open spec fn across(h: int) -> int {
    if 1 <= h <= 3 {
        1
    } else if 5 <= h <= 7 {
        -1
    } else {
        0
    }
}

/// Three to five lead down, and seven, zero and one lead up.
pub open spec fn down(h: int) -> int {
    if 3 <= h <= 5 {
        1
    } else if h == 7 || h == 0 || h == 1 {
        -1
    } else {
        0
    }
}

/// The eight directions go once around, and the one four further on leads back.
pub proof fn law_directions_go_around(h: int)
    requires
        0 <= h < 8,
    ensures
        colony::offset_of_direction(h) == (across(h), down(h)),
        colony::offset_of_direction((h + 4) % 8) == (-across(h), -down(h)),
{
}

/// Some open neighbour's trail is above the threshold.
pub open spec fn is_marked(trail: Seq<u16>, open: Seq<bool>, threshold: u16) -> bool {
    exists|i: int| 0 <= i < 8 && #[trigger] open[i] && trail[i] > threshold
}

/// Direction `h` is open and above the threshold, no open one is stronger, and those
/// as strong come later in a scan from `start`.
pub open spec fn is_strongest(trail: Seq<u16>, open: Seq<bool>, threshold: u16, start: int, h: int) -> bool {
    &&& 0 <= h < 8
    &&& open[h]
    &&& trail[h] > threshold
    &&& forall|i: int|
        0 <= i < 8 && #[trigger] open[i] ==> trail[i] < trail[h] || (trail[i] == trail[h] && (h
            - start) % 8 <= (i - start) % 8)
}

proof fn lemma_scan(trail: Seq<u16>, open: Seq<bool>, threshold: u16, start: int, n: int)
    requires
        0 <= start < 8,
        0 <= n <= 8,
    ensures
        match ant_colony::best_among(trail, open, threshold, start, n) {
            Some(h) => {
                &&& 0 <= h < 8
                &&& (h - start) % 8 < n
                &&& open[h]
                &&& trail[h] > threshold
                &&& forall|i: int|
                    0 <= i < 8 && (i - start) % 8 < n && #[trigger] open[i] ==> trail[i] < trail[h]
                        || (trail[i] == trail[h] && (h - start) % 8 <= (i - start) % 8)
            },
            None => forall|i: int|
                0 <= i < 8 && (i - start) % 8 < n && #[trigger] open[i] ==> trail[i] <= threshold,
        },
    decreases n,
{
    if n > 0 {
        lemma_scan(trail, open, threshold, start, n - 1);
        let j = (start + n - 1) % 8;
        assert((j - start) % 8 == n - 1);
        assert forall|i: int| #![trigger open[i]] 0 <= i < 8 && (i - start) % 8 < n implies i == j || (i - start) % 8
            < n - 1 by {}
    }
}

/// A trail is climbed where an open neighbour is above the threshold: to the
/// strongest, and among the strongest to the first from where the generator points.
pub proof fn law_the_strongest_neighbour_is_climbed(
    trail: Seq<u16>,
    open: Seq<bool>,
    threshold: u16,
    rng: u64,
)
    ensures
        match ant_colony::best_of(trail, open, threshold, rng) {
            Some(h) => is_strongest(
                trail,
                open,
                threshold,
                (colony::rng_draw(rng) % 8) as int,
                h,
            ) && is_marked(trail, open, threshold),
            None => !is_marked(trail, open, threshold),
        },
{
    let start = (colony::rng_draw(rng) % 8) as int;
    lemma_scan(trail, open, threshold, start, 8);
    if let Some(h) = ant_colony::best_of(trail, open, threshold, rng) {
        assert(open[h] && trail[h] > threshold);
        assert(is_strongest(trail, open, threshold, start, h));
    }
}

proof fn lemma_first_open(open: Seq<bool>, start: int, k: int)
    requires
        0 <= start < 8,
        0 <= k <= 8,
    ensures
        match ant_colony::first_open(open, start, k) {
            Some(h) => {
                &&& 0 <= h < 8
                &&& open[h]
                &&& forall|i: int|
                    0 <= i < 8 && k <= (i - start) % 8 < (h - start) % 8 ==> !#[trigger] open[i]
            },
            None => forall|i: int| 0 <= i < 8 && k <= (i - start) % 8 ==> !#[trigger] open[i],
        },
    decreases 8 - k,
{
    if k < 8 {
        lemma_first_open(open, start, k + 1);
        let j = (start + k) % 8;
        assert((j - start) % 8 == k);
        assert forall|i: int| #![trigger open[i]] 0 <= i < 8 && k <= (i - start) % 8 implies i == j || k + 1 <= (i
            - start) % 8 by {}
    }
}

/// A random direction is open, and the first open one from where the generator points.
/// There is none only where no neighbour is open.
pub proof fn law_a_random_direction_is_the_first_open_one(open: Seq<bool>, rng: u64)
    ensures
        match ant_colony::random_of(open, rng) {
            Some(h) => {
                &&& 0 <= h < 8
                &&& open[h]
                &&& forall|i: int|
                    0 <= i < 8 && (i - (colony::rng_draw(rng) % 8) as int) % 8 < (h - (
                    colony::rng_draw(rng) % 8) as int) % 8 ==> !#[trigger] open[i]
            },
            None => forall|i: int| 0 <= i < 8 ==> !#[trigger] open[i],
        },
{
    lemma_first_open(open, (colony::rng_draw(rng) % 8) as int, 0);
}

/// The direction towards a place leads as many columns and rows its way as one step
/// can: each coordinate that differs comes nearer by one, and the others stay.
pub proof fn law_a_direction_towards_comes_nearer(dx: int, dy: int)
    requires
        dx != 0 || dy != 0,
    ensures
        ({
            let h = ant_colony::towards(dx, dy);
            &&& 0 <= h < 8
            &&& dx > 0 ==> across(h) == 1
            &&& dx < 0 ==> across(h) == -1
            &&& dx == 0 ==> across(h) == 0
            &&& dy > 0 ==> down(h) == 1
            &&& dy < 0 ==> down(h) == -1
            &&& dy == 0 ==> down(h) == 0
        }),
{
}

// ---- one step --------------------------------------------------------------

/// The ant did not move, and still looks the same way.
pub open spec fn stood(ant: AntFrame, after: AntFrame) -> bool {
    after.x == ant.x && after.y == ant.y && after.heading == ant.heading
}

/// The ant went one cell in direction `h`, and looks that way. At the edge of the
/// grid a coordinate stays.
pub open spec fn went(ant: AntFrame, after: AntFrame, h: int) -> bool {
    let x = ant.x + across(h);
    let y = ant.y + down(h);
    &&& after.heading == h
    &&& after.x as int == if x < 0 {
        0
    } else if x >= ant.width {
        ant.width - 1
    } else {
        x
    }
    &&& after.y as int == if y < 0 {
        0
    } else if y >= ant.height {
        ant.height - 1
    } else {
        y
    }
}

/// The ant's load and count are what they were.
pub open spec fn kept_its_load(ant: AntFrame, after: AntFrame) -> bool {
    after.carrying == ant.carrying && after.delivered == ant.delivered
}

/// Within one cell of the nest, each way.
pub open spec fn by_the_nest(ant: AntFrame) -> bool {
    &&& ant.x <= ant.home_x + 1 && ant.home_x <= ant.x + 1
    &&& ant.y <= ant.home_y + 1 && ant.home_y <= ant.y + 1
}

/// No neighbour can be entered.
pub open spec fn is_shut_in(s: SensesView) -> bool {
    forall|i: int| 0 <= i < 8 ==> !#[trigger] s.passable[i]
}

/// A searching or trail-following ant that stands on food and carries none picks it
/// up: it does not move, and carries the food from then on.
pub proof fn law_an_ant_on_food_picks_it_up(ant: AntFrame, class: int, s: SensesView)
    requires
        class == ANT_EXPLORE || class == ANT_FOLLOW_TRAIL,
        s.on_food,
        ant.carrying == 0,
    ensures
        ant_colony::choice_of(ant, class, s) is Some,
        ({
            let c = ant_colony::choice_of(ant, class, s)->0;
            let after = ant_colony::chosen(c);
            &&& after.carrying == 1
            &&& after.delivered == ant.delivered
            &&& stood(ant, after)
            &&& after.rng == ant.rng
            &&& c.next == ANT_CARRY_FOOD
        }),
{
    reveal(ant_colony::choice_of);
}

/// Loads come from food and go to the nest, and in no other way: what an ant carries
/// changes only where it picks up food that it stands on, or puts its load down by the
/// nest, where it is counted once.
pub proof fn law_loads_come_from_food_and_go_to_the_nest(ant: AntFrame, class: int, s: SensesView)
    requires
        ant_colony::choice_of(ant, class, s) is Some,
    ensures
        ({
            let c = ant_colony::choice_of(ant, class, s)->0;
            let after = ant_colony::chosen(c);
            let picks = (class == ANT_EXPLORE || class == ANT_FOLLOW_TRAIL) && s.on_food
                && ant.carrying == 0;
            let delivers = class == ANT_CARRY_FOOD && by_the_nest(ant);
            &&& picks ==> after.carrying == 1 && after.delivered == ant.delivered
            &&& delivers ==> after.carrying == 0 && (after.delivered == ant.delivered + 1 || (
            ant.delivered == u16::MAX && after.delivered == u16::MAX))
            &&& !picks && !delivers ==> kept_its_load(ant, after)
        }),
{
    reveal(ant_colony::choice_of);
}

/// A laden ant by the nest puts its load down, is counted once more, stands still and
/// searches again.
pub proof fn law_a_laden_ant_delivers_by_the_nest(ant: AntFrame, s: SensesView)
    requires
        by_the_nest(ant),
    ensures
        ant_colony::choice_of(ant, ANT_CARRY_FOOD as int, s) is Some,
        ({
            let c = ant_colony::choice_of(ant, ANT_CARRY_FOOD as int, s)->0;
            let after = ant_colony::chosen(c);
            &&& after.carrying == 0
            &&& after.delivered == if ant.delivered < u16::MAX {
                ant.delivered + 1
            } else {
                u16::MAX as int
            }
            &&& stood(ant, after)
            &&& c.next == ANT_EXPLORE
        }),
{
    reveal(ant_colony::choice_of);
}

/// An ant that returns home unladen searches again once it is by the nest.
pub proof fn law_a_returning_ant_arrives_by_the_nest(ant: AntFrame, s: SensesView)
    requires
        by_the_nest(ant),
    ensures
        ant_colony::choice_of(ant, ANT_RETURN_HOME as int, s) is Some,
        ({
            let c = ant_colony::choice_of(ant, ANT_RETURN_HOME as int, s)->0;
            let after = ant_colony::chosen(c);
            &&& kept_its_load(ant, after)
            &&& stood(ant, after)
            &&& c.next == ANT_EXPLORE
        }),
{
    reveal(ant_colony::choice_of);
}

/// An ant on its way home, laden or not, climbs the home trail where an open
/// neighbour is marked. Without one it goes straight for the nest where that cell is
/// open, so that it comes nearer in every coordinate that differs. Otherwise it goes
/// anywhere open, and where nothing is open it stands and has to avoid an obstacle.
pub proof fn law_an_ant_goes_home(ant: AntFrame, class: int, s: SensesView)
    requires
        class == ANT_CARRY_FOOD || class == ANT_RETURN_HOME,
        !by_the_nest(ant),
        ant.width > 0,
        ant.height > 0,
    ensures
        ant_colony::choice_of(ant, class, s) is Some,
        ({
            let c = ant_colony::choice_of(ant, class, s)->0;
            let after = ant_colony::chosen(c);
            let start = (colony::rng_draw(ant.rng) % 8) as int;
            &&& kept_its_load(ant, after)
            &&& is_shut_in(s) ==> stood(ant, after) && c.next == ANT_AVOID_OBSTACLE
            &&& !is_shut_in(s) ==> {
                let h = after.heading as int;
                &&& c.next == class
                &&& 0 <= h < 8
                &&& s.passable[h]
                &&& went(ant, after, h)
                &&& is_marked(s.home, s.passable, ant.sense_threshold) ==> is_strongest(
                    s.home,
                    s.passable,
                    ant.sense_threshold,
                    start,
                    h,
                )
                &&& !is_marked(s.home, s.passable, ant.sense_threshold) ==> forall|d: int|
                    0 <= d < 8 && #[trigger] s.passable[d] && leads_home(ant, d) ==> h == d
            }
        }),
{
    reveal(ant_colony::choice_of);
    law_the_strongest_neighbour_is_climbed(s.home, s.passable, ant.sense_threshold, ant.rng);
    law_a_random_direction_is_the_first_open_one(s.passable, colony::rng_step(ant.rng));
    law_a_direction_towards_comes_nearer(ant.home_x - ant.x, ant.home_y - ant.y);
    let direct = ant_colony::towards(ant.home_x - ant.x, ant.home_y - ant.y);
    let c = ant_colony::choice_of(ant, class, s)->0;
    if let Some(h) = c.step {
        law_directions_go_around(h);
        assert(s.passable[h]);
    }
    assert forall|d: int| 0 <= d < 8 && #[trigger] leads_home(ant, d) implies d == direct by {}
}

/// Direction `d` leads to the nest in both coordinates, as far as they differ.
pub open spec fn leads_home(ant: AntFrame, d: int) -> bool {
    &&& ant.home_x > ant.x ==> across(d) == 1
    &&& ant.home_x < ant.x ==> across(d) == -1
    &&& ant.home_x == ant.x ==> across(d) == 0
    &&& ant.home_y > ant.y ==> down(d) == 1
    &&& ant.home_y < ant.y ==> down(d) == -1
    &&& ant.home_y == ant.y ==> down(d) == 0
}

/// A waiting ant stands still, waits as many steps as it has ticks, and then searches.
pub proof fn law_a_wait_ends(ant: AntFrame, s: SensesView)
    ensures
        ant_colony::choice_of(ant, ANT_WAIT as int, s) is Some,
        ({
            let c = ant_colony::choice_of(ant, ANT_WAIT as int, s)->0;
            let after = ant_colony::chosen(c);
            &&& stood(ant, after)
            &&& kept_its_load(ant, after)
            &&& after.rng == ant.rng
            &&& ant.wait_ticks > 0 ==> after.wait_ticks == ant.wait_ticks - 1 && c.next == ANT_WAIT
            &&& ant.wait_ticks == 0 ==> after.wait_ticks == 0 && c.next == ANT_EXPLORE
        }),
{
    reveal(ant_colony::choice_of);
}

/// An ant that was blocked goes anywhere open, or stands where nothing is, and goes on
/// with what it was at: a laden one with its way home, another with a food trail where
/// an open neighbour is marked, and else with its search.
pub proof fn law_a_blocked_ant_resumes(ant: AntFrame, s: SensesView)
    requires
        ant.width > 0,
        ant.height > 0,
    ensures
        ant_colony::choice_of(ant, ANT_AVOID_OBSTACLE as int, s) is Some,
        ({
            let c = ant_colony::choice_of(ant, ANT_AVOID_OBSTACLE as int, s)->0;
            let after = ant_colony::chosen(c);
            let h = after.heading as int;
            &&& kept_its_load(ant, after)
            &&& is_shut_in(s) ==> stood(ant, after)
            &&& !is_shut_in(s) ==> 0 <= h < 8 && s.passable[h] && went(ant, after, h)
            &&& c.next == if ant.carrying == 1 {
                ANT_CARRY_FOOD
            } else if is_marked(s.food, s.passable, ant.sense_threshold) {
                ANT_FOLLOW_TRAIL
            } else {
                ANT_EXPLORE
            }
        }),
{
    reveal(ant_colony::choice_of);
    law_a_random_direction_is_the_first_open_one(s.passable, ant.rng);
    law_the_strongest_neighbour_is_climbed(
        s.food,
        s.passable,
        ant.sense_threshold,
        colony::rng_step(ant.rng),
    );
    let c = ant_colony::choice_of(ant, ANT_AVOID_OBSTACLE as int, s)->0;
    if let Some(h) = c.step {
        law_directions_go_around(h);
        assert(s.passable[h]);
    }
}

/// A searching ant that finds no food under it follows a food trail where an open
/// neighbour is marked, without moving yet. Otherwise it is blocked where nothing is
/// open; one time in sixty-four it stops to wait; and else it goes on, three times in
/// four straight ahead where that is open.
pub proof fn law_a_searching_ant_searches(ant: AntFrame, s: SensesView)
    requires
        ant.width > 0,
        ant.height > 0,
        !(s.on_food && ant.carrying == 0),
    ensures
        ant_colony::choice_of(ant, ANT_EXPLORE as int, s) is Some,
        ({
            let c = ant_colony::choice_of(ant, ANT_EXPLORE as int, s)->0;
            let after = ant_colony::chosen(c);
            let second = ant.rng.wrapping_add(0x9E37_79B9_7F4A_7C15);
            let third = second.wrapping_add(0x9E37_79B9_7F4A_7C15);
            let fourth = third.wrapping_add(0x9E37_79B9_7F4A_7C15);
            let ahead = ant.heading as int % 8;
            let h = after.heading as int;
            &&& kept_its_load(ant, after)
            &&& if is_marked(s.food, s.passable, ant.sense_threshold) {
                stood(ant, after) && after.wait_ticks == ant.wait_ticks && c.next
                    == ANT_FOLLOW_TRAIL
            } else if is_shut_in(s) {
                stood(ant, after) && after.wait_ticks == ant.wait_ticks && c.next
                    == ANT_AVOID_OBSTACLE
            } else if colony::rng_draw(second) % 64 == 0 {
                stood(ant, after) && after.wait_ticks == ant.wait_reset && c.next == ANT_WAIT
            } else if colony::rng_draw(third) % 4 != 0 && s.passable[ahead] {
                went(ant, after, ahead) && after.wait_ticks == ant.wait_ticks && c.next
                    == ANT_EXPLORE
            } else {
                let turned = (colony::rng_draw(fourth) % 8) as int;
                after.wait_ticks == ant.wait_ticks && if s.passable[turned] {
                    went(ant, after, turned) && c.next == ANT_EXPLORE
                } else {
                    stood(ant, after) && c.next == ANT_AVOID_OBSTACLE
                }
            }
        }),
{
    reveal(ant_colony::choice_of);
    law_the_strongest_neighbour_is_climbed(s.food, s.passable, ant.sense_threshold, ant.rng);
    let c = ant_colony::choice_of(ant, ANT_EXPLORE as int, s)->0;
    if let Some(h) = c.step {
        law_directions_go_around(h);
    }
    if is_shut_in(s) {
        assert(!ant_colony::any_open(s.passable));
    } else {
        let i = choose|i: int| 0 <= i < 8 && #[trigger] s.passable[i];
        assert(ant_colony::any_open(s.passable));
    }
}

/// An ant on a food trail climbs it to the strongest open neighbour, but never turns
/// straight back. Where the trail has gone it stands, and searches again.
pub proof fn law_a_trail_is_followed_forward(ant: AntFrame, s: SensesView)
    requires
        ant.width > 0,
        ant.height > 0,
        s.passable.len() == 8,
        !(s.on_food && ant.carrying == 0),
    ensures
        ant_colony::choice_of(ant, ANT_FOLLOW_TRAIL as int, s) is Some,
        ({
            let c = ant_colony::choice_of(ant, ANT_FOLLOW_TRAIL as int, s)->0;
            let after = ant_colony::chosen(c);
            let back = (ant.heading + 4) % 8;
            let forward = Seq::new(8, |i: int| s.passable[i] && i != back);
            let h = after.heading as int;
            &&& kept_its_load(ant, after)
            &&& if is_marked(s.food, forward, ant.sense_threshold) {
                &&& 0 <= h < 8
                &&& h != back
                &&& is_strongest(
                    s.food,
                    forward,
                    ant.sense_threshold,
                    (colony::rng_draw(ant.rng) % 8) as int,
                    h,
                )
                &&& went(ant, after, h)
                &&& c.next == ANT_FOLLOW_TRAIL
            } else {
                stood(ant, after) && c.next == ANT_EXPLORE
            }
        }),
{
    reveal(ant_colony::choice_of);
    let back = (ant.heading + 4) % 8;
    let forward = Seq::new(8, |i: int| s.passable[i] && i != back);
    assert(forward =~= s.passable.update(back, false));
    law_the_strongest_neighbour_is_climbed(s.food, forward, ant.sense_threshold, ant.rng);
    let c = ant_colony::choice_of(ant, ANT_FOLLOW_TRAIL as int, s)->0;
    if let Some(h) = c.step {
        law_directions_go_around(h);
        assert(forward[h]);
    }
}

/// Ants have the six behaviours and no other, and every step names one of them.
pub proof fn law_ants_have_six_behaviours(ant: AntFrame, class: int, s: SensesView)
    ensures
        ant_colony::choice_of(ant, class, s) is Some <==> (class == ANT_EXPLORE || class
            == ANT_FOLLOW_TRAIL || class == ANT_CARRY_FOOD || class == ANT_RETURN_HOME || class
            == ANT_AVOID_OBSTACLE || class == ANT_WAIT),
{
    reveal(ant_colony::choice_of);
}

// ---- what it senses and what it lays ---------------------------------------

/// What an ant senses at its neighbour in a direction is the cell one step that way:
/// the food trail is the field's first channel and the home trail its second, both are
/// zero outside the grid, and a cell outside the grid cannot be entered.
pub proof fn law_an_ant_senses_its_neighbours(
    ant: AntFrame,
    terrain: Seq<u8>,
    field: Seq<u8>,
    h: int,
)
    requires
        0 <= h < 8,
        ant.width * ant.height * 4 <= field.len(),
    ensures
        ({
            let s = ant_colony::senses_of(ant, terrain, field);
            let x = ant.x + across(h);
            let y = ant.y + down(h);
            let cells = ant.width * ant.height;
            if 0 <= x < ant.width && 0 <= y < ant.height {
                &&& s.food[h] as nat == bytes::word_at(field, 2 * (y * ant.width + x), 2)
                &&& s.home[h] as nat == bytes::word_at(field, 2 * cells + 2 * (y * ant.width + x), 2)
                &&& s.passable[h] == !colony::obstacle_at(terrain, ant.width, ant.height, x, y)
            } else {
                s.food[h] == 0 && s.home[h] == 0 && !s.passable[h]
            }
        }),
{
    law_directions_go_around(h);
    let x = ant.x + across(h);
    let y = ant.y + down(h);
    let cells = ant.width * ant.height;
    if 0 <= x < ant.width && 0 <= y < ant.height {
        colony::lemma_cell_in_grid(x, y, ant.width as int, ant.height as int);
        let cell = y * ant.width + x;
        lemma_word_is_small(field, 2 * cell);
        lemma_word_is_small(field, 2 * cells + 2 * cell);
        assert(0 * cells == 0 && 1 * cells == cells) by (nonlinear_arith);
    }
}

proof fn lemma_word_is_small(s: Seq<u8>, at: int)
    requires
        0 <= at,
        at + 2 <= s.len(),
    ensures
        bytes::word_at(s, at, 2) < 0x1_0000,
{
    bytes::lemma_radix_values();
    bytes::lemma_le_bytes_of_value(s.subrange(at, at + 2));
}

/// An ant stands on food exactly where it is within the radius of a food source that
/// the terrain lists.
pub proof fn law_food_lies_around_its_sources(ant: AntFrame, terrain: Seq<u8>, field: Seq<u8>)
    ensures
        ant_colony::senses_of(ant, terrain, field).on_food <==> exists|i: int|
            {
                &&& 0 <= i < bytes::word_at(terrain, 4, 2)
                &&& #[trigger] lies_within(
                    ant.x as int,
                    ant.y as int,
                    bytes::word_at(terrain, 8 + 6 * i, 2) as u16 as int,
                    bytes::word_at(terrain, 10 + 6 * i, 2) as u16 as int,
                    bytes::word_at(terrain, 12 + 6 * i, 2) as u16 as int,
                )
            },
{
    let s = ant_colony::senses_of(ant, terrain, field);
    if s.on_food {
        let i = choose|i: int|
            0 <= i < colony::food_count(terrain) && #[trigger] colony::inside_source(
                terrain,
                i,
                ant.x as int,
                ant.y as int,
            );
        assert(lies_within(
            ant.x as int,
            ant.y as int,
            bytes::word_at(terrain, 8 + 6 * i, 2) as u16 as int,
            bytes::word_at(terrain, 10 + 6 * i, 2) as u16 as int,
            bytes::word_at(terrain, 12 + 6 * i, 2) as u16 as int,
        ));
    }
    assert forall|i: int|
        0 <= i < bytes::word_at(terrain, 4, 2) && #[trigger] lies_within(
            ant.x as int,
            ant.y as int,
            bytes::word_at(terrain, 8 + 6 * i, 2) as u16 as int,
            bytes::word_at(terrain, 10 + 6 * i, 2) as u16 as int,
            bytes::word_at(terrain, 12 + 6 * i, 2) as u16 as int,
        ) implies s.on_food by {
        assert(colony::inside_source(terrain, i, ant.x as int, ant.y as int));
    }
}

/// `(x, y)` is no farther than `r` from `(cx, cy)`.
pub open spec fn lies_within(x: int, y: int, cx: int, cy: int, r: int) -> bool {
    (x - cx) * (x - cx) + (y - cy) * (y - cy) <= r * r
}

/// A laden ant lays the trail to food and another ant the trail home, each as much as
/// the ant lays, where the ant stands and stamped with the epoch.
pub proof fn law_a_laden_ant_lays_the_trail_to_food(ant: AntFrame, epoch: u32)
    ensures
        ({
            let laid = ant_colony::laid(ant, epoch);
            &&& laid.epoch == epoch
            &&& laid.x == ant.x
            &&& laid.y == ant.y
            &&& ant.carrying == 1 ==> laid.food == ant.deposit_amount && laid.home == 0
            &&& ant.carrying == 0 ==> laid.food == 0 && laid.home == ant.deposit_amount
        }),
{
}

/// In an even epoch an ant reads the first field buffer, and in an odd one the second.
/// The world reads the same one, and writes the other.
pub proof fn law_ants_and_world_read_the_same_field(
    ant: AntFrame,
    world: colony::WorldView,
    epoch: u32,
)
    requires
        world.field_a == ant.field_a,
        world.field_b == ant.field_b,
    ensures
        epoch as int % 2 == 0 ==> ant.field_read(epoch) == ant.field_a,
        epoch as int % 2 == 1 ==> ant.field_read(epoch) == ant.field_b,
        world.buffers_at(epoch).0 == ant.field_read(epoch),
        epoch as int % 2 == 0 ==> world.buffers_at(epoch).1 == ant.field_b,
        epoch as int % 2 == 1 ==> world.buffers_at(epoch).1 == ant.field_a,
{
}

/// An ant's record goes to the slot of its epoch's parity, where it reads back, and the
/// other slot keeps what it held.
pub proof fn law_a_record_goes_to_its_epoch_s_slot(held: Seq<u8>, ant: AntFrame, epoch: u32)
    requires
        held.len() == 32,
    ensures
        ({
            let after = ant_colony::deposited(held, ant, epoch);
            let at = if epoch as int % 2 == 0 {
                0int
            } else {
                16
            };
            &&& after.len() == 32
            &&& Deposit::read_at(after, at) == ant_colony::laid(ant, epoch)
            &&& forall|i: int|
                0 <= i < 32 && !(at <= i < at + 16) ==> #[trigger] after[i] == held[i]
        }),
{
    let at = 16 * colony::slot_of(epoch);
    let record = ant_colony::laid(ant, epoch);
    colony::law_deposit_reads_back(record, held, at);
    reveal_with_fuel(crate::compiler::frame::word_offset, 6);
    crate::compiler::frame::lemma_packed_len(record.words());
}

} // verus!

//! Run classes: what a continuation runs next, and the bin it waits in.

use vstd::prelude::*;

verus! {

pub const EXPAND_RESUME_0: u32 = 0;

pub const EXPAND_RESUME_1: u32 = 1;

pub const EXPAND_RESUME_2: u32 = 2;

pub const SEARCH_HEURISTIC: u32 = 3;

pub const JOIN_AWAIT: u32 = 4;

pub const JOIN_RESUME: u32 = 5;

pub const POLL_FUTURE: u32 = 6;

pub const POLL_ACT: u32 = 7;

/// The first of the classes that search nodes are spread over.
pub const SEARCH_BRANCH: u32 = 10;

pub const SEARCH_CLASSES: u32 = 8;

/// The first of the ants' behaviours.
pub const ANT_BASE: u32 = 20;

pub const ANT_EXPLORE: u32 = 20;

pub const ANT_FOLLOW_TRAIL: u32 = 21;

pub const ANT_CARRY_FOOD: u32 = 22;

pub const ANT_RETURN_HOME: u32 = 23;

pub const ANT_AVOID_OBSTACLE: u32 = 24;

pub const ANT_WAIT: u32 = 25;

pub const COLONY_AGGREGATE: u32 = 26;

pub const WORLD_STEP: u32 = 27;

/// How many steps a continuation may take where its creator names no number.
pub const DEFAULT_MAX_STEPS: u32 = 64;

/// Which search class a run class is.
pub open spec fn search_index(run_class: u32) -> Option<u32> {
    if SEARCH_BRANCH <= run_class < SEARCH_BRANCH + SEARCH_CLASSES {
        Some((run_class - SEARCH_BRANCH) as u32)
    } else {
        None
    }
}

pub fn search_class_index(run_class: u32) -> (index: Option<u32>)
    ensures
        index == search_index(run_class),
{
    if SEARCH_BRANCH <= run_class && run_class < SEARCH_BRANCH + SEARCH_CLASSES {
        Some(run_class - SEARCH_BRANCH)
    } else {
        None
    }
}

/// Which of the ants' behaviours a run class is.
pub open spec fn ant_index(run_class: u32) -> Option<u32> {
    if ANT_BASE <= run_class <= ANT_WAIT {
        Some((run_class - ANT_BASE) as u32)
    } else {
        None
    }
}

pub fn ant_class_index(run_class: u32) -> (index: Option<u32>)
    ensures
        index == ant_index(run_class),
{
    if ANT_BASE <= run_class && run_class <= ANT_WAIT {
        Some(run_class - ANT_BASE)
    } else {
        None
    }
}

/// The class of a search node: nodes are spread over `count` classes, at least
/// one and at most all of them, by their value.
pub open spec fn class_of_value(value: u64, count: u32) -> u32 {
    let spread = if count < 1 {
        1u32
    } else if count > SEARCH_CLASSES {
        SEARCH_CLASSES
    } else {
        count
    };
    (SEARCH_BRANCH + value % (spread as u64)) as u32
}

pub fn search_class(value: u64, count: u32) -> (run_class: u32)
    ensures
        run_class == class_of_value(value, count),
        search_index(run_class) is Some,
{
    let spread: u32 = if count < 1 {
        1
    } else if count > SEARCH_CLASSES {
        SEARCH_CLASSES
    } else {
        count
    };
    let rest: u64 = value % (spread as u64);
    SEARCH_BRANCH + rest as u32
}

/// What a viewer calls the run classes of the ant colony.
pub fn ant_class_name(run_class: u32) -> (name: Option<&'static str>)
    ensures
        name is Some <==> ANT_BASE <= run_class <= WORLD_STEP,
        run_class == ANT_EXPLORE ==> name->Some_0@ == "explore"@,
        run_class == ANT_FOLLOW_TRAIL ==> name->Some_0@ == "follow-trail"@,
        run_class == ANT_CARRY_FOOD ==> name->Some_0@ == "carry-food"@,
        run_class == ANT_RETURN_HOME ==> name->Some_0@ == "return-home"@,
        run_class == ANT_AVOID_OBSTACLE ==> name->Some_0@ == "avoid-obstacle"@,
        run_class == ANT_WAIT ==> name->Some_0@ == "wait"@,
        run_class == COLONY_AGGREGATE ==> name->Some_0@ == "colony-aggregate"@,
        run_class == WORLD_STEP ==> name->Some_0@ == "world-step"@,
{
    if run_class == ANT_EXPLORE {
        Some("explore")
    } else if run_class == ANT_FOLLOW_TRAIL {
        Some("follow-trail")
    } else if run_class == ANT_CARRY_FOOD {
        Some("carry-food")
    } else if run_class == ANT_RETURN_HOME {
        Some("return-home")
    } else if run_class == ANT_AVOID_OBSTACLE {
        Some("avoid-obstacle")
    } else if run_class == ANT_WAIT {
        Some("wait")
    } else if run_class == COLONY_AGGREGATE {
        Some("colony-aggregate")
    } else if run_class == WORLD_STEP {
        Some("world-step")
    } else {
        None
    }
}

} // verus!

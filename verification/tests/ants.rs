use soma::compiler::run_classes::{ANT_AVOID_OBSTACLE, ANT_CARRY_FOOD, ANT_RETURN_HOME};
use soma::executives::ant_colony::{decide, sense, Senses};
use soma::experiments::ant_colony::{AntFrame, Terrain};
use soma::kernel::Ref64;

fn ant() -> AntFrame {
    let none = Ref64 { raw: 0 };
    AntFrame {
        id: 1,
        colony: 0,
        x: 5,
        y: 5,
        home_x: 9,
        home_y: 5,
        width: 10,
        height: 10,
        rng: 42,
        carrying: 1,
        heading: 0,
        wait_ticks: 0,
        wait_reset: 0,
        deposit_amount: 4,
        sense_threshold: 2,
        delivered: 0,
        deposit: none,
        terrain: none,
        field_a: none,
        field_b: none,
    }
}

fn open_senses() -> Senses {
    Senses {
        passable: [true; 8],
        food_trail: [0; 8],
        home_trail: [0; 8],
        on_food: false,
    }
}

#[test]
fn a_laden_ant_prefers_the_home_trail() {
    // The nest lies to the east, and a trail leads west.
    let mut senses = open_senses();
    senses.home_trail[6] = 3;
    for class in [ANT_CARRY_FOOD, ANT_RETURN_HOME] {
        let (after, next) = decide(&ant(), class, &senses).unwrap();
        assert_eq!((after.x, after.y, after.heading), (4, 5, 6));
        assert_eq!(next, class);
    }
    // A trail that is too weak is none: the ant heads straight for the nest.
    senses.home_trail[6] = 2;
    let (after, _) = decide(&ant(), ANT_CARRY_FOOD, &senses).unwrap();
    assert_eq!((after.x, after.y, after.heading), (6, 5, 2));
    // So is one that cannot be entered.
    senses.home_trail[6] = 9;
    senses.passable[6] = false;
    let (after, _) = decide(&ant(), ANT_CARRY_FOOD, &senses).unwrap();
    assert_eq!((after.x, after.y), (6, 5));
    // With the straight way closed too, anywhere open will do.
    senses.passable = [false; 8];
    senses.passable[4] = true;
    let (after, _) = decide(&ant(), ANT_CARRY_FOOD, &senses).unwrap();
    assert_eq!((after.x, after.y), (5, 6));
    senses.passable[4] = false;
    let (after, next) = decide(&ant(), ANT_CARRY_FOOD, &senses).unwrap();
    assert_eq!((after.x, after.y, next), (5, 5, ANT_AVOID_OBSTACLE));
}

/// A terrain that counts two food sources and holds the first alone.
fn cut_terrain() -> Vec<u8> {
    let mut terrain = vec![10, 0, 10, 0, 2, 0, 0, 0];
    terrain.extend([5u8, 0, 5, 0, 1, 0]);
    terrain
}

#[test]
fn a_cut_terrain_still_knows_the_food_that_it_reaches() {
    let terrain = cut_terrain();
    assert_eq!(Terrain::find_food(&terrain, 5, 5), Some(true));
    assert!(Terrain::is_food(&terrain, 6, 5));
    assert_eq!(Terrain::find_food(&terrain, 9, 9), None);
    assert!(!Terrain::has_food_sources(&terrain));
    let senses = sense(&ant(), &terrain, &vec![]);
    assert!(senses.on_food);
    assert_eq!(senses.passable, [false; 8]);
    assert_eq!(senses.home_trail, [0; 8]);

    assert_eq!(Terrain::find_food(&[0; 6], 0, 0), Some(false));
    assert_eq!(Terrain::find_food(&[0; 5], 0, 0), None);
    assert!(Terrain::has_food_sources(&[0; 6]));
    assert_eq!(Terrain::food_sources(&[0; 6]), vec![]);
}

#[test]
fn outside_the_grid_is_an_obstacle_on_any_terrain() {
    assert!(Terrain::is_obstacle(&[], 10, 10, -1, 0));
    assert!(Terrain::is_obstacle(&[], 10, 10, 0, 10));
    assert!(Terrain::is_obstacle(&[], 0, 0, 0, 0));
    let open = [2, 0, 1, 0, 0, 0, 0, 0, 0b10];
    assert!(!Terrain::is_obstacle(&open, 2, 1, 0, 0));
    assert!(Terrain::is_obstacle(&open, 2, 1, 1, 0));
}

use ant_simulation::colony::{
    food_contact, food_interactions, nest_contact, stuck_step, AntState, Colony, Food, FoodScore,
    PheromoneKind,
};
use ant_simulation::config::{
    idx, ANT_STUCK_THRESHOLD, CENTER_X, CENTER_Y, FOOD_PER_SOURCE, GRID_CELLS, GRID_W,
};
use ant_simulation::food::{
    food_candidates, food_source_cells, is_far_from_nest, pick_cluster_center, pick_respawn_cell,
    FoodOccupancy,
};

#[test]
fn ants_follow_the_trail_the_other_state_lays() {
    assert_eq!(AntState::Searching.follow_kind(), PheromoneKind::Food);
    assert_eq!(AntState::Returning.follow_kind(), PheromoneKind::Home);
    assert_eq!(AntState::Searching.deposit_kind(), PheromoneKind::Home);
    assert_eq!(AntState::Returning.deposit_kind(), PheromoneKind::Food);
    for s in [AntState::Searching, AntState::Returning] {
        assert_ne!(s.follow_kind(), s.deposit_kind());
    }
}

#[test]
fn food_source_runs_down_to_zero_and_reports_it_once() {
    let mut food = Food::new();
    assert_eq!(food.units, FOOD_PER_SOURCE);
    for _ in 0..FOOD_PER_SOURCE - 1 {
        assert!(!food.take_unit());
    }
    assert!(food.take_unit());
    assert_eq!(food.units, 0);
    assert!(!food.take_unit());
    assert_eq!(food.units, 0);
}

#[test]
fn searching_ant_takes_from_the_first_food_in_reach() {
    let foods = vec![Food::new(), Food::new(), Food::new()];
    let reach = vec![false, true, true];
    assert_eq!(food_contact(AntState::Searching, &reach, &foods), (AntState::Returning, Some(1)));
    assert_eq!(
        food_contact(AntState::Searching, &vec![false, false], &vec![Food::new(), Food::new()]),
        (AntState::Searching, None)
    );
    assert_eq!(food_contact(AntState::Searching, &vec![], &vec![]), (AntState::Searching, None));
}

#[test]
fn searching_ant_skips_empty_food_sources() {
    let foods = vec![Food { units: 0 }, Food { units: 2 }];
    assert_eq!(
        food_contact(AntState::Searching, &vec![true, true], &foods),
        (AntState::Returning, Some(1))
    );
    let empty = vec![Food { units: 0 }];
    assert_eq!(food_contact(AntState::Searching, &vec![true], &empty), (AntState::Searching, None));
}

#[test]
fn returning_ant_ignores_food() {
    assert_eq!(
        food_contact(AntState::Returning, &vec![true], &vec![Food::new()]),
        (AntState::Returning, None)
    );
}

#[test]
fn last_unit_goes_to_one_ant_and_the_source_empties_once() {
    let ants = vec![AntState::Searching, AntState::Searching, AntState::Returning];
    let reach = vec![vec![true], vec![true], vec![true]];
    let (states, foods, emptied) = food_interactions(ants, &reach, vec![Food { units: 1 }]);
    assert_eq!(states, vec![AntState::Returning, AntState::Searching, AntState::Returning]);
    assert_eq!(foods[0].units, 0);
    assert_eq!(emptied, vec![0]);
}

#[test]
fn units_taken_match_ants_that_turned_back() {
    let ants = vec![AntState::Searching; 5];
    let reach = vec![
        vec![true, false],
        vec![true, true],
        vec![false, true],
        vec![true, true],
        vec![false, false],
    ];
    let (states, foods, emptied) =
        food_interactions(ants, &reach, vec![Food { units: 2 }, Food { units: 3 }]);
    assert_eq!(
        states,
        vec![
            AntState::Returning,
            AntState::Returning,
            AntState::Returning,
            AntState::Returning,
            AntState::Searching
        ]
    );
    // Ants 0 and 1 empty source 0; ants 2 and 3 take from source 1.
    assert_eq!((foods[0].units, foods[1].units), (0, 1));
    assert_eq!(emptied, vec![0]);
    let taken = (2 + 3) - (foods[0].units + foods[1].units);
    let turned = states.iter().filter(|s| **s == AntState::Returning).count() as u32;
    assert_eq!(taken, turned);
}

#[test]
fn returning_ant_at_the_nest_scores_and_searches_again() {
    let mut score = FoodScore::new();
    assert_eq!(nest_contact(AntState::Returning, true, &mut score), AntState::Searching);
    assert_eq!(score.collected, 1);
    assert_eq!(nest_contact(AntState::Returning, false, &mut score), AntState::Returning);
    assert_eq!(nest_contact(AntState::Searching, true, &mut score), AntState::Searching);
    assert_eq!(score.collected, 1);
}

#[test]
fn colony_replaces_dead_ants_in_batches() {
    let mut colony = Colony::new(100);
    assert_eq!((colony.active, colony.pending_respawn, colony.total_died), (100, 0, 0));
    for _ in 0..30 {
        colony.record_death();
    }
    assert_eq!((colony.active, colony.pending_respawn, colony.total_died), (70, 30, 30));
    assert_eq!(colony.respawn_batch(20), 20);
    assert_eq!((colony.active, colony.pending_respawn), (90, 10));
    assert_eq!(colony.respawn_batch(20), 10);
    assert_eq!((colony.active, colony.pending_respawn), (100, 0));
    assert_eq!(colony.respawn_batch(20), 0);
    assert_eq!(colony.active + colony.pending_respawn, 100);
}

#[test]
fn colony_death_with_no_live_ants_does_not_underflow() {
    let mut colony = Colony::new(0);
    colony.record_death();
    assert_eq!((colony.active, colony.pending_respawn, colony.total_died), (0, 1, 1));
}

#[test]
fn far_from_nest_compares_squared_distances() {
    assert!(!is_far_from_nest(idx(CENTER_X, CENTER_Y)));
    assert!(!is_far_from_nest(idx(CENTER_X + 29, CENTER_Y)));
    assert!(is_far_from_nest(idx(CENTER_X + 30, CENTER_Y)));
    assert!(is_far_from_nest(idx(CENTER_X - 18, CENTER_Y + 24)));
    assert!(!is_far_from_nest(idx(CENTER_X - 18, CENTER_Y + 23)));
}

#[test]
fn food_candidates_keep_order_and_drop_near_cells() {
    let cells = vec![idx(0, 0), idx(CENTER_X, CENTER_Y), idx(10, 10), idx(CENTER_X + 1, CENTER_Y)];
    assert_eq!(food_candidates(&cells), vec![idx(0, 0), idx(10, 10)]);
}

#[test]
fn food_sources_fall_back_to_all_open_cells() {
    let near = vec![idx(CENTER_X, CENTER_Y), idx(CENTER_X + 1, CENTER_Y)];
    assert_eq!(food_source_cells(&near), near);
    let mixed = vec![idx(CENTER_X, CENTER_Y), idx(3, 4)];
    assert_eq!(food_source_cells(&mixed), vec![idx(3, 4)]);
}

#[test]
fn cluster_centres_come_from_the_source() {
    assert_eq!(pick_cluster_center(&vec![]), None);
    let source = vec![5, 9, 400];
    for _ in 0..50 {
        let c = pick_cluster_center(&source).unwrap();
        assert!(source.contains(&c));
    }
}

#[test]
fn respawned_food_lands_on_an_open_cell() {
    assert_eq!(pick_respawn_cell(&vec![]), None);
    let open = vec![idx(3, 4), idx(100, 200)];
    for _ in 0..50 {
        let (x, y) = pick_respawn_cell(&open).unwrap();
        assert!(x < GRID_W);
        assert!(open.contains(&idx(x, y)));
    }
}

#[test]
fn food_cells_are_claimed_once_and_never_in_walls() {
    let mut walls = vec![false; GRID_CELLS];
    walls[7] = true;
    let mut occ = FoodOccupancy::new();
    assert!(occ.try_claim(&walls, 5));
    assert!(!occ.try_claim(&walls, 5));
    assert!(!occ.try_claim(&walls, 7));
    assert!(occ.try_claim(&walls, 6));
    assert!(occ.occupied[5] && occ.occupied[6] && !occ.occupied[7]);
}

#[test]
fn blocked_ant_goes_home_on_the_threshold_frame() {
    let mut count = 0u8;
    for frame in 1..ANT_STUCK_THRESHOLD {
        let (next, to_nest) = stuck_step(count, true);
        assert_eq!((next, to_nest), (frame, false));
        count = next;
    }
    assert_eq!(stuck_step(count, true), (0, true));
    assert_eq!(stuck_step(7, false), (0, false));
    assert_eq!(stuck_step(u8::MAX, true), (0, true));
}

use neuralang::entity::Action;
use neuralang::genome::SumFxModel;
use neuralang::grid::Point;
use neuralang::perception::{Observation, SIGNAL_SENTINEL};
use neuralang::population::PopulationCheck;
use neuralang::world::World;
use std::cell::RefCell;

const U: i64 = 1_000;

fn small_world() -> World {
    World::with_grid(100, 10, 2)
}

fn add(w: &mut World, x: i64, y: i64, radius: i64, heading: Point, energy: i64) -> u64 {
    w.add_being(radius, Point { x, y }, heading, energy, vec![0; 10], SumFxModel::standard_model())
}

#[test]
fn head_on_contact_costs_the_charger_only() {
    let mut w = small_world();
    let a = add(&mut w, 50 * U, 50 * U, 750, Point { x: U, y: 0 }, 5 * U);
    let b = add(&mut w, 51 * U, 50 * U, 750, Point { x: U, y: 0 }, 5 * U);
    w.check_collisions(1);
    let sa = w.being_state(a).unwrap();
    let sb = w.being_state(b).unwrap();
    assert_eq!(sa.pos_update, Point { x: -333, y: 0 });
    assert_eq!(sb.pos_update, Point { x: 333, y: 0 });
    assert_eq!(sa.energy_update, -250);
    assert_eq!(sb.energy_update, 0);
}

#[test]
fn apart_beings_do_not_interact() {
    let mut w = small_world();
    let a = add(&mut w, 50 * U, 50 * U, 750, Point { x: U, y: 0 }, 5 * U);
    let b = add(&mut w, 53 * U, 50 * U, 750, Point { x: -U, y: 0 }, 5 * U);
    w.check_collisions(1);
    assert_eq!(w.being_state(a).unwrap().pos_update, Point { x: 0, y: 0 });
    assert_eq!(w.being_state(b).unwrap().energy_update, 0);
}

#[test]
fn food_touched_below_cap_is_eaten_once() {
    let mut w = small_world();
    let a = add(&mut w, 50 * U, 50 * U, 3_500, Point { x: U, y: 0 }, 5 * U);
    let f = w.add_food(Point { x: 52 * U, y: 50 * U }, 2 * U, false);
    w.check_collisions(1);
    assert_eq!(w.being_state(a).unwrap().energy_update, 2 * U);
    assert!(w.food_state(f).unwrap().eaten);
    assert!(w.food_queued(f));
    w.update_cells();
    assert_eq!(w.being_state(a).unwrap().energy, 7 * U);
    assert_eq!(w.being_state(a).unwrap().energy_update, 0);
    w.check_collisions(1);
    assert_eq!(w.being_state(a).unwrap().energy_update, 0);
    w.age_foods();
    assert!(w.food_state(f).is_none());
    assert!(!w.food_queued(f));
}

#[test]
fn food_is_not_eaten_above_the_starting_energy() {
    let mut w = small_world();
    let a = add(&mut w, 50 * U, 50 * U, 3_500, Point { x: U, y: 0 }, 20 * U);
    let f = w.add_food(Point { x: 52 * U, y: 50 * U }, 2 * U, false);
    w.check_collisions(1);
    assert_eq!(w.being_state(a).unwrap().energy_update, 0);
    assert!(!w.food_state(f).unwrap().eaten);
}

#[test]
fn first_toucher_wins_the_food() {
    let mut w = small_world();
    let a = add(&mut w, 50 * U, 50 * U, 3_500, Point { x: U, y: 0 }, 5 * U);
    let b = add(&mut w, 54 * U, 50 * U, 3_500, Point { x: -U, y: 0 }, 5 * U);
    w.add_food(Point { x: 52 * U, y: 50 * U }, 2 * U, false);
    w.check_collisions(1);
    let gain_a = w.being_state(a).unwrap().energy_update;
    let gain_b = w.being_state(b).unwrap().energy_update;
    let food_gain = [gain_a, gain_b].iter().filter(|g| **g >= U).count();
    assert_eq!(food_gain, 1);
}

#[test]
fn movement_follows_heading_and_commit_moves() {
    let mut w = small_world();
    let a = add(&mut w, 50 * U, 50 * U, 3_500, Point { x: U, y: 0 }, 10 * U);
    w.perform_being_outputs(&|_m: &SumFxModel, _o: Observation| Action {
        thrust: U,
        turn: 0,
        turn_cos: U,
        turn_sin: 0,
        spawn_obstruct: false,
        speak: false,
        payload: vec![0; 8],
    });
    w.move_beings(1);
    let s = w.being_state(a).unwrap();
    assert_eq!(s.pos_update, Point { x: 500, y: 0 });
    assert_eq!(s.energy_update, -10);
    w.update_cells();
    let s = w.being_state(a).unwrap();
    assert_eq!(s.pos, Point { x: 50_500, y: 50_000 });
    assert_eq!(s.energy, 10 * U - 10);
}

#[test]
fn moving_across_a_cell_boundary_updates_the_cell() {
    let mut w = small_world();
    let a = add(&mut w, 59_800, 50 * U, 500, Point { x: U, y: 0 }, 10 * U);
    assert_eq!(w.being_state(a).unwrap().cell_i, 5);
    w.perform_being_outputs(&|_m: &SumFxModel, _o: Observation| Action {
        thrust: U,
        turn: 0,
        turn_cos: U,
        turn_sin: 0,
        spawn_obstruct: false,
        speak: false,
        payload: vec![0; 8],
    });
    w.move_beings(1);
    w.update_cells();
    let s = w.being_state(a).unwrap();
    assert_eq!(s.pos.x, 60_300);
    assert_eq!((s.cell_i, s.cell_j), (6, 5));
}

#[test]
fn wall_bounces_back_with_a_penalty() {
    let mut w = small_world();
    let a = add(&mut w, 95_000, 50 * U, 3_500, Point { x: U, y: 0 }, 10 * U);
    w.perform_being_outputs(&|_m: &SumFxModel, _o: Observation| Action {
        thrust: U,
        turn: 0,
        turn_cos: U,
        turn_sin: 0,
        spawn_obstruct: false,
        speak: false,
        payload: vec![0; 8],
    });
    w.move_beings(1);
    let s = w.being_state(a).unwrap();
    assert_eq!(s.pos_update, Point { x: -1_500, y: 0 });
    assert_eq!(s.energy_update, -250);
}

#[test]
fn observations_end_with_sentinel_rows() {
    let mut w = small_world();
    add(&mut w, 50 * U, 50 * U, 750, Point { x: U, y: 0 }, 5 * U);
    add(&mut w, 51 * U, 50 * U, 750, Point { x: U, y: 0 }, 5 * U);
    w.check_collisions(1);
    let seen = RefCell::new(Vec::new());
    w.perform_being_outputs(&|_m: &SumFxModel, o: Observation| {
        seen.borrow_mut().push((o.beings.len(), o.things.len(), o.signals.len(), o.own.len()));
        assert_eq!(o.beings.last().unwrap(), &vec![-1_000; 14]);
        assert_eq!(o.things.last().unwrap(), &vec![-1_000; 5]);
        assert_eq!(o.signals.last().unwrap(), &vec![SIGNAL_SENTINEL; 8]);
        Action::idle()
    });
    assert_eq!(seen.borrow().clone(), vec![(2, 1, 1, 5), (2, 1, 1, 5)]);
    let again = RefCell::new(Vec::new());
    w.perform_being_outputs(&|_m: &SumFxModel, o: Observation| {
        again.borrow_mut().push(o.beings.len());
        Action::idle()
    });
    assert_eq!(again.borrow().clone(), vec![1, 1]);
}

#[test]
fn signals_are_heard_once() {
    let mut w = small_world();
    add(&mut w, 50 * U, 50 * U, 3_500, Point { x: U, y: 0 }, 5 * U);
    w.add_speechlet(vec![7; 8], Point { x: 51 * U, y: 50 * U });
    w.check_collisions(1);
    w.check_collisions(1);
    let seen = RefCell::new(0);
    w.perform_being_outputs(&|_m: &SumFxModel, o: Observation| {
        *seen.borrow_mut() = o.signals.len();
        assert_eq!(o.signals[0], vec![7; 8]);
        Action::idle()
    });
    assert_eq!(*seen.borrow(), 2);
}

#[test]
fn speaking_and_building_cost_energy_and_spawn() {
    let mut w = small_world();
    let a = add(&mut w, 50 * U, 50 * U, 3_500, Point { x: U, y: 0 }, 10 * U);
    w.perform_being_outputs(&|_m: &SumFxModel, _o: Observation| Action {
        thrust: 0,
        turn: 0,
        turn_cos: U,
        turn_sin: 0,
        spawn_obstruct: true,
        speak: true,
        payload: vec![1, 2, 3],
    });
    assert_eq!(w.being_state(a).unwrap().energy_update, -1_500);
    assert_eq!(w.n_obstructs(), 1);
    assert_eq!(w.n_speechlets(), 1);
    assert_eq!(w.obstruct_states()[0].0, Point { x: 52 * U, y: 50 * U });
}

#[test]
fn exhausted_beings_die() {
    let mut w = small_world();
    let a = add(&mut w, 50 * U, 50 * U, 3_500, Point { x: U, y: 0 }, 5);
    let b = add(&mut w, 20 * U, 20 * U, 3_500, Point { x: U, y: 0 }, 5 * U);
    w.tire_beings();
    assert!(w.being_state(a).is_none());
    assert_eq!(w.being_state(b).unwrap().energy, 5 * U - 10);
    assert_eq!(w.n_beings(), 1);
    assert!(w.n_foods() <= 100);
}

#[test]
fn obstacles_and_signals_age() {
    let mut w = small_world();
    w.add_obstruct(Point { x: 50 * U, y: 50 * U });
    w.add_speechlet(vec![0; 8], Point { x: 30 * U, y: 30 * U });
    w.age_obstructs();
    assert_eq!(w.obstruct_states()[0].1, 25_000 - 1);
    w.grow_speechlets();
    w.soften_speechlets();
    assert_eq!(w.speechlet_states()[0], (Point { x: 30 * U, y: 30 * U }, 3_000, 4_900));
    for _ in 0..49 {
        w.soften_speechlets();
    }
    assert_eq!(w.n_speechlets(), 0);
}

#[test]
fn ambient_food_is_topped_up() {
    let mut w = small_world();
    w.repop_foods();
    assert_eq!(w.n_foods(), 1);
}

#[test]
fn standard_world_is_populated() {
    let w = World::standard_world();
    assert_eq!(w.n_beings(), 100);
    assert_eq!(w.n_foods(), 750);
    assert_eq!(w.n_obstructs(), 0);
}

#[test]
fn population_check_is_stable_above_threshold() {
    let mut w = small_world();
    for i in 0..40 {
        add(&mut w, (10 + i) * U, 50 * U, 500, Point { x: U, y: 0 }, 5 * U);
    }
    assert_eq!(w.reworld(), PopulationCheck::Stable);
    assert_eq!(w.n_beings(), 40);
    assert_eq!(w.generation, 0);
}

#[test]
fn population_check_breeds_to_the_starting_count() {
    let mut w = small_world();
    for i in 0..3 {
        add(&mut w, (10 + i * 10) * U, 50 * U, 500, Point { x: U, y: 0 }, 5 * U);
    }
    assert_eq!(w.reworld(), PopulationCheck::Reworlded);
    assert_eq!(w.n_beings(), 100);
    assert_eq!(w.last_survivors.len(), 3);
    assert_eq!(w.generation, 1);
    assert_eq!(w.age, 0);
    assert_eq!(w.max_food, 745);
    assert_eq!(w.n_foods(), 745);
}

#[test]
fn population_check_falls_back_to_stored_survivors() {
    let mut w = small_world();
    w.last_survivors = vec![SumFxModel::standard_model(), SumFxModel::standard_model()];
    assert_eq!(w.reworld(), PopulationCheck::Reworlded);
    assert_eq!(w.n_beings(), 100);
    assert_eq!(w.last_survivors.len(), 2);
}

#[test]
fn population_check_reports_total_extinction() {
    let mut w = small_world();
    assert_eq!(w.reworld(), PopulationCheck::Extinct);
    assert_eq!(w.n_beings(), 0);
    assert_eq!(w.generation, 0);
}

#[test]
fn a_full_tick_runs() {
    let mut w = World::standard_world();
    let r = w.step(1, &|_m: &SumFxModel, _o: Observation| Action::idle());
    assert_eq!(r, PopulationCheck::Stable);
    assert_eq!(w.age, 1);
    assert_eq!(w.n_beings(), 100);
}

#[test]
fn cells_follow_positions_over_ticks() {
    let mut w = World::standard_world();
    let controller = |_m: &SumFxModel, _o: Observation| Action {
        thrust: U,
        turn: 100,
        turn_cos: 951,
        turn_sin: 309,
        spawn_obstruct: false,
        speak: false,
        payload: vec![0; 8],
    };
    for _ in 0..5 {
        w.step(2, &controller);
    }
    for k in w.being_keys() {
        let s = w.being_state(k).unwrap();
        assert_eq!((s.cell_i as i64, s.cell_j as i64), (s.pos.x / 5_000, s.pos.y / 5_000));
    }
    for k in w.food_keys() {
        let f = w.food_state(k).unwrap();
        assert_eq!((f.cell_i as i64, f.cell_j as i64), (f.pos.x / 5_000, f.pos.y / 5_000));
        assert!(!f.eaten);
    }
}

#[test]
fn food_target_shrinks_down_to_its_floor() {
    let mut w = small_world();
    w.max_food = 27;
    for i in 0..3 {
        add(&mut w, (10 + i * 10) * U, 50 * U, 500, Point { x: U, y: 0 }, 5 * U);
    }
    assert_eq!(w.reworld(), PopulationCheck::Reworlded);
    assert_eq!(w.max_food, 25);
    assert_eq!(w.n_foods(), 25);
    assert_eq!(w.being_id, 100);
    assert_eq!(w.food_id, 25);
}

#[test]
fn scatter_one_adds_flesh_only_inside_the_disc() {
    let mut w = small_world();
    let p = Point { x: 50 * U, y: 50 * U };
    let k = w.scatter_one(p, 3_000, 4_000).unwrap();
    let f = w.food_state(k).unwrap();
    assert_eq!(f.pos, Point { x: 53 * U, y: 54 * U });
    assert!(f.is_flesh && !f.eaten);
    assert_eq!(f.val, 50);
    assert!(w.scatter_one(p, 10_000, 10_000).is_none());
    assert!(w.scatter_one(Point { x: 2 * U, y: 50 * U }, -1_000, 0).is_none());
    assert_eq!(w.n_foods(), 1);
}

#[test]
fn ambient_food_is_counted_and_topped_up_below_the_target() {
    let mut w = small_world();
    w.add_food(Point { x: 10 * U, y: 10 * U }, 2 * U, false);
    w.add_food(Point { x: 20 * U, y: 10 * U }, 50, true);
    assert_eq!(w.count_ambient(), 1);
    w.max_food = 1;
    w.repop_foods();
    assert_eq!(w.n_foods(), 2);
    w.max_food = 2;
    w.repop_foods();
    assert_eq!(w.n_foods(), 3);
    assert_eq!(w.count_ambient(), 2);
}

#[test]
fn a_tick_leaves_no_eaten_food_and_advances_age() {
    let mut w = small_world();
    for i in 0..40 {
        add(&mut w, (10 + i * 2) * U, 50 * U, 500, Point { x: U, y: 0 }, 5 * U);
    }
    let f = w.add_food(Point { x: 10 * U, y: 50 * U }, 2 * U, false);
    let r = w.step(3, &|_m: &SumFxModel, _o: Observation| Action::idle());
    assert_eq!(r, PopulationCheck::Stable);
    assert!(w.food_state(f).is_none());
    assert_eq!(w.age, 1);
    for k in w.food_keys() {
        assert!(!w.food_state(k).unwrap().eaten);
    }
}

#[test]
fn the_turn_is_applied_at_commit() {
    let mut w = small_world();
    let a = add(&mut w, 50 * U, 50 * U, 3_500, Point { x: U, y: 0 }, 10 * U);
    w.perform_being_outputs(&|_m: &SumFxModel, _o: Observation| Action {
        thrust: 0,
        turn: 500,
        turn_cos: 0,
        turn_sin: U,
        spawn_obstruct: false,
        speak: false,
        payload: vec![0; 8],
    });
    assert_eq!(w.being_state(a).unwrap().heading, Point { x: U, y: 0 });
    w.update_cells();
    assert_eq!(w.being_state(a).unwrap().heading, Point { x: 0, y: U });
    w.update_cells();
    assert_eq!(w.being_state(a).unwrap().heading, Point { x: 0, y: U });
}

#[test]
fn food_is_not_eaten_at_exactly_the_starting_energy() {
    let mut w = small_world();
    let a = add(&mut w, 50 * U, 50 * U, 3_500, Point { x: U, y: 0 }, 10 * U);
    let f = w.add_food(Point { x: 52 * U, y: 50 * U }, 2 * U, false);
    w.check_collisions(1);
    assert_eq!(w.being_state(a).unwrap().energy_update, 0);
    assert!(!w.food_state(f).unwrap().eaten);
}

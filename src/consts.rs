//! The arena's standard configuration. Lengths, energies, ages and values are
//! fixed-point counts of `UNIT` sub-units per arena unit.
use vstd::prelude::*;

verus! {

/// Side of the arena, in arena units.
pub const W_SIZE: i64 = 625;
/// Cells along one side of the grid.
pub const N_CELLS: usize = 125;

/// Beings in a fresh population.
pub const B_START_COUNT: usize = 100;
/// Below this many living beings a new generation is bred.
pub const REWORLDING_THRESHOLD: usize = 40;

/// Field-of-view radius, in cells.
pub const B_FOV: i64 = 10;
/// Field-of-view radius, in sub-units.
pub const B_FOV_LEN: i64 = 50_000;
/// Distance covered per tick at full thrust and full energy.
pub const B_SPEED: i64 = 500;
pub const B_RADIUS: i64 = 3_500;
pub const O_RADIUS: i64 = 3_500;
pub const F_RADIUS: i64 = 3_500;
pub const S_RADIUS: i64 = 1_500;

/// Length of a being's trait vector.
pub const GENOME_LEN: usize = 10;

pub const B_START_ENERGY: i64 = 10_000;
pub const O_START_HEALTH: i64 = 25_000;
pub const S_START_AGE: i64 = 5_000;
pub const F_VAL: i64 = 2_000;
/// Value of each food item scattered where a being died.
pub const FLESH_VAL: i64 = 50;
/// Food items scattered where a being died.
pub const B_SCATTER_COUNT: usize = 100;
/// Radius of the ring in which they are scattered.
pub const B_SCATTER_RADIUS: i64 = 10_000;

pub const B_TIRE_RATE: i64 = 10;
pub const B_MOVE_TIRE_RATE: i64 = 10;
pub const B_ROT_TIRE_RATE: i64 = 10;
pub const O_AGE_RATE: i64 = 1;
pub const F_ROT_RATE: i64 = 2;
pub const S_SOFTEN_RATE: i64 = 100;
/// Obstacles whose age falls below this are removed.
pub const O_DEATH_AGE: i64 = 50;

/// Energy lost per unit of heading alignment when running into a being.
pub const B_HEADON_DAMAGE: i64 = 250;
/// Energy lost per unit of heading alignment when running into an obstacle.
pub const HEADON_B_HITS_O_DAMAGE: i64 = 100;
/// Energy spent to place an obstacle.
pub const SPAWN_O_COST: i64 = 1_000;
/// Energy spent to emit a signal.
pub const SPAWN_S_COST: i64 = 500;
/// Energy lost when bouncing off the arena's wall.
pub const OOB_PENALTY: i64 = 250;
/// Length of the step taken back from the wall.
pub const BOUNCE_LEN: i64 = 1_500;

/// Ambient food items added per tick, at most.
pub const N_FOOD_SPAWN_PER_STEP: usize = 1;
/// Initial ambient food target.
pub const MAX_FOOD: usize = 750;
/// Floor of the ambient food target.
pub const MIN_FOOD: usize = 25;
/// Decrease of the ambient food target at each new generation.
pub const MAX_FOOD_REDUCTION: usize = 5;

/// Length of a signal's payload.
pub const SPEECHLET_LEN: usize = 8;
/// Length of a being's action vector: thrust, turn, place obstacle, emit
/// signal, then the payload.
pub const B_OUTPUT_LEN: usize = 4 + SPEECHLET_LEN;

/// Width of a peer row: bearing (sine, cosine), distance, relative energy,
/// then the peer's trait vector.
pub const BEING_ROW_LEN: usize = 4 + GENOME_LEN;
/// Width of a food or obstacle row: kind, bearing (sine, cosine), distance,
/// kind-specific value.
pub const THING_ROW_LEN: usize = 5;
/// Width of the being's own feature row: wall distance and side along x and
/// along y, and relative energy.
pub const SELF_ROW_LEN: usize = 5;
/// Value that fills a sentinel row.
pub const SENTINEL: i64 = -1_000;

/// Splice weight used when breeding (in parts of `WEIGHT_ONE`).
pub const CROSSOVER_WEIGHT: u32 = 50_000;
/// Mutation rate used when breeding (in parts of `WEIGHT_ONE`).
pub const MUTATION_RATE: u32 = 50_000;

} // verus!

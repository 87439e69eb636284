//! The four kinds of entity that live in the arena.
use crate::consts::{BEING_ROW_LEN, GENOME_LEN, SPEECHLET_LEN, THING_ROW_LEN};
use crate::genome::SumFxModel;
use crate::geometry::{unit_box, MAX_COORD, MAX_RADIUS};
use crate::grid::{Point, UNIT};
use vstd::prelude::*;

verus! {

/// What a being's controller decided at its last perception: thrust and turn
/// in `[-UNIT, UNIT]` (the turn as a fraction of a half-turn, with its cosine
/// and sine in sub-units), whether to place an obstacle or emit a signal, and
/// the signal's payload (32-bit float patterns).
pub struct Action {
    pub thrust: i64,
    pub turn: i64,
    pub turn_cos: i64,
    pub turn_sin: i64,
    pub spawn_obstruct: bool,
    pub speak: bool,
    pub payload: Vec<u32>,
}

/// An autonomous agent: its heading is a vector of length about `UNIT`;
/// `pos_update` and `energy_update` accumulate the effects of one tick until
/// they are committed, with the turn of the last action; the three input buffers hold the observation rows of
/// the current tick.
pub struct Being {
    pub radius: i64,
    pub heading: Point,
    pub energy: i64,
    pub genome: Vec<i64>,
    pub id: u64,
    pub pos_update: Point,
    pub energy_update: i64,
    pub being_inputs: Vec<Vec<i64>>,
    pub food_obstruct_inputs: Vec<Vec<i64>>,
    pub speechlet_inputs: Vec<Vec<u32>>,
    pub output: Action,
    /// The last action's turn awaits the next commit.
    pub turn_pending: bool,
    pub model: SumFxModel,
}

/// An obstacle, removed once its age decays below a threshold.
pub struct Obstruct {
    pub age: i64,
    pub id: u64,
}

/// A food item; `eaten` turns true once, when a being consumes it.
pub struct Food {
    pub val: i64,
    pub eaten: bool,
    pub is_flesh: bool,
    pub id: u64,
}

/// A signal: its payload, a radius that grows while its age decays, and the
/// beings that have already heard it.
pub struct Speechlet {
    pub speechlet: Vec<u32>,
    pub radius: i64,
    pub age: i64,
    pub recepient_being_ids: Vec<u64>,
}

/// What distinguishes the kinds.
pub enum Kind {
    Being(Being),
    Obstruct(Obstruct),
    Food(Food),
    Speechlet(Speechlet),
}

/// An entity of the arena: its position, the cell it is recorded in, and
/// its kind.
pub struct Entity {
    pub pos: Point,
    pub cell: (usize, usize),
    pub kind: Kind,
}

/// Bound on energies, food values and ages.
pub const VALUE_CAP: i64 = 1_000_000_000_000;

impl Action {
    pub open spec fn wf(&self) -> bool {
        &&& -UNIT <= self.thrust <= UNIT
        &&& -UNIT <= self.turn <= UNIT
        &&& -UNIT <= self.turn_cos <= UNIT
        &&& -UNIT <= self.turn_sin <= UNIT
        &&& self.payload.len() == SPEECHLET_LEN
    }

    /// No thrust, no turn, no obstacle, no signal.
    pub fn idle() -> (r: Action)
        ensures
            r.wf(),
            r.thrust == 0,
            r.turn == 0,
            !r.spawn_obstruct,
            !r.speak,
    {
        let mut payload: Vec<u32> = Vec::new();
        let mut i: usize = 0;
        while i < SPEECHLET_LEN
            invariant
                i <= SPEECHLET_LEN,
                payload.len() == i,
            decreases SPEECHLET_LEN - i,
        {
            payload.push(0);
            i = i + 1;
        }
        Action { thrust: 0, turn: 0, turn_cos: UNIT, turn_sin: 0, spawn_obstruct: false, speak: false, payload }
    }
}

impl Being {
    pub open spec fn wf(&self) -> bool {
        &&& self.model.is_standard()
        &&& 0 <= self.radius <= MAX_RADIUS
        &&& unit_box(self.heading)
        &&& -VALUE_CAP <= self.energy <= VALUE_CAP
        &&& -VALUE_CAP <= self.energy_update <= VALUE_CAP
        &&& -MAX_COORD <= self.pos_update.x <= MAX_COORD
        &&& -MAX_COORD <= self.pos_update.y <= MAX_COORD
        &&& self.genome.len() == GENOME_LEN
        &&& self.output.wf()
        &&& forall|i: int| 0 <= i < self.being_inputs.len() ==> (#[trigger] self.being_inputs[i]).len() == BEING_ROW_LEN
        &&& forall|i: int|
            0 <= i < self.food_obstruct_inputs.len() ==> (#[trigger] self.food_obstruct_inputs[i]).len() == THING_ROW_LEN
        &&& forall|i: int|
            0 <= i < self.speechlet_inputs.len() ==> (#[trigger] self.speechlet_inputs[i]).len() == SPEECHLET_LEN
    }
}

/// A well-formed being.
pub open spec fn being_ok(e: Entity) -> bool {
    match e.kind {
        Kind::Being(b) => b.wf(),
        _ => false,
    }
}

/// An obstacle of bounded age.
pub open spec fn obstruct_ok(e: Entity) -> bool {
    match e.kind {
        Kind::Obstruct(o) => -VALUE_CAP <= o.age <= VALUE_CAP,
        _ => false,
    }
}

/// A food item that has been eaten.
pub open spec fn is_eaten(e: Entity) -> bool {
    match e.kind {
        Kind::Food(f) => f.eaten,
        _ => false,
    }
}

/// A food item of bounded value.
pub open spec fn food_ok(e: Entity) -> bool {
    match e.kind {
        Kind::Food(f) => -VALUE_CAP <= f.val <= VALUE_CAP,
        _ => false,
    }
}

/// A signal of bounded radius and age, with a full payload.
pub open spec fn speechlet_ok(e: Entity) -> bool {
    match e.kind {
        Kind::Speechlet(s) => 0 <= s.radius <= MAX_RADIUS && -VALUE_CAP <= s.age <= VALUE_CAP
            && s.speechlet.len() == SPEECHLET_LEN,
        _ => false,
    }
}

} // verus!

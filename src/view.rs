//! Read-only views of the world, for renderers and callers.
use crate::entity::{Entity, Kind};
use crate::grid::Point;
use crate::world::World;
use vstd::prelude::*;

verus! {

/// What can be seen of a being.
#[derive(Clone, Copy, Debug, PartialEq, Eq, Structural)]
pub struct BeingState {
    pub pos: Point,
    pub cell_i: usize,
    pub cell_j: usize,
    pub heading: Point,
    pub radius: i64,
    pub energy: i64,
    pub pos_update: Point,
    pub energy_update: i64,
}

/// What can be seen of a food item.
#[derive(Clone, Copy, Debug, PartialEq, Eq, Structural)]
pub struct FoodState {
    pub pos: Point,
    pub cell_i: usize,
    pub cell_j: usize,
    pub val: i64,
    pub eaten: bool,
    pub is_flesh: bool,
}

/// The view of a being entity.
pub open spec fn being_state_of(e: Entity) -> Option<BeingState> {
    match e.kind {
        Kind::Being(b) => Some(BeingState {
            pos: e.pos,
            cell_i: e.cell.0,
            cell_j: e.cell.1,
            heading: b.heading,
            radius: b.radius,
            energy: b.energy,
            pos_update: b.pos_update,
            energy_update: b.energy_update,
        }),
        _ => None,
    }
}

/// The view of a food entity.
pub open spec fn food_state_of(e: Entity) -> Option<FoodState> {
    match e.kind {
        Kind::Food(f) => Some(FoodState { pos: e.pos, cell_i: e.cell.0,
            cell_j: e.cell.1, val: f.val, eaten: f.eaten, is_flesh: f.is_flesh }),
        _ => None,
    }
}

impl World {
    /// The being under a key, if any.
    pub fn being_state(&self, k: u64) -> (r: Option<BeingState>)
        ensures
            r == (if self.beings_and_models.items().contains_key(k) {
                being_state_of(self.beings_and_models.items()[k])
            } else {
                None
            }),
    {
        if !self.beings_and_models.contains(k) {
            return None;
        }
        let e = self.beings_and_models.get(k);
        match &e.kind {
            Kind::Being(b) => Some(BeingState {
                pos: e.pos,
                cell_i: e.cell.0,
            cell_j: e.cell.1,
                heading: b.heading,
                radius: b.radius,
                energy: b.energy,
                pos_update: b.pos_update,
                energy_update: b.energy_update,
            }),
            _ => None,
        }
    }

    /// The food item under a key, if any.
    pub fn food_state(&self, k: u64) -> (r: Option<FoodState>)
        ensures
            r == (if self.foods.items().contains_key(k) {
                food_state_of(self.foods.items()[k])
            } else {
                None
            }),
    {
        if !self.foods.contains(k) {
            return None;
        }
        let e = self.foods.get(k);
        match &e.kind {
            Kind::Food(f) => Some(FoodState { pos: e.pos, cell_i: e.cell.0,
            cell_j: e.cell.1, val: f.val, eaten: f.eaten, is_flesh: f.is_flesh }),
            _ => None,
        }
    }

    /// Whether a food item is queued for removal at the end of the tick.
    pub fn food_queued(&self, k: u64) -> (r: bool)
        ensures
            r == self.food_deaths@.contains(k),
    {
        crate::tick::holds_id(&self.food_deaths, k)
    }

    /// The keys of the living beings.
    pub fn being_keys(&self) -> (r: Vec<u64>)
        ensures
            r@.no_duplicates(),
            forall|k: u64| r@.contains(k) <==> self.beings_and_models.items().contains_key(k),
    {
        self.beings_and_models.keys()
    }

    /// The keys of the food items.
    pub fn food_keys(&self) -> (r: Vec<u64>)
        ensures
            r@.no_duplicates(),
            forall|k: u64| r@.contains(k) <==> self.foods.items().contains_key(k),
    {
        self.foods.keys()
    }

    /// The keys of the obstacles.
    pub fn obstruct_keys(&self) -> (r: Vec<u64>)
        ensures
            r@.no_duplicates(),
            forall|k: u64| r@.contains(k) <==> self.obstructs.items().contains_key(k),
    {
        self.obstructs.keys()
    }

    /// The keys of the signals.
    pub fn speechlet_keys(&self) -> (r: Vec<u64>)
        ensures
            r@.no_duplicates(),
            forall|k: u64| r@.contains(k) <==> self.speechlets.items().contains_key(k),
    {
        self.speechlets.keys()
    }

    /// The position of each obstacle, with its age.
    pub fn obstruct_states(&self) -> (r: Vec<(Point, i64)>)
        ensures
            r.len() == self.obstructs.items().len(),
    {
        let keys = self.obstructs.keys();
        let mut r: Vec<(Point, i64)> = Vec::new();
        let mut i: usize = 0;
        while i < keys.len()
            invariant
                i <= keys.len(),
                r.len() == i,
                forall|k: u64| keys@.contains(k) <==> self.obstructs.items().contains_key(k),
            decreases keys.len() - i,
        {
            let k = keys[i];
            assert(keys@.contains(k));
            let e = self.obstructs.get(k);
            match &e.kind {
                Kind::Obstruct(o) => r.push((e.pos, o.age)),
                _ => r.push((e.pos, 0)),
            }
            i = i + 1;
        }
        r
    }

    /// The position of each signal, with its radius and age.
    pub fn speechlet_states(&self) -> (r: Vec<(Point, i64, i64)>)
        ensures
            r.len() == self.speechlets.items().len(),
    {
        let keys = self.speechlets.keys();
        let mut r: Vec<(Point, i64, i64)> = Vec::new();
        let mut i: usize = 0;
        while i < keys.len()
            invariant
                i <= keys.len(),
                r.len() == i,
                forall|k: u64| keys@.contains(k) <==> self.speechlets.items().contains_key(k),
            decreases keys.len() - i,
        {
            let k = keys[i];
            assert(keys@.contains(k));
            let e = self.speechlets.get(k);
            match &e.kind {
                Kind::Speechlet(s) => r.push((e.pos, s.radius, s.age)),
                _ => r.push((e.pos, 0, 0)),
            }
            i = i + 1;
        }
        r
    }

    /// Number of living beings.
    pub fn n_beings(&self) -> (r: usize)
        requires
            self.wf(),
        ensures
            r == self.beings_and_models.items().len(),
    {
        self.beings_and_models.len()
    }

    /// Number of food items.
    pub fn n_foods(&self) -> (r: usize)
        requires
            self.wf(),
        ensures
            r == self.foods.items().len(),
    {
        self.foods.len()
    }

    /// Number of obstacles.
    pub fn n_obstructs(&self) -> (r: usize)
        requires
            self.wf(),
        ensures
            r == self.obstructs.items().len(),
    {
        self.obstructs.len()
    }

    /// Number of signals.
    pub fn n_speechlets(&self) -> (r: usize)
        requires
            self.wf(),
        ensures
            r == self.speechlets.items().len(),
    {
        self.speechlets.len()
    }

    /// The genome of the being under a key, copied.
    pub fn genome_of(&self, k: u64) -> (r: Option<crate::genome::SumFxModel>)
        requires
            self.wf(),
        ensures
            r.is_some() == self.beings_and_models.items().contains_key(k),
            r matches Some(m) ==> m.is_standard(),
    {
        if !self.beings_and_models.contains(k) {
            return None;
        }
        assert(crate::entity::being_ok(self.beings_and_models.items()[k]));
        match &self.beings_and_models.get(k).kind {
            Kind::Being(b) => Some(b.model.duplicate()),
            _ => None,
        }
    }
} // impl World

} // verus!

//! The world: four entity stores over one grid, with the counters, queues
//! and stored genomes that the tick pipeline works on.
use crate::consts::{
    B_FOV, GENOME_LEN, MAX_FOOD, REWORLDING_THRESHOLD, N_CELLS, O_START_HEALTH, SPEECHLET_LEN, S_RADIUS, S_START_AGE, W_SIZE,
};
use crate::entity::{
    being_ok, food_ok, is_eaten, obstruct_ok, speechlet_ok, Action, Being, Entity, Food, Kind, Obstruct, Speechlet,
    VALUE_CAP,
};
use crate::genome::SumFxModel;
use crate::geometry::{unit_box, MAX_RADIUS};
use crate::grid::{cell_at, Grid, Point, UNIT};
use crate::store::{Store, MAX_ENTITIES};
use vstd::prelude::*;

verus! {

/// The arena and everything in it.
pub struct World {
    pub grid: Grid,
    pub beings_and_models: Store,
    pub obstructs: Store,
    pub foods: Store,
    pub speechlets: Store,
    pub being_id: u64,
    pub ob_id: u64,
    pub food_id: u64,
    /// Food eaten during the current tick, to be removed at its end.
    pub food_deaths: Vec<u64>,
    pub age: u64,
    pub generation: u64,
    /// The genomes of the last generation's survivors.
    pub last_survivors: Vec<SumFxModel>,
    /// Target count of ambient food; it shrinks with every generation.
    pub max_food: usize,
}

/// A store all of whose entities satisfy `ok`.
pub open spec fn all_ok(s: Store, ok: spec_fn(Entity) -> bool) -> bool {
    forall|k: u64| #[trigger] s.items().contains_key(k) ==> ok(s.items()[k])
}

impl World {
    pub open spec fn wf(&self) -> bool {
        &&& self.grid.wf()
        &&& self.beings_and_models.wf(&self.grid)
        &&& self.obstructs.wf(&self.grid)
        &&& self.foods.wf(&self.grid)
        &&& self.speechlets.wf(&self.grid)
        &&& all_ok(self.beings_and_models, |e: Entity| being_ok(e))
        &&& all_ok(self.obstructs, |e: Entity| obstruct_ok(e))
        &&& all_ok(self.foods, |e: Entity| food_ok(e))
        &&& all_ok(self.speechlets, |e: Entity| speechlet_ok(e))
        &&& self.food_deaths@.no_duplicates()
        &&& forall|i: int| 0 <= i < self.food_deaths.len() ==> {
            let k = #[trigger] self.food_deaths@[i];
            &&& self.foods.items().contains_key(k)
            &&& self.foods.items()[k].kind matches Kind::Food(f) && f.eaten
        }
        &&& forall|k: u64| #[trigger] self.foods.items().contains_key(k) && is_eaten(self.foods.items()[k])
            ==> self.food_deaths@.contains(k)
        &&& forall|i: int| 0 <= i < self.last_survivors.len() ==> (#[trigger] self.last_survivors@[i]).is_standard()
        &&& self.last_survivors.len() < REWORLDING_THRESHOLD
        &&& self.max_food <= MAX_FOOD
    }

    /// Length of the arena's side, in sub-units.
    pub open spec fn side(&self) -> int {
        self.grid.side()
    }

    /// An empty world over an arena of side `side` (arena units) cut into
    /// `n_cells` × `n_cells` cells, with a field of view of `view_radius`
    /// cells. The cell count must divide the side.
    pub fn with_grid(side: i64, n_cells: usize, view_radius: i64) -> (r: World)
        requires
            0 < n_cells <= crate::grid::MAX_CELLS,
            0 < side <= crate::grid::MAX_SIDE,
            side % (n_cells as i64) == 0,
            0 <= view_radius <= crate::grid::MAX_VIEW,
        ensures
            r.wf(),
            r.grid.n_cells == n_cells,
            r.side() == side * UNIT,
            r.beings_and_models.items().dom() == Set::<u64>::empty(),
            r.obstructs.items().dom() == Set::<u64>::empty(),
            r.foods.items().dom() == Set::<u64>::empty(),
            r.speechlets.items().dom() == Set::<u64>::empty(),
            r.age == 0,
            r.generation == 0,
            r.max_food == MAX_FOOD,
            r.last_survivors.len() == 0,
            r.being_id == 0 && r.ob_id == 0 && r.food_id == 0,
            r.food_deaths.len() == 0,
            r.grid.view_radius == view_radius,
    {
        let grid = Grid::new(side, n_cells, view_radius);
        let beings_and_models = Store::new(&grid);
        let obstructs = Store::new(&grid);
        let foods = Store::new(&grid);
        let speechlets = Store::new(&grid);
        World {
            grid,
            beings_and_models,
            obstructs,
            foods,
            speechlets,
            being_id: 0,
            ob_id: 0,
            food_id: 0,
            food_deaths: Vec::new(),
            age: 0,
            generation: 0,
            last_survivors: Vec::new(),
            max_food: MAX_FOOD,
        }
    }

    /// An empty world of the standard configuration.
    pub fn new() -> (r: World)
        ensures
            r.wf(),
            r.grid.n_cells == N_CELLS,
            r.side() == W_SIZE * UNIT,
            r.beings_and_models.items().dom() == Set::<u64>::empty(),
            r.foods.items().dom() == Set::<u64>::empty(),
            r.obstructs.items().dom() == Set::<u64>::empty(),
            r.speechlets.items().dom() == Set::<u64>::empty(),
            r.max_food == MAX_FOOD,
            r.age == 0,
            r.generation == 0,
            r.last_survivors.len() == 0,
            r.being_id == 0 && r.ob_id == 0 && r.food_id == 0,
            r.food_deaths.len() == 0,
            r.grid.view_radius == B_FOV,
    {
        World::with_grid(W_SIZE, N_CELLS, B_FOV)
    }

    /// Adds a being at rest, with empty buffers and an idle action.
    pub fn add_being(
        &mut self,
        radius: i64,
        pos: Point,
        heading: Point,
        health: i64,
        genome: Vec<i64>,
        model: SumFxModel,
    ) -> (k: u64)
        requires
            old(self).wf(),
            old(self).grid.inside(pos),
            0 <= radius <= MAX_RADIUS,
            unit_box(heading),
            -VALUE_CAP <= health <= VALUE_CAP,
            genome.len() == GENOME_LEN,
            model.is_standard(),
            old(self).beings_and_models.items().len() < MAX_ENTITIES,
        ensures
            final(self).wf(),
            !old(self).beings_and_models.items().contains_key(k),
            final(self).beings_and_models.items().dom() == old(self).beings_and_models.items().dom().insert(k),
            final(self).beings_and_models.items()[k].pos == pos,
            final(self).beings_and_models.items()[k].kind matches Kind::Being(b) && b.energy == health
                && b.radius == radius && b.heading == heading && b.energy_update == 0
                && b.pos_update == (Point { x: 0, y: 0 }) && b.id == old(self).being_id
                && b.genome == genome && b.model == model && b.being_inputs.len() == 0
                && b.food_obstruct_inputs.len() == 0 && b.speechlet_inputs.len() == 0
                && b.output.thrust == 0 && b.output.turn == 0 && !b.turn_pending,
            final(self).beings_and_models.items()[k].cell == cell_at(pos, old(self).grid.cell_len as int),
            forall|x: u64| #[trigger] old(self).beings_and_models.items().contains_key(x)
                ==> final(self).beings_and_models.items()[x] == old(self).beings_and_models.items()[x],
            final(self).being_id == old(self).being_id.wrapping_add(1),
            final(self).ob_id == old(self).ob_id,
            final(self).food_id == old(self).food_id,
            final(self).obstructs == old(self).obstructs,
            final(self).foods == old(self).foods,
            final(self).speechlets == old(self).speechlets,
            final(self).grid == old(self).grid,
            final(self).last_survivors == old(self).last_survivors,
            final(self).max_food == old(self).max_food,
            final(self).generation == old(self).generation,
            final(self).age == old(self).age,
            final(self).food_deaths == old(self).food_deaths,
    {
        let being = Being {
            radius,
            heading,
            energy: health,
            genome,
            id: self.being_id,
            pos_update: Point { x: 0, y: 0 },
            energy_update: 0,
            being_inputs: Vec::new(),
            food_obstruct_inputs: Vec::new(),
            speechlet_inputs: Vec::new(),
            output: Action::idle(),
            turn_pending: false,
            model,
        };
        let k = self.beings_and_models.add(&self.grid, pos, Kind::Being(being));
        self.being_id = self.being_id.wrapping_add(1);
        assert(self.beings_and_models.items().dom() =~= old(self).beings_and_models.items().dom().insert(k));
        k
    }

    /// Adds an obstacle of full health.
    pub fn add_obstruct(&mut self, pos: Point) -> (k: u64)
        requires
            old(self).wf(),
            old(self).grid.inside(pos),
            old(self).obstructs.items().len() < MAX_ENTITIES,
        ensures
            final(self).wf(),
            final(self).obstructs.items().dom() == old(self).obstructs.items().dom().insert(k),
            final(self).beings_and_models == old(self).beings_and_models,
            final(self).foods == old(self).foods,
            final(self).speechlets == old(self).speechlets,
            final(self).grid == old(self).grid,
            final(self).last_survivors == old(self).last_survivors,
            final(self).max_food == old(self).max_food,
            final(self).generation == old(self).generation,
            final(self).age == old(self).age,
            final(self).food_deaths == old(self).food_deaths,
            final(self).ob_id == old(self).ob_id.wrapping_add(1),
            final(self).obstructs.items()[k].pos == pos,
            forall|x: u64| #[trigger] old(self).obstructs.items().contains_key(x)
                ==> final(self).obstructs.items()[x] == old(self).obstructs.items()[x],
            !old(self).obstructs.items().contains_key(k),
            final(self).being_id == old(self).being_id,
            final(self).food_id == old(self).food_id,
    {
        let o = Obstruct { age: O_START_HEALTH, id: self.ob_id };
        let k = self.obstructs.add(&self.grid, pos, Kind::Obstruct(o));
        self.ob_id = self.ob_id.wrapping_add(1);
        assert(self.obstructs.items().dom() =~= old(self).obstructs.items().dom().insert(k));
        k
    }

    /// Adds an uneaten food item.
    pub fn add_food(&mut self, pos: Point, val: i64, is_flesh: bool) -> (k: u64)
        requires
            old(self).wf(),
            old(self).grid.inside(pos),
            -VALUE_CAP <= val <= VALUE_CAP,
            old(self).foods.items().len() < MAX_ENTITIES,
        ensures
            final(self).wf(),
            !old(self).foods.items().contains_key(k),
            final(self).foods.items().dom() == old(self).foods.items().dom().insert(k),
            final(self).foods.items()[k].pos == pos,
            final(self).foods.items()[k].kind matches Kind::Food(f) && f.val == val && !f.eaten
                && f.is_flesh == is_flesh,
            forall|x: u64| #[trigger] old(self).foods.items().contains_key(x)
                ==> final(self).foods.items()[x] == old(self).foods.items()[x],
            final(self).beings_and_models == old(self).beings_and_models,
            final(self).obstructs == old(self).obstructs,
            final(self).speechlets == old(self).speechlets,
            final(self).food_deaths@ == old(self).food_deaths@,
            final(self).grid == old(self).grid,
            final(self).last_survivors == old(self).last_survivors,
            final(self).max_food == old(self).max_food,
            final(self).generation == old(self).generation,
            final(self).age == old(self).age,
            final(self).food_id == old(self).food_id.wrapping_add(1),
            final(self).being_id == old(self).being_id,
            final(self).ob_id == old(self).ob_id,
            final(self).foods.items()[k].kind matches Kind::Food(f) && f.id == old(self).food_id,
    {
        let f = Food { val, eaten: false, is_flesh, id: self.food_id };
        let k = self.foods.add(&self.grid, pos, Kind::Food(f));
        self.food_id = self.food_id.wrapping_add(1);
        assert(self.foods.items().dom() =~= old(self).foods.items().dom().insert(k));
        k
    }

    /// Adds a signal of the smallest radius and full age, heard by nobody yet.
    pub fn add_speechlet(&mut self, speechlet: Vec<u32>, pos: Point) -> (k: u64)
        requires
            old(self).wf(),
            old(self).grid.inside(pos),
            speechlet.len() == SPEECHLET_LEN,
            old(self).speechlets.items().len() < MAX_ENTITIES,
        ensures
            final(self).wf(),
            final(self).speechlets.items().dom() == old(self).speechlets.items().dom().insert(k),
            final(self).beings_and_models == old(self).beings_and_models,
            final(self).obstructs == old(self).obstructs,
            final(self).foods == old(self).foods,
            final(self).grid == old(self).grid,
            final(self).last_survivors == old(self).last_survivors,
            final(self).max_food == old(self).max_food,
            final(self).generation == old(self).generation,
            final(self).age == old(self).age,
            final(self).food_deaths == old(self).food_deaths,
            final(self).being_id == old(self).being_id,
            final(self).ob_id == old(self).ob_id,
            final(self).food_id == old(self).food_id,
            final(self).speechlets.items()[k].pos == pos,
            final(self).speechlets.items()[k].kind matches Kind::Speechlet(sp) && sp.speechlet@ == speechlet@,
            forall|x: u64| #[trigger] old(self).speechlets.items().contains_key(x)
                ==> final(self).speechlets.items()[x] == old(self).speechlets.items()[x],
            !old(self).speechlets.items().contains_key(k),
    {
        let s = Speechlet { speechlet, radius: S_RADIUS, age: S_START_AGE, recepient_being_ids: Vec::new() };
        let k = self.speechlets.add(&self.grid, pos, Kind::Speechlet(s));
        assert(self.speechlets.items().dom() =~= old(self).speechlets.items().dom().insert(k));
        k
    }
}

} // verus!

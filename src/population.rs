//! The population manager and the random placement of new entities.
use crate::consts::{
    W_SIZE,
    B_RADIUS, B_SCATTER_COUNT, B_SCATTER_RADIUS, B_START_COUNT, B_START_ENERGY, CROSSOVER_WEIGHT, FLESH_VAL, F_RADIUS,
    F_VAL, GENOME_LEN, MAX_FOOD, MAX_FOOD_REDUCTION, MIN_FOOD, MUTATION_RATE, N_FOOD_SPAWN_PER_STEP, REWORLDING_THRESHOLD,
};
use crate::entity::{being_ok, is_eaten, Action, Kind};
use crate::genome::{random_below, SumFxModel};
use crate::geometry::{in_box, isqrt, unit_box, MAX_COORD};
use crate::grid::{Grid, Point, UNIT};
use crate::perception::Observation;
use crate::store::{Store, MAX_ENTITIES};
use crate::act::acted_world;
use crate::lifecycle::{crumbled_world, grown_world, rotted_world, softened_world};
use crate::tick::{collided, committed_world, lands_inside, moved};
use crate::world::World;
use vstd::prelude::*;

verus! {

/// A uniform draw from `[lo, hi)`.
pub fn random_in(lo: i64, hi: i64) -> (r: i64)
    requires
        lo < hi,
        hi - lo <= 0xffff_ffff,
    ensures
        lo <= r < hi,
{
    lo + random_below((hi - lo) as u32) as i64
}

/// A random point of the arena, kept `margin` away from the walls when the
/// arena is wide enough.
pub fn random_point(grid: &Grid, margin: i64) -> (r: Point)
    requires
        grid.wf(),
        0 <= margin <= MAX_COORD,
    ensures
        grid.inside(r),
        in_box(r),
        grid.side() > 2 * margin ==> margin <= r.x < grid.side() - margin && margin <= r.y < grid.side() - margin,
{
    let side = grid.n_cells as i64 * grid.cell_len;
    assert(side > 0) by (nonlinear_arith)
        requires side == grid.n_cells * grid.cell_len, grid.n_cells > 0, grid.cell_len > 0;
    if side > 2 * margin {
        Point { x: random_in(margin, side - margin), y: random_in(margin, side - margin) }
    } else {
        Point { x: random_in(0, side), y: random_in(0, side) }
    }
}

/// A random heading of length about `UNIT`.
pub fn random_heading() -> (r: Point)
    ensures
        unit_box(r),
{
    let x = random_in(-UNIT, UNIT + 1);
    assert(0 <= x * x <= UNIT * UNIT) by (nonlinear_arith)
        requires -UNIT <= x <= UNIT;
    let yy = isqrt((UNIT * UNIT - x * x) as u64);
    assert(yy <= UNIT) by (nonlinear_arith)
        requires yy * yy <= UNIT * UNIT - x * x, x * x >= 0, yy >= 0;
    let y = yy as i64;
    if random_below(2) == 0 {
        Point { x, y }
    } else {
        Point { x, y: -y }
    }
}

/// A food item of the given value and provenance, not yet eaten.
pub open spec fn fresh_food(e: crate::entity::Entity, val: i64, flesh: bool) -> bool {
    e.kind matches Kind::Food(f) && f.val == val && f.is_flesh == flesh && !f.eaten
}

/// `after` holds every food item of `before`, unchanged, at most `extra`
/// more, and each of those is a fresh item of the given value and provenance.
pub open spec fn foods_added(before: Store, after: Store, extra: int, val: i64, flesh: bool) -> bool {
    &&& before.items().len() <= after.items().len() <= before.items().len() + extra
    &&& forall|x: u64| #[trigger] before.items().contains_key(x) ==> after.items().contains_key(x)
        && after.items()[x] == before.items()[x]
    &&& forall|x: u64| #[trigger] after.items().contains_key(x) && !before.items().contains_key(x)
        ==> fresh_food(after.items()[x], val, flesh)
}

/// The ambient food target after a new generation: smaller by the
/// reduction, but never below the floor (a target already below it stays).
pub open spec fn shrunk_target(m: usize) -> usize {
    if m > MIN_FOOD + MAX_FOOD_REDUCTION {
        (m - MAX_FOOD_REDUCTION) as usize
    } else if m > MIN_FOOD {
        MIN_FOOD
    } else {
        m
    }
}

/// Every food item of `after` not in `before` lies in the arena with its
/// disc clear of the walls.
pub open spec fn added_clear(before: Store, after: Store, side: int) -> bool {
    forall|x: u64| #[trigger] after.items().contains_key(x) && !before.items().contains_key(x)
        ==> in_box(after.items()[x].pos) && crate::geometry::clear_of_walls(after.items()[x].pos, F_RADIUS as int, side)
}

/// Every food item of `after` not in `before` lies within the scatter
/// radius of `p`.
pub open spec fn added_near(before: Store, after: Store, p: Point) -> bool {
    forall|x: u64| #[trigger] after.items().contains_key(x) && !before.items().contains_key(x)
        ==> crate::geometry::dist_sq(p, after.items()[x].pos) <= B_SCATTER_RADIUS * B_SCATTER_RADIUS
}

/// Additions compose.
pub proof fn lemma_foods_added_trans(a: Store, b: Store, c: Store, m: int, n: int, val: i64, flesh: bool)
    requires
        foods_added(a, b, m, val, flesh),
        foods_added(b, c, n, val, flesh),
    ensures
        foods_added(a, c, m + n, val, flesh),
{
    assert forall|x: u64| #[trigger] c.items().contains_key(x) && !a.items().contains_key(x)
        implies fresh_food(c.items()[x], val, flesh) by {
        if b.items().contains_key(x) {
            assert(fresh_food(b.items()[x], val, flesh));
        }
    }
}

/// A being as a new generation places it: standard radius, starting
/// energy, nothing accumulated, no observations.
pub open spec fn new_being(e: crate::entity::Entity) -> bool {
    e.kind matches Kind::Being(b) && b.radius == B_RADIUS && b.energy == B_START_ENERGY && b.energy_update == 0
        && b.pos_update == (Point { x: 0, y: 0 }) && b.being_inputs.len() == 0 && b.food_obstruct_inputs.len() == 0
        && b.speechlet_inputs.len() == 0
}

/// The food item under `k` is ambient: not scattered flesh.
pub open spec fn ambient_at(s: Store, k: u64) -> bool {
    s.items()[k].kind matches Kind::Food(f) && !f.is_flesh
}

/// Number of ambient food items of a store.
pub open spec fn ambient_count(s: Store) -> nat {
    s.items().dom().filter(|k: u64| ambient_at(s, k)).len()
}

/// Copies of standard genomes.
fn copy_models(v: &Vec<SumFxModel>) -> (r: Vec<SumFxModel>)
    requires
        forall|m: int| 0 <= m < v.len() ==> (#[trigger] v@[m]).is_standard(),
    ensures
        r.len() == v.len(),
        forall|m: int| 0 <= m < r.len() ==> (#[trigger] r@[m]).is_standard() && r@[m].same_params(&v@[m]),
{
    let mut r: Vec<SumFxModel> = Vec::new();
    let mut j: usize = 0;
    while j < v.len()
        invariant
            j <= v.len(),
            r.len() == j,
            forall|m: int| 0 <= m < v.len() ==> (#[trigger] v@[m]).is_standard(),
            forall|m: int| 0 <= m < r.len() ==> (#[trigger] r@[m]).is_standard() && r@[m].same_params(&v@[m]),
        decreases v.len() - j,
    {
        assert(v@[j as int].is_standard());
        r.push(v[j].duplicate());
        j = j + 1;
    }
    r
}

/// A point at least `margin` inside every wall, when the arena is wide
/// enough for that.
pub open spec fn placed_within(p: Point, margin: int, side: int) -> bool {
    side > 2 * margin ==> margin <= p.x < side - margin && margin <= p.y < side - margin
}

/// What a population check found.
#[derive(Clone, Copy, Debug, PartialEq, Eq, Structural)]
pub enum PopulationCheck {
    /// Enough beings live: nothing changed.
    Stable,
    /// A new generation was bred and placed in a fresh arena.
    Reworlded,
    /// No being lives and no earlier generation is stored: nothing can be
    /// bred.
    Extinct,
}

/// The contract of `World::tire_beings`, as a relation between the world before
/// and after.
pub open spec fn tired_world(w0: World, w1: World) -> bool {
    &&& w1.wf()
    &&& w1.grid == w0.grid
    &&& w1.last_survivors == w0.last_survivors
    &&& w1.max_food == w0.max_food
    &&& forall|x: u64| #[trigger] w1.beings_and_models.items().contains_key(x) <==> (w0.beings_and_models.items().contains_key(x) && crate::lifecycle::tired(w0.beings_and_models.items()[x]) > 0)
    &&& forall|x: u64| #[trigger] w1.beings_and_models.items().contains_key(x) ==> crate::lifecycle::energy_of(w1.beings_and_models.items()[x]) == crate::lifecycle::tired(w0.beings_and_models.items()[x])
    &&& foods_added(w0.foods, w1.foods, B_SCATTER_COUNT * crate::lifecycle::dying_count(w0.beings_and_models), FLESH_VAL, true)
    &&& added_clear(w0.foods, w1.foods, w0.grid.side())
    &&& w1.obstructs == w0.obstructs
    &&& w1.speechlets == w0.speechlets
}

/// The contract of `World::repop_foods`, as a relation between the world before
/// and after.
pub open spec fn repopulated(w0: World, w1: World) -> bool {
    &&& w1.wf()
    &&& w1.grid == w0.grid
    &&& w1.beings_and_models == w0.beings_and_models
    &&& w1.last_survivors == w0.last_survivors
    &&& w1.max_food == w0.max_food
    &&& foods_added(w0.foods, w1.foods, N_FOOD_SPAWN_PER_STEP as int, F_VAL, false)
    &&& w1.foods.items().len() == w0.foods.items().len() + if ambient_count(w0.foods) < w0.max_food && w0.foods.items().len() < MAX_ENTITIES { 1int } else { 0int }
}

/// The contract of `World::reworld`, as a relation between the world before
/// and after.
pub open spec fn reworlded(w0: World, w1: World, r: PopulationCheck) -> bool {
    &&& w1.wf()
    &&& w1.grid == w0.grid
    &&& (r == PopulationCheck::Stable) <==> w0.beings_and_models.items().len() >= REWORLDING_THRESHOLD
    &&& (r == PopulationCheck::Extinct) <==> (w0.beings_and_models.items().len() == 0 && w0.last_survivors.len() == 0)
    &&& r != PopulationCheck::Reworlded ==> w1 == w0
    &&& r == PopulationCheck::Reworlded ==> { &&& w1.beings_and_models.items().len() == B_START_COUNT &&& w1.generation == w0.generation.wrapping_add(1) &&& w1.age == 0 &&& w1.obstructs.items().len() == 0 &&& w1.speechlets.items().len() == 0 &&& w1.foods.items().len() == w1.max_food &&& forall|x: u64| #[trigger] w1.foods.items().contains_key(x) ==> fresh_food(w1.foods.items()[x], F_VAL, false) &&& w1.food_deaths.len() == 0 &&& w1.ob_id == 0 &&& w1.food_id as int == w1.max_food as int &&& w1.being_id as int == B_START_COUNT as int &&& forall|x: u64| #[trigger] w1.beings_and_models.items().contains_key(x) ==> new_being(w1.beings_and_models.items()[x]) && placed_within(w1.beings_and_models.items()[x].pos, B_RADIUS as int, w0.grid.side()) &&& forall|x: u64| #[trigger] w1.foods.items().contains_key(x) ==> placed_within(w1.foods.items()[x].pos, UNIT as int, w0.grid.side()) &&& w1.max_food == shrunk_target(w0.max_food) &&& (w0.beings_and_models.items().len() > 0 ==> w1.last_survivors.len() == w0.beings_and_models.items().len()) &&& (w0.beings_and_models.items().len() == 0 ==> w1.last_survivors == w0.last_survivors) }
}

/// After `n` rounds of movement intent, collision and commit (each by
/// `substeps` parts), the world `w0` has become `w`.
pub open spec fn substeps_done(w0: World, w: World, n: nat, substeps: usize) -> bool
    decreases n,
{
    if n == 0 {
        w == w0
    } else {
        exists|a: World, b: World, c: World|
            #![trigger moved(a, b, substeps), committed_world(c, w)]
            substeps_done(w0, a, (n - 1) as nat, substeps) && moved(a, b, substeps) && collided(b, c, substeps)
                && committed_world(c, w)
    }
}

/// `b` is `a` with only its tick counter changed.
pub open spec fn same_but_age(a: World, b: World) -> bool {
    &&& b.grid == a.grid
    &&& b.beings_and_models == a.beings_and_models
    &&& b.obstructs == a.obstructs
    &&& b.foods == a.foods
    &&& b.speechlets == a.speechlets
    &&& b.being_id == a.being_id
    &&& b.ob_id == a.ob_id
    &&& b.food_id == a.food_id
    &&& b.food_deaths == a.food_deaths
    &&& b.generation == a.generation
    &&& b.last_survivors == a.last_survivors
    &&& b.max_food == a.max_food
}

/// One full tick from `w0` to `w1`: the substep rounds, then perceive and
/// act, signal growth, fatigue, rot, crumbling, fading, repopulation and the
/// population check, each phase related to the next by its contract; then
/// the tick counter advances (to one after a new generation).
pub open spec fn ticked<F: Fn(&SumFxModel, Observation) -> Action>(
    w0: World,
    w1: World,
    substeps: usize,
    controller: F,
    r: PopulationCheck,
) -> bool {
    exists|ws: World, w4: World, w5: World, w6: World, w7: World, w8: World, w9: World, w10: World, w11: World|
        #![trigger substeps_done(w0, ws, substeps as nat, substeps), acted_world(ws, w4, controller), tired_world(w5, w6),
            crumbled_world(w7, w8), repopulated(w9, w10), reworlded(w10, w11, r)]
        substeps_done(w0, ws, substeps as nat, substeps) && acted_world(ws, w4, controller) && grown_world(w4, w5)
            && tired_world(w5, w6) && rotted_world(w6, w7) && crumbled_world(w7, w8) && softened_world(w8, w9)
            && repopulated(w9, w10) && reworlded(w10, w11, r) && same_but_age(w11, w1)
            && w1.age == (if r == PopulationCheck::Reworlded { 1u64 } else { w0.age.wrapping_add(1) })
}

impl World {
    /// One scatter draw at offset `(dx, dy)` from `pos`: a flesh food item
    /// appears at the offset point exactly when the offset lies in the
    /// scatter disc, the point's disc is inside the arena clear of the walls,
    /// and the store has room; nothing else changes.
    pub fn scatter_one(&mut self, pos: Point, dx: i64, dy: i64) -> (r: Option<u64>)
        requires
            old(self).wf(),
            in_box(pos),
            -B_SCATTER_RADIUS <= dx <= B_SCATTER_RADIUS,
            -B_SCATTER_RADIUS <= dy <= B_SCATTER_RADIUS,
        ensures
            final(self).wf(),
            r.is_some() == (dx * dx + dy * dy <= B_SCATTER_RADIUS * B_SCATTER_RADIUS
                && in_box(Point { x: (pos.x + dx) as i64, y: (pos.y + dy) as i64 })
                && crate::geometry::clear_of_walls(Point { x: (pos.x + dx) as i64, y: (pos.y + dy) as i64 },
                    F_RADIUS as int, old(self).grid.side())
                && old(self).foods.items().len() < MAX_ENTITIES),
            r matches Some(k) ==> !old(self).foods.items().contains_key(k)
                && final(self).foods.items().dom() == old(self).foods.items().dom().insert(k)
                && final(self).foods.items()[k].pos == (Point { x: (pos.x + dx) as i64, y: (pos.y + dy) as i64 })
                && fresh_food(final(self).foods.items()[k], FLESH_VAL, true),
            r.is_none() ==> *final(self) == *old(self),
            foods_added(old(self).foods, final(self).foods, 1, FLESH_VAL, true),
            added_clear(old(self).foods, final(self).foods, old(self).grid.side()),
            added_near(old(self).foods, final(self).foods, pos),
            final(self).grid == old(self).grid,
            final(self).beings_and_models == old(self).beings_and_models,
            final(self).obstructs == old(self).obstructs,
            final(self).speechlets == old(self).speechlets,
            final(self).last_survivors == old(self).last_survivors,
            final(self).max_food == old(self).max_food,
            final(self).generation == old(self).generation,
    {
        let side = self.grid.n_cells as i64 * self.grid.cell_len;
        let r = B_SCATTER_RADIUS;
        assert(0 <= dx * dx <= r * r && 0 <= dy * dy <= r * r) by (nonlinear_arith)
            requires -r <= dx <= r, -r <= dy <= r, r >= 0;
        if dx * dx + dy * dy <= r * r && lands_inside(pos, Point { x: dx, y: dy }, F_RADIUS, side)
            && self.foods.len() < MAX_ENTITIES {
            let k = self.add_food(Point { x: pos.x + dx, y: pos.y + dy }, FLESH_VAL, true);
            Some(k)
        } else {
            None
        }
    }

    /// Death scatter: a fixed number of random draws of `scatter_one` in the
    /// square around `pos`, of which those in the disc and inside the arena
    /// add flesh food.
    pub fn scatter_food(&mut self, pos: Point)
        requires
            old(self).wf(),
            in_box(pos),
        ensures
            final(self).wf(),
            final(self).grid == old(self).grid,
            final(self).beings_and_models == old(self).beings_and_models,
            final(self).obstructs == old(self).obstructs,
            final(self).speechlets == old(self).speechlets,
            final(self).last_survivors == old(self).last_survivors,
            final(self).max_food == old(self).max_food,
            final(self).generation == old(self).generation,
            foods_added(old(self).foods, final(self).foods, B_SCATTER_COUNT as int, FLESH_VAL, true),
            added_clear(old(self).foods, final(self).foods, old(self).grid.side()),
            added_near(old(self).foods, final(self).foods, pos),
    {
        let r = B_SCATTER_RADIUS;
        let mut n: usize = 0;
        while n < B_SCATTER_COUNT
            invariant
                self.wf(),
                in_box(pos),
                self.grid == old(self).grid,
                self.beings_and_models == old(self).beings_and_models,
                self.obstructs == old(self).obstructs,
                self.speechlets == old(self).speechlets,
                self.last_survivors == old(self).last_survivors,
                self.max_food == old(self).max_food,
                self.generation == old(self).generation,
                r == B_SCATTER_RADIUS,
                n <= B_SCATTER_COUNT,
                foods_added(old(self).foods, self.foods, n as int, FLESH_VAL, true),
                added_clear(old(self).foods, self.foods, old(self).grid.side()),
                added_near(old(self).foods, self.foods, pos),
            decreases B_SCATTER_COUNT - n,
        {
            let dx = random_in(-r, r + 1);
            let dy = random_in(-r, r + 1);
            let ghost before = self.foods;
            self.scatter_one(pos, dx, dy);
            proof {
                assert forall|x: u64| #[trigger] self.foods.items().contains_key(x) && !old(self).foods.items().contains_key(x)
                    implies in_box(self.foods.items()[x].pos)
                    && crate::geometry::clear_of_walls(self.foods.items()[x].pos, F_RADIUS as int, old(self).grid.side())
                    && crate::geometry::dist_sq(pos, self.foods.items()[x].pos) <= B_SCATTER_RADIUS * B_SCATTER_RADIUS by {
                    if before.items().contains_key(x) {
                        assert(self.foods.items()[x] == before.items()[x]);
                    }
                }
                lemma_foods_added_trans(old(self).foods, before, self.foods, n as int, 1, FLESH_VAL, true);
            }
            n = n + 1;
        }
    }

    /// Beings tire, and each that dies scatters food where it died.
    pub fn tire_beings(&mut self)
        requires
            old(self).wf(),
        ensures
            final(self).wf(),
            final(self).grid == old(self).grid,
            final(self).last_survivors == old(self).last_survivors,
            final(self).max_food == old(self).max_food,
            forall|x: u64| #[trigger] final(self).beings_and_models.items().contains_key(x)
                <==> (old(self).beings_and_models.items().contains_key(x)
                && crate::lifecycle::tired(old(self).beings_and_models.items()[x]) > 0),
            forall|x: u64| #[trigger] final(self).beings_and_models.items().contains_key(x)
                ==> crate::lifecycle::energy_of(final(self).beings_and_models.items()[x])
                == crate::lifecycle::tired(old(self).beings_and_models.items()[x]),
            foods_added(old(self).foods, final(self).foods,
                B_SCATTER_COUNT * crate::lifecycle::dying_count(old(self).beings_and_models), FLESH_VAL, true),
            added_clear(old(self).foods, final(self).foods, old(self).grid.side()),
            final(self).obstructs == old(self).obstructs,
            final(self).speechlets == old(self).speechlets,
            tired_world(*old(self), *final(self)),
    {
        let dead = self.tire_beings_only();
        let ghost mid = *self;
        let mut i: usize = 0;
        while i < dead.len()
            invariant
                self.wf(),
                forall|j: int| 0 <= j < dead.len() ==> in_box(#[trigger] dead[j]),
                self.grid == old(self).grid,
                self.last_survivors == old(self).last_survivors,
                self.max_food == old(self).max_food,
                forall|x: u64| #[trigger] self.beings_and_models.items().contains_key(x)
                    <==> (old(self).beings_and_models.items().contains_key(x)
                    && crate::lifecycle::tired(old(self).beings_and_models.items()[x]) > 0),
                self.beings_and_models == mid.beings_and_models,
                self.obstructs == old(self).obstructs,
                self.speechlets == old(self).speechlets,
                i <= dead.len(),
                dead.len() == crate::lifecycle::dying_count(old(self).beings_and_models),
                foods_added(old(self).foods, self.foods, B_SCATTER_COUNT * i, FLESH_VAL, true),
                added_clear(old(self).foods, self.foods, old(self).grid.side()),
            decreases dead.len() - i,
        {
            let ghost before = self.foods;
            self.scatter_food(dead[i]);
            proof {
                lemma_foods_added_trans(old(self).foods, before, self.foods, B_SCATTER_COUNT * i, B_SCATTER_COUNT as int, FLESH_VAL, true);
                assert(B_SCATTER_COUNT * i + B_SCATTER_COUNT == B_SCATTER_COUNT * (i + 1)) by (nonlinear_arith);
                assert forall|x: u64| #[trigger] self.foods.items().contains_key(x) && !old(self).foods.items().contains_key(x)
                    implies in_box(self.foods.items()[x].pos)
                    && crate::geometry::clear_of_walls(self.foods.items()[x].pos, F_RADIUS as int, old(self).grid.side()) by {
                    if before.items().contains_key(x) {
                        assert(self.foods.items()[x] == before.items()[x]);
                    }
                }
            }
            i = i + 1;
        }
    }

    /// Number of ambient (not flesh) food items.
    pub fn count_ambient(&self) -> (r: usize)
        requires
            self.wf(),
        ensures
            r == ambient_count(self.foods),
    {
        let keys = self.foods.keys();
        let mut ambient: usize = 0;
        let ghost mut counted: Set<u64> = Set::empty();
        assert(counted.filter(|x: u64| ambient_at(self.foods, x)) =~= Set::<u64>::empty());
        let mut i: usize = 0;
        while i < keys.len()
            invariant
                self.wf(),
                i <= keys.len(),
                keys@.no_duplicates(),
                forall|k: u64| keys@.contains(k) <==> self.foods.items().contains_key(k),
                counted.finite(),
                forall|x: u64| counted.contains(x) <==> exists|j: int| 0 <= j < i && keys@[j] == x,
                ambient as int == counted.filter(|x: u64| ambient_at(self.foods, x)).len(),
                ambient <= i,
            decreases keys.len() - i,
        {
            let k = keys[i];
            assert(keys@.contains(k));
            let mut is_ambient = false;
            if let Kind::Food(f) = &self.foods.get(k).kind {
                if !f.is_flesh {
                    is_ambient = true;
                }
            }
            assert(is_ambient == ambient_at(self.foods, k));
            proof {
                assert(!counted.contains(k)) by {
                    if counted.contains(k) {
                        let j = choose|j: int| 0 <= j < i && keys@[j] == k;
                        assert(keys@[j] == keys@[i as int]);
                    }
                }
                let p = |x: u64| ambient_at(self.foods, x);
                if is_ambient {
                    assert(counted.insert(k).filter(p) =~= counted.filter(p).insert(k));
                } else {
                    assert(counted.insert(k).filter(p) =~= counted.filter(p));
                }
                counted = counted.insert(k);
                assert forall|x: u64| counted.contains(x) <==> exists|j: int| 0 <= j < i + 1 && keys@[j] == x by {
                    if x == k {
                        assert(keys@[i as int] == x);
                    }
                }
            }
            if is_ambient {
                ambient = ambient + 1;
            }
            i = i + 1;
        }
        proof {
            assert forall|x: u64| counted.contains(x) <==> self.foods.items().dom().contains(x) by {
                if counted.contains(x) {
                    let j = choose|j: int| 0 <= j < i && keys@[j] == x;
                    assert(keys@.contains(keys@[j]));
                }
                if self.foods.items().dom().contains(x) {
                    assert(keys@.contains(x));
                    let j = choose|j: int| 0 <= j < keys.len() && keys@[j] == x;
                }
            }
            assert(counted =~= self.foods.items().dom());
        }
        ambient
    }

    /// Ambient repopulation: when fewer ambient (not flesh) food items than
    /// the target exist and the store has room, one appears at a random
    /// point (a fixed number of such rounds per tick).
    pub fn repop_foods(&mut self)
        requires
            old(self).wf(),
        ensures
            final(self).wf(),
            final(self).grid == old(self).grid,
            final(self).beings_and_models == old(self).beings_and_models,
            final(self).last_survivors == old(self).last_survivors,
            final(self).max_food == old(self).max_food,
            foods_added(old(self).foods, final(self).foods, N_FOOD_SPAWN_PER_STEP as int, F_VAL, false),
            final(self).foods.items().len() == old(self).foods.items().len()
                + if ambient_count(old(self).foods) < old(self).max_food
                && old(self).foods.items().len() < MAX_ENTITIES { 1int } else { 0int },
            repopulated(*old(self), *final(self)),
    {
        let mut n: usize = 0;
        while n < N_FOOD_SPAWN_PER_STEP
            invariant
                self.wf(),
                self.grid == old(self).grid,
                self.beings_and_models == old(self).beings_and_models,
                self.last_survivors == old(self).last_survivors,
                self.max_food == old(self).max_food,
                n <= N_FOOD_SPAWN_PER_STEP,
                foods_added(old(self).foods, self.foods, n as int, F_VAL, false),
                n == 0 ==> self.foods == old(self).foods,
                n == 1 ==> self.foods.items().len() == old(self).foods.items().len()
                    + if ambient_count(old(self).foods) < old(self).max_food
                    && old(self).foods.items().len() < MAX_ENTITIES { 1int } else { 0int },
            decreases N_FOOD_SPAWN_PER_STEP - n,
        {
            let ambient = self.count_ambient();
            if ambient < self.max_food && self.foods.len() < MAX_ENTITIES {
                let p = random_point(&self.grid, UNIT);
                let ghost before = self.foods;
                let k = self.add_food(p, F_VAL, false);
                assert(self.foods.items().dom() == before.items().dom().insert(k));
            }
            n = n + 1;
        }
    }

    /// A copy of every living being's genome.
    pub fn survivor_genomes(&self) -> (r: Vec<SumFxModel>)
        requires
            self.wf(),
        ensures
            r.len() == self.beings_and_models.items().len(),
            forall|j: int| 0 <= j < r.len() ==> (#[trigger] r@[j]).is_standard(),
    {
        let keys = self.beings_and_models.keys();
        let mut survivors: Vec<SumFxModel> = Vec::new();
        let mut i: usize = 0;
        while i < keys.len()
            invariant
                self.wf(),
                i <= keys.len(),
                survivors.len() == i,
                keys.len() == self.beings_and_models.items().len(),
                forall|k: u64| keys@.contains(k) <==> self.beings_and_models.items().contains_key(k),
                forall|j: int| 0 <= j < survivors.len() ==> (#[trigger] survivors@[j]).is_standard(),
            decreases keys.len() - i,
        {
            let k = keys[i];
            assert(keys@.contains(k));
            assert(being_ok(self.beings_and_models.items()[k]));
            match &self.beings_and_models.get(k).kind {
                Kind::Being(b) => survivors.push(b.model.duplicate()),
                _ => survivors.push(SumFxModel::standard_model()),
            }
            i = i + 1;
        }
        survivors
    }

    /// Population check. While at least the threshold of beings live,
    /// nothing changes. Otherwise the survivors' genomes form the breeding
    /// pool (or, when none survives, the last stored survivors; with neither
    /// nothing changes and `Extinct` is reported). Pairs drawn at random from
    /// the pool, with replacement, are crossed and mutated until pool and
    /// offspring together number the starting population. The arena is then
    /// rebuilt: the survivors are stored for a later extinction, the ambient
    /// food target shrinks (down to a floor) and is sown afresh, every store
    /// and counter starts over, the generation advances, and one being per
    /// genome appears at a random point with a random heading and the
    /// starting energy.
    pub fn reworld(&mut self) -> (r: PopulationCheck)
        requires
            old(self).wf(),
        ensures
            final(self).wf(),
            final(self).grid == old(self).grid,
            (r == PopulationCheck::Stable) <==> old(self).beings_and_models.items().len() >= REWORLDING_THRESHOLD,
            (r == PopulationCheck::Extinct) <==> (old(self).beings_and_models.items().len() == 0
                && old(self).last_survivors.len() == 0),
            r != PopulationCheck::Reworlded ==> *final(self) == *old(self),
            r == PopulationCheck::Reworlded ==> {
                &&& final(self).beings_and_models.items().len() == B_START_COUNT
                &&& final(self).generation == old(self).generation.wrapping_add(1)
                &&& final(self).age == 0
                &&& final(self).obstructs.items().len() == 0
                &&& final(self).speechlets.items().len() == 0
                &&& final(self).foods.items().len() == final(self).max_food
                &&& forall|x: u64| #[trigger] final(self).foods.items().contains_key(x)
                    ==> fresh_food(final(self).foods.items()[x], F_VAL, false)
                &&& final(self).food_deaths.len() == 0
                &&& final(self).ob_id == 0
                &&& final(self).food_id as int == final(self).max_food as int
                &&& final(self).being_id as int == B_START_COUNT as int
                &&& forall|x: u64| #[trigger] final(self).beings_and_models.items().contains_key(x)
                    ==> new_being(final(self).beings_and_models.items()[x])
                    && placed_within(final(self).beings_and_models.items()[x].pos, B_RADIUS as int, old(self).grid.side())
                &&& forall|x: u64| #[trigger] final(self).foods.items().contains_key(x)
                    ==> placed_within(final(self).foods.items()[x].pos, UNIT as int, old(self).grid.side())
                &&& final(self).max_food == shrunk_target(old(self).max_food)
                &&& (old(self).beings_and_models.items().len() > 0 ==> final(self).last_survivors.len()
                    == old(self).beings_and_models.items().len())
                &&& (old(self).beings_and_models.items().len() == 0 ==> final(self).last_survivors == old(self).last_survivors)
            },
            reworlded(*old(self), *final(self), r),
    {
        let n = self.beings_and_models.len();
        if n >= REWORLDING_THRESHOLD {
            return PopulationCheck::Stable;
        }
        let survivors = self.survivor_genomes();
        let survived = survivors.len() > 0;
        let pool: Vec<SumFxModel> = if survived {
            copy_models(&survivors)
        } else {
            copy_models(&self.last_survivors)
        };
        if pool.len() == 0 {
            return PopulationCheck::Extinct;
        }
        let mut offspring: Vec<SumFxModel> = Vec::new();
        while pool.len() + offspring.len() < B_START_COUNT
            invariant
                0 < pool.len() < REWORLDING_THRESHOLD,
                pool.len() + offspring.len() <= B_START_COUNT,
                forall|m: int| 0 <= m < pool.len() ==> (#[trigger] pool@[m]).is_standard(),
                forall|m: int| 0 <= m < offspring.len() ==> (#[trigger] offspring@[m]).is_standard(),
                survived == (survivors.len() > 0),
                survivors.len() == old(self).beings_and_models.items().len(),
            decreases B_START_COUNT - pool.len() - offspring.len(),
        {
            let a = random_below(pool.len() as u32) as usize;
            let b = random_below(pool.len() as u32) as usize;
            assert(pool@[a as int].is_standard() && pool@[b as int].is_standard());
            let m1 = pool[a].duplicate();
            let m2 = pool[b].duplicate();
            proof {
                SumFxModel::lemma_standard_same_shape(&pool@[a as int], &pool@[b as int]);
            }
            let child = m1.crossover(m2, CROSSOVER_WEIGHT).mutate(MUTATION_RATE);
            offspring.push(child);
        }
        let ghost old_n = n;
        if survived {
            self.last_survivors = survivors;
        }
        let ghost kept = self.last_survivors;
        if self.max_food > MIN_FOOD + MAX_FOOD_REDUCTION {
            self.max_food = self.max_food - MAX_FOOD_REDUCTION;
        } else if self.max_food > MIN_FOOD {
            self.max_food = MIN_FOOD;
        }
        let gone = self.beings_and_models.keys();
        assert(forall|i: int| 0 <= i < gone.len() ==> gone@.contains(#[trigger] gone@[i]));
        self.beings_and_models.remove_keys(&self.grid, &gone);
        let gone = self.obstructs.keys();
        assert(forall|i: int| 0 <= i < gone.len() ==> gone@.contains(#[trigger] gone@[i]));
        self.obstructs.remove_keys(&self.grid, &gone);
        let gone = self.foods.keys();
        assert(forall|i: int| 0 <= i < gone.len() ==> gone@.contains(#[trigger] gone@[i]));
        self.foods.remove_keys(&self.grid, &gone);
        let gone = self.speechlets.keys();
        assert(forall|i: int| 0 <= i < gone.len() ==> gone@.contains(#[trigger] gone@[i]));
        self.speechlets.remove_keys(&self.grid, &gone);
        assert(self.beings_and_models.items().dom() =~= Set::<u64>::empty());
        assert(self.obstructs.items().dom() =~= Set::<u64>::empty());
        assert(self.foods.items().dom() =~= Set::<u64>::empty());
        assert(self.speechlets.items().dom() =~= Set::<u64>::empty());
        self.food_deaths = Vec::new();
        self.being_id = 0;
        self.ob_id = 0;
        self.food_id = 0;
        self.age = 0;
        self.generation = self.generation.wrapping_add(1);
        assert(self.foods.items().len() == 0);
        let mut f: usize = 0;
        while f < self.max_food
            invariant
                self.wf(),
                f <= self.max_food,
                self.foods.items().len() == f,
                forall|x: u64| #[trigger] self.foods.items().contains_key(x) ==> fresh_food(self.foods.items()[x], F_VAL, false),
                forall|x: u64| #[trigger] self.foods.items().contains_key(x)
                    ==> placed_within(self.foods.items()[x].pos, UNIT as int, old(self).grid.side()),
                self.food_id as int == f as int,
                self.being_id == 0,
                self.ob_id == 0,
                self.food_deaths.len() == 0,
                self.beings_and_models.items().len() == 0,
                self.obstructs.items().len() == 0,
                self.speechlets.items().len() == 0,
                self.grid == old(self).grid,
                self.age == 0,
                self.generation == old(self).generation.wrapping_add(1),
                self.max_food == shrunk_target(old(self).max_food),
                survived ==> self.last_survivors.len() == old_n,
                self.last_survivors == kept,
                !survived ==> self.last_survivors == old(self).last_survivors,
            decreases self.max_food - f,
        {
            let p = random_point(&self.grid, UNIT);
            self.add_food(p, F_VAL, false);
            f = f + 1;
        }
        let mut placed: usize = 0;
        let mut models = pool;
        models.append(&mut offspring);
        while models.len() > 0
            invariant
                self.wf(),
                placed + models.len() == B_START_COUNT,
                self.beings_and_models.items().len() == placed,
                forall|x: u64| #[trigger] self.foods.items().contains_key(x) ==> fresh_food(self.foods.items()[x], F_VAL, false),
                self.food_id as int == self.max_food as int,
                self.being_id as int == placed as int,
                self.ob_id == 0,
                self.food_deaths.len() == 0,
                forall|x: u64| #[trigger] self.beings_and_models.items().contains_key(x)
                    ==> new_being(self.beings_and_models.items()[x])
                    && placed_within(self.beings_and_models.items()[x].pos, B_RADIUS as int, old(self).grid.side()),
                forall|x: u64| #[trigger] self.foods.items().contains_key(x)
                    ==> placed_within(self.foods.items()[x].pos, UNIT as int, old(self).grid.side()),
                forall|m: int| 0 <= m < models.len() ==> (#[trigger] models@[m]).is_standard(),
                self.foods.items().len() == self.max_food,
                self.obstructs.items().len() == 0,
                self.speechlets.items().len() == 0,
                self.grid == old(self).grid,
                self.age == 0,
                self.generation == old(self).generation.wrapping_add(1),
                self.max_food == shrunk_target(old(self).max_food),
                survived ==> self.last_survivors.len() == old_n,
                self.last_survivors == kept,
                !survived ==> self.last_survivors == old(self).last_survivors,
            decreases models.len(),
        {
            let m = models.pop().unwrap();
            let p = random_point(&self.grid, B_RADIUS);
            let h = random_heading();
            let tag = crate::perception::filled(GENOME_LEN, 0i64);
            self.add_being(B_RADIUS, p, h, B_START_ENERGY, tag, m);
            placed = placed + 1;
        }
        PopulationCheck::Reworlded
    }
    /// A world of the standard configuration, populated: the starting
    /// population of beings with fresh standard genomes at random points and
    /// headings, and the ambient food target of food items.
    pub fn standard_world() -> (r: World)
        ensures
            r.wf(),
            r.beings_and_models.items().len() == B_START_COUNT,
            r.foods.items().len() == MAX_FOOD,
            r.obstructs.items().len() == 0,
            r.speechlets.items().len() == 0,
            r.generation == 0,
            r.age == 0,
            forall|x: u64| #[trigger] r.beings_and_models.items().contains_key(x) ==> new_being(r.beings_and_models.items()[x])
                && B_RADIUS <= r.beings_and_models.items()[x].pos.x < W_SIZE * UNIT - B_RADIUS
                && B_RADIUS <= r.beings_and_models.items()[x].pos.y < W_SIZE * UNIT - B_RADIUS,
            forall|x: u64| #[trigger] r.foods.items().contains_key(x) ==> fresh_food(r.foods.items()[x], F_VAL, false),
    {
        let mut world = World::new();
        assert(world.beings_and_models.items().len() == 0 && world.foods.items().len() == 0);
        assert(world.obstructs.items().len() == 0 && world.speechlets.items().len() == 0);
        let mut i: usize = 0;
        while i < B_START_COUNT
            invariant
                world.wf(),
                i <= B_START_COUNT,
                world.beings_and_models.items().len() == i,
                world.foods.items().len() == 0,
                world.obstructs.items().len() == 0,
                world.speechlets.items().len() == 0,
                world.max_food == MAX_FOOD,
                world.generation == 0,
                world.age == 0,
                world.grid.side() == W_SIZE * UNIT,
                forall|x: u64| #[trigger] world.beings_and_models.items().contains_key(x) ==> new_being(world.beings_and_models.items()[x])
                    && B_RADIUS <= world.beings_and_models.items()[x].pos.x < W_SIZE * UNIT - B_RADIUS
                    && B_RADIUS <= world.beings_and_models.items()[x].pos.y < W_SIZE * UNIT - B_RADIUS,
            decreases B_START_COUNT - i,
        {
            let p = random_point(&world.grid, B_RADIUS);
            let h = random_heading();
            let tag = crate::perception::filled(GENOME_LEN, 0i64);
            world.add_being(B_RADIUS, p, h, B_START_ENERGY, tag, SumFxModel::standard_model());
            i = i + 1;
        }
        let mut f: usize = 0;
        while f < MAX_FOOD
            invariant
                world.wf(),
                f <= MAX_FOOD,
                world.beings_and_models.items().len() == B_START_COUNT,
                world.foods.items().len() == f,
                world.obstructs.items().len() == 0,
                world.speechlets.items().len() == 0,
                world.generation == 0,
                world.age == 0,
                forall|x: u64| #[trigger] world.beings_and_models.items().contains_key(x) ==> new_being(world.beings_and_models.items()[x])
                    && B_RADIUS <= world.beings_and_models.items()[x].pos.x < W_SIZE * UNIT - B_RADIUS
                    && B_RADIUS <= world.beings_and_models.items()[x].pos.y < W_SIZE * UNIT - B_RADIUS,
                forall|x: u64| #[trigger] world.foods.items().contains_key(x) ==> fresh_food(world.foods.items()[x], F_VAL, false),
            decreases MAX_FOOD - f,
        {
            let p = random_point(&world.grid, UNIT);
            world.add_food(p, F_VAL, false);
            f = f + 1;
        }
        world
    }

    /// One full tick: `substeps` rounds of movement intent, collision and
    /// commit; then perception and action through `controller`; then signals
    /// grow, beings tire (the dead scatter food), food rots, obstacles
    /// crumble, signals fade, ambient food is topped up, and the population
    /// is checked. The tick counter advances.
    pub fn step<F: Fn(&SumFxModel, Observation) -> Action>(&mut self, substeps: usize, controller: &F) -> (r: PopulationCheck)
        requires
            old(self).wf(),
            1 <= substeps as int <= i64::MAX as int,
            forall|m: &SumFxModel, o: Observation| o.wf() ==> controller.requires((m, o)),
        ensures
            final(self).wf(),
            final(self).grid == old(self).grid,
            r == PopulationCheck::Reworlded ==> final(self).beings_and_models.items().len() == B_START_COUNT
                && final(self).age == 1,
            r == PopulationCheck::Stable ==> final(self).beings_and_models.items().len() >= REWORLDING_THRESHOLD,
            r == PopulationCheck::Extinct ==> final(self).beings_and_models.items().len() == 0
                && final(self).last_survivors.len() == 0,
            r != PopulationCheck::Reworlded ==> final(self).age == old(self).age.wrapping_add(1),
            forall|x: u64| #[trigger] final(self).foods.items().contains_key(x) ==> !is_eaten(final(self).foods.items()[x]),
            ticked(*old(self), *final(self), substeps, *controller, r),
    {
        let ghost w_start = *self;
        let start_age = self.age;
        let mut i: usize = 0;
        while i < substeps
            invariant
                self.wf(),
                1 <= substeps as int <= i64::MAX as int,
                self.grid == old(self).grid,
                i <= substeps,
                substeps_done(w_start, *self, i as nat, substeps),
            decreases substeps - i,
        {
            let ghost a = *self;
            self.move_beings(substeps);
            let ghost b = *self;
            self.check_collisions(substeps);
            let ghost c = *self;
            self.update_cells();
            assert(moved(a, b, substeps) && collided(b, c, substeps) && committed_world(c, *self));
            assert(substeps_done(w_start, *self, (i + 1) as nat, substeps));
            i = i + 1;
        }
        let ghost ws = *self;
        self.perform_being_outputs(controller);
        let ghost w4 = *self;
        self.grow_speechlets();
        let ghost w5 = *self;
        self.tire_beings();
        let ghost w6 = *self;
        self.age_foods();
        let ghost after_rot = *self;
        self.age_obstructs();
        let ghost w8 = *self;
        self.soften_speechlets();
        let ghost w9 = *self;
        self.repop_foods();
        let ghost aged = *self;
        proof {
            assert forall|x: u64| #[trigger] aged.foods.items().contains_key(x) implies !is_eaten(aged.foods.items()[x]) by {
                if !after_rot.foods.items().contains_key(x) {
                    assert(fresh_food(aged.foods.items()[x], F_VAL, false));
                }
            }
        }
        let r = self.reworld();
        let ghost w11 = *self;
        self.age = match r {
            PopulationCheck::Reworlded => 1,
            _ => start_age.wrapping_add(1),
        };
        assert(same_but_age(w11, *self));
        assert(substeps_done(w_start, ws, substeps as nat, substeps) && acted_world(ws, w4, *controller)
            && grown_world(w4, w5) && tired_world(w5, w6) && rotted_world(w6, after_rot)
            && crumbled_world(after_rot, w8) && softened_world(w8, w9) && repopulated(w9, aged)
            && reworlded(aged, w11, r));
        assert(ticked(w_start, *self, substeps, *controller, r));
        r
    }

    /// Grid consistency: in a well-formed world (as every constructor and
    /// every tick leaves it) each entity of each kind records the cell that
    /// holds its position, and its key is in that cell's list for its kind,
    /// once, and in no other cell's list.
    pub proof fn lemma_grid_consistency(&self, k: u64)
        requires
            self.wf(),
        ensures
            self.beings_and_models.items().contains_key(k) ==> Store::single_cell(self.beings_and_models, &self.grid, k),
            self.obstructs.items().contains_key(k) ==> Store::single_cell(self.obstructs, &self.grid, k),
            self.foods.items().contains_key(k) ==> Store::single_cell(self.foods, &self.grid, k),
            self.speechlets.items().contains_key(k) ==> Store::single_cell(self.speechlets, &self.grid, k),
    {
        if self.beings_and_models.items().contains_key(k) {
            self.beings_and_models.lemma_single_cell(&self.grid, k);
        }
        if self.obstructs.items().contains_key(k) {
            self.obstructs.lemma_single_cell(&self.grid, k);
        }
        if self.foods.items().contains_key(k) {
            self.foods.lemma_single_cell(&self.grid, k);
        }
        if self.speechlets.items().contains_key(k) {
            self.speechlets.lemma_single_cell(&self.grid, k);
        }
    }
} // impl World

} // verus!

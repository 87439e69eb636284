//! Ageing and removal: beings tire, obstacles crumble, food rots, signals
//! fade; what crosses its threshold is queued and then removed.
use crate::consts::{B_TIRE_RATE, F_ROT_RATE, O_AGE_RATE, O_DEATH_AGE, S_RADIUS, S_SOFTEN_RATE};
use crate::entity::{being_ok, food_ok, is_eaten, obstruct_ok, speechlet_ok, Entity, Kind, VALUE_CAP};
use crate::geometry::{clamp, clamped, in_box, MAX_RADIUS};
use crate::grid::Point;
use crate::store::Store;
use crate::world::World;
use vstd::prelude::*;

verus! {

/// A being's energy after one tick of fatigue.
pub open spec fn tired(e: Entity) -> int {
    match e.kind {
        Kind::Being(b) => clamped(b.energy - B_TIRE_RATE, VALUE_CAP as int),
        _ => 0,
    }
}

/// An obstacle's age after one tick.
pub open spec fn crumbled(e: Entity) -> int {
    match e.kind {
        Kind::Obstruct(o) => clamped(o.age - O_AGE_RATE, VALUE_CAP as int),
        _ => 0,
    }
}

/// The energy of a being.
pub open spec fn energy_of(e: Entity) -> int {
    match e.kind {
        Kind::Being(b) => b.energy as int,
        _ => 0,
    }
}

/// The age of an obstacle.
pub open spec fn age_of(e: Entity) -> int {
    match e.kind {
        Kind::Obstruct(o) => o.age as int,
        _ => 0,
    }
}

/// A food item's value after one tick.
pub open spec fn rotted(e: Entity) -> int {
    match e.kind {
        Kind::Food(f) => clamped(f.val - F_ROT_RATE, VALUE_CAP as int),
        _ => 0,
    }
}

/// The value of a food item.
pub open spec fn val_of(e: Entity) -> int {
    match e.kind {
        Kind::Food(f) => f.val as int,
        _ => 0,
    }
}

/// The age of a signal.
pub open spec fn signal_age_of(e: Entity) -> int {
    match e.kind {
        Kind::Speechlet(s) => s.age as int,
        _ => 0,
    }
}

/// A signal's age after one tick.
pub open spec fn softened(e: Entity) -> int {
    match e.kind {
        Kind::Speechlet(s) => clamped(s.age - S_SOFTEN_RATE, VALUE_CAP as int),
        _ => 0,
    }
}

/// A signal's radius.
pub open spec fn radius_of(e: Entity) -> int {
    match e.kind {
        Kind::Speechlet(s) => s.radius as int,
        _ => 0,
    }
}

/// A signal's radius after one tick of growth, up to the radius bound.
pub open spec fn grown(e: Entity) -> int {
    match e.kind {
        Kind::Speechlet(s) => if s.radius <= MAX_RADIUS - S_RADIUS { s.radius + S_RADIUS } else { MAX_RADIUS as int },
        _ => 0,
    }
}

/// Number of beings that fatigue kills this tick.
pub open spec fn dying_count(s: Store) -> nat {
    s.items().dom().filter(|y: u64| tired(s.items()[y]) <= 0).len()
}

/// The contract of `World::grow_speechlets`, as a relation between the world before
/// and after.
pub open spec fn grown_world(w0: World, w1: World) -> bool {
    &&& w1.wf()
    &&& w1.grid == w0.grid
    &&& w1.beings_and_models == w0.beings_and_models
    &&& w1.obstructs == w0.obstructs
    &&& w1.foods == w0.foods
    &&& w1.food_deaths == w0.food_deaths
    &&& w1.last_survivors == w0.last_survivors
    &&& w1.max_food == w0.max_food
    &&& w1.speechlets.items().dom() == w0.speechlets.items().dom()
    &&& forall|x: u64| #[trigger] w1.speechlets.items().contains_key(x) ==> radius_of(w1.speechlets.items()[x]) == grown(w0.speechlets.items()[x])
}

/// The contract of `World::age_foods`, as a relation between the world before
/// and after.
pub open spec fn rotted_world(w0: World, w1: World) -> bool {
    &&& w1.wf()
    &&& w1.grid == w0.grid
    &&& w1.beings_and_models == w0.beings_and_models
    &&& w1.obstructs == w0.obstructs
    &&& w1.speechlets == w0.speechlets
    &&& w1.last_survivors == w0.last_survivors
    &&& w1.max_food == w0.max_food
    &&& w1.food_deaths.len() == 0
    &&& forall|x: u64| #[trigger] w1.foods.items().contains_key(x) <==> (w0.foods.items().contains_key(x) && !is_eaten(w0.foods.items()[x]) && rotted(w0.foods.items()[x]) >= 0)
    &&& forall|x: u64| #[trigger] w1.foods.items().contains_key(x) ==> val_of(w1.foods.items()[x]) == rotted(w0.foods.items()[x])
    &&& forall|x: u64| #[trigger] w1.foods.items().contains_key(x) ==> !is_eaten(w1.foods.items()[x])
}

/// The contract of `World::age_obstructs`, as a relation between the world before
/// and after.
pub open spec fn crumbled_world(w0: World, w1: World) -> bool {
    &&& w1.wf()
    &&& w1.grid == w0.grid
    &&& w1.beings_and_models == w0.beings_and_models
    &&& w1.foods == w0.foods
    &&& w1.speechlets == w0.speechlets
    &&& w1.food_deaths == w0.food_deaths
    &&& w1.last_survivors == w0.last_survivors
    &&& w1.max_food == w0.max_food
    &&& forall|x: u64| #[trigger] w1.obstructs.items().contains_key(x) <==> (w0.obstructs.items().contains_key(x) && crumbled(w0.obstructs.items()[x]) >= O_DEATH_AGE)
    &&& forall|x: u64| #[trigger] w1.obstructs.items().contains_key(x) ==> age_of(w1.obstructs.items()[x]) == crumbled(w0.obstructs.items()[x])
}

/// The contract of `World::soften_speechlets`, as a relation between the world before
/// and after.
pub open spec fn softened_world(w0: World, w1: World) -> bool {
    &&& w1.wf()
    &&& w1.grid == w0.grid
    &&& w1.beings_and_models == w0.beings_and_models
    &&& w1.obstructs == w0.obstructs
    &&& w1.foods == w0.foods
    &&& w1.food_deaths == w0.food_deaths
    &&& w1.last_survivors == w0.last_survivors
    &&& w1.max_food == w0.max_food
    &&& forall|x: u64| #[trigger] w1.speechlets.items().contains_key(x) <==> (w0.speechlets.items().contains_key(x) && softened(w0.speechlets.items()[x]) > 0)
    &&& forall|x: u64| #[trigger] w1.speechlets.items().contains_key(x) ==> signal_age_of(w1.speechlets.items()[x]) == softened(w0.speechlets.items()[x])
}

impl World {
    /// Beings tire: each loses the fatigue rate of energy, and those left
    /// with none are removed (their positions are returned, in removal
    /// order).
    pub(crate) fn tire_beings_only(&mut self) -> (dead: Vec<Point>)
        requires
            old(self).wf(),
        ensures
            final(self).wf(),
            final(self).grid == old(self).grid,
            final(self).obstructs == old(self).obstructs,
            final(self).foods == old(self).foods,
            final(self).speechlets == old(self).speechlets,
            final(self).food_deaths == old(self).food_deaths,
            final(self).last_survivors == old(self).last_survivors,
            final(self).max_food == old(self).max_food,
            forall|x: u64| #[trigger] final(self).beings_and_models.items().contains_key(x)
                <==> (old(self).beings_and_models.items().contains_key(x)
                && tired(old(self).beings_and_models.items()[x]) > 0),
            forall|x: u64| #[trigger] final(self).beings_and_models.items().contains_key(x)
                ==> energy_of(final(self).beings_and_models.items()[x]) == tired(old(self).beings_and_models.items()[x]),
            forall|j: int| 0 <= j < dead.len() ==> in_box(#[trigger] dead[j]),
            dead.len() <= old(self).beings_and_models.items().len(),
            dead.len() == dying_count(old(self).beings_and_models),
    {
        let keys = self.beings_and_models.keys();
        let mut deaths: Vec<u64> = Vec::new();
        let mut dead: Vec<Point> = Vec::new();
        let mut i: usize = 0;
        while i < keys.len()
            invariant
                self.wf(),
                self.grid == old(self).grid,
                self.obstructs == old(self).obstructs,
                self.foods == old(self).foods,
                self.speechlets == old(self).speechlets,
                self.food_deaths == old(self).food_deaths,
                self.last_survivors == old(self).last_survivors,
                self.max_food == old(self).max_food,
                i <= keys.len(),
                keys@.no_duplicates(),
                forall|k: u64| keys@.contains(k) <==> old(self).beings_and_models.items().contains_key(k),
                self.beings_and_models.items().dom() == old(self).beings_and_models.items().dom(),
                deaths@.no_duplicates(),
                forall|x: u64| deaths@.contains(x) <==> (keys@.take(i as int).contains(x)
                    && tired(old(self).beings_and_models.items()[x]) <= 0),
                forall|j: int| #![trigger keys@[j]] i <= j < keys.len() ==>
                    self.beings_and_models.items()[keys@[j]] == old(self).beings_and_models.items()[keys@[j]],
                forall|j: int| #![trigger keys@[j]] 0 <= j < i ==>
                    energy_of(self.beings_and_models.items()[keys@[j]]) == tired(old(self).beings_and_models.items()[keys@[j]]),
                forall|j: int| 0 <= j < dead.len() ==> in_box(#[trigger] dead[j]),
                dead.len() <= i,
                keys.len() == old(self).beings_and_models.items().len(),
                dead.len() == deaths.len(),
                forall|j: int| 0 <= j < dead.len() ==> old(self).beings_and_models.items().contains_key(#[trigger] deaths@[j])
                    && old(self).beings_and_models.items()[deaths@[j]].pos == dead[j],
            decreases keys.len() - i,
        {
            let k = keys[i];
            assert(keys@.contains(k));
            assert(being_ok(self.beings_and_models.items()[k]));
            let ghost before = *self;
            let pos = self.beings_and_models.get(k).pos;
            assert(pos == old(self).beings_and_models.items()[k].pos);
            assert(old(self).beings_and_models.items().contains_key(k));
            let bm = self.beings_and_models.kind_mut(k);
            let mut exhausted = false;
            if let Kind::Being(b) = bm {
                b.energy = clamp(b.energy - B_TIRE_RATE, VALUE_CAP);
                exhausted = b.energy <= 0;
            }
            assert(keys@.take(i + 1) =~= keys@.take(i as int).push(k));
            proof {
                assert(self.beings_and_models.items().dom() =~= before.beings_and_models.items().dom());
                Store::lemma_same_layout(before.beings_and_models, self.beings_and_models, &self.grid);
                assert forall|x: u64| #[trigger] self.beings_and_models.items().contains_key(x)
                    implies being_ok(self.beings_and_models.items()[x]) by {
                    assert(being_ok(before.beings_and_models.items()[x]));
                }
                assert(!deaths@.contains(k)) by {
                    if deaths@.contains(k) {
                        let m = choose|m: int| 0 <= m < i && #[trigger] keys@.take(i as int)[m] == k;
                        assert(keys@[m] == keys@[i as int]);
                    }
                }
                assert forall|j: int| #![trigger keys@[j]] i + 1 <= j < keys.len() implies
                    self.beings_and_models.items()[keys@[j]] == old(self).beings_and_models.items()[keys@[j]] by {
                    assert(keys@[j] != k);
                }
                assert forall|j: int| #![trigger keys@[j]] 0 <= j < i + 1 implies
                    energy_of(self.beings_and_models.items()[keys@[j]]) == tired(old(self).beings_and_models.items()[keys@[j]]) by {
                    if j < i {
                        assert(keys@[j] != k);
                    }
                }
            }
            if exhausted {
                let ghost d0 = deaths@;
                deaths.push(k);
                dead.push(pos);
                proof {
                    assert forall|x: u64| deaths@.contains(x) <==> (keys@.take(i + 1).contains(x)
                        && tired(old(self).beings_and_models.items()[x]) <= 0) by {
                        crate::store::lemma_push_contains(d0, k, x);
                        crate::store::lemma_push_contains(keys@.take(i as int), k, x);
                    }
                }
            } else {
                proof {
                    assert forall|x: u64| deaths@.contains(x) <==> (keys@.take(i + 1).contains(x)
                        && tired(old(self).beings_and_models.items()[x]) <= 0) by {
                        crate::store::lemma_push_contains(keys@.take(i as int), k, x);
                    }
                }
            }
            i = i + 1;
        }
        assert(keys@.take(keys.len() as int) =~= keys@);
        proof {
            assert forall|j: int| 0 <= j < deaths.len() implies self.beings_and_models.items().contains_key(#[trigger] deaths@[j]) by {
                assert(deaths@.contains(deaths@[j]));
                assert(keys@.contains(deaths@[j]));
                assert(old(self).beings_and_models.items().contains_key(deaths@[j]));
            }
        }
        proof {
            let dying = old(self).beings_and_models.items().dom().filter(
                |y: u64| tired(old(self).beings_and_models.items()[y]) <= 0);
            assert forall|y: u64| deaths@.to_set().contains(y) <==> dying.contains(y) by {
                if old(self).beings_and_models.items().contains_key(y) {
                    assert(keys@.contains(y));
                }
            }
            assert(deaths@.to_set() =~= dying);
            deaths@.unique_seq_to_set();
        }
        let ghost before = *self;
        self.beings_and_models.remove_keys(&self.grid, &deaths);
        proof {
            assert forall|x: u64| #[trigger] self.beings_and_models.items().contains_key(x)
                <==> (old(self).beings_and_models.items().contains_key(x) && tired(old(self).beings_and_models.items()[x]) > 0) by {
                if old(self).beings_and_models.items().contains_key(x) {
                    assert(keys@.contains(x));
                    assert(before.beings_and_models.items().contains_key(x));
                }
            }
            assert forall|x: u64| #[trigger] self.beings_and_models.items().contains_key(x)
                implies being_ok(self.beings_and_models.items()[x]) by {
                assert(being_ok(before.beings_and_models.items()[x]));
            }
            assert forall|x: u64| #[trigger] self.beings_and_models.items().contains_key(x)
                implies energy_of(self.beings_and_models.items()[x]) == tired(old(self).beings_and_models.items()[x]) by {
                assert(keys@.contains(x));
                let j = choose|j: int| 0 <= j < keys.len() && #[trigger] keys@[j] == x;
            }
        }
        dead
    }

    /// Obstacles crumble: each loses the ageing rate, and those whose age
    /// falls below the threshold are removed.
    pub fn age_obstructs(&mut self)
        requires
            old(self).wf(),
        ensures
            final(self).wf(),
            final(self).grid == old(self).grid,
            final(self).beings_and_models == old(self).beings_and_models,
            final(self).foods == old(self).foods,
            final(self).speechlets == old(self).speechlets,
            final(self).food_deaths == old(self).food_deaths,
            final(self).last_survivors == old(self).last_survivors,
            final(self).max_food == old(self).max_food,
            forall|x: u64| #[trigger] final(self).obstructs.items().contains_key(x)
                <==> (old(self).obstructs.items().contains_key(x) && crumbled(old(self).obstructs.items()[x]) >= O_DEATH_AGE),
            forall|x: u64| #[trigger] final(self).obstructs.items().contains_key(x)
                ==> age_of(final(self).obstructs.items()[x]) == crumbled(old(self).obstructs.items()[x]),
            crumbled_world(*old(self), *final(self)),
    {
        let keys = self.obstructs.keys();
        let mut deaths: Vec<u64> = Vec::new();
        let mut i: usize = 0;
        while i < keys.len()
            invariant
                self.wf(),
                self.grid == old(self).grid,
                self.beings_and_models == old(self).beings_and_models,
                self.foods == old(self).foods,
                self.speechlets == old(self).speechlets,
                self.food_deaths == old(self).food_deaths,
                self.last_survivors == old(self).last_survivors,
                self.max_food == old(self).max_food,
                i <= keys.len(),
                keys@.no_duplicates(),
                forall|k: u64| keys@.contains(k) <==> old(self).obstructs.items().contains_key(k),
                self.obstructs.items().dom() == old(self).obstructs.items().dom(),
                deaths@.no_duplicates(),
                forall|x: u64| deaths@.contains(x) <==> (keys@.take(i as int).contains(x)
                    && crumbled(old(self).obstructs.items()[x]) < O_DEATH_AGE),
                forall|j: int| #![trigger keys@[j]] i <= j < keys.len() ==>
                    self.obstructs.items()[keys@[j]] == old(self).obstructs.items()[keys@[j]],
                forall|j: int| #![trigger keys@[j]] 0 <= j < i ==>
                    age_of(self.obstructs.items()[keys@[j]]) == crumbled(old(self).obstructs.items()[keys@[j]]),
            decreases keys.len() - i,
        {
            let k = keys[i];
            assert(keys@.contains(k));
            assert(obstruct_ok(self.obstructs.items()[k]));
            let ghost before = *self;
            let om = self.obstructs.kind_mut(k);
            let mut gone = false;
            if let Kind::Obstruct(o) = om {
                o.age = clamp(o.age - O_AGE_RATE, VALUE_CAP);
                gone = o.age < O_DEATH_AGE;
            }
            assert(keys@.take(i + 1) =~= keys@.take(i as int).push(k));
            proof {
                assert(self.obstructs.items().dom() =~= before.obstructs.items().dom());
                Store::lemma_same_layout(before.obstructs, self.obstructs, &self.grid);
                assert forall|x: u64| #[trigger] self.obstructs.items().contains_key(x)
                    implies obstruct_ok(self.obstructs.items()[x]) by {
                    assert(obstruct_ok(before.obstructs.items()[x]));
                }
                assert(!deaths@.contains(k)) by {
                    if deaths@.contains(k) {
                        let m = choose|m: int| 0 <= m < i && #[trigger] keys@.take(i as int)[m] == k;
                        assert(keys@[m] == keys@[i as int]);
                    }
                }
                assert forall|j: int| #![trigger keys@[j]] i + 1 <= j < keys.len() implies
                    self.obstructs.items()[keys@[j]] == old(self).obstructs.items()[keys@[j]] by {
                    assert(keys@[j] != k);
                }
                assert forall|j: int| #![trigger keys@[j]] 0 <= j < i + 1 implies
                    age_of(self.obstructs.items()[keys@[j]]) == crumbled(old(self).obstructs.items()[keys@[j]]) by {
                    if j < i {
                        assert(keys@[j] != k);
                    }
                }
            }
            let ghost d0 = deaths@;
            if gone {
                deaths.push(k);
            }
            proof {
                assert forall|x: u64| deaths@.contains(x) <==> (keys@.take(i + 1).contains(x)
                    && crumbled(old(self).obstructs.items()[x]) < O_DEATH_AGE) by {
                    crate::store::lemma_push_contains(d0, k, x);
                    crate::store::lemma_push_contains(keys@.take(i as int), k, x);
                }
            }
            i = i + 1;
        }
        assert(keys@.take(keys.len() as int) =~= keys@);
        proof {
            assert forall|j: int| 0 <= j < deaths.len() implies self.obstructs.items().contains_key(#[trigger] deaths@[j]) by {
                assert(deaths@.contains(deaths@[j]));
                assert(keys@.contains(deaths@[j]));
                assert(old(self).obstructs.items().contains_key(deaths@[j]));
            }
        }
        let ghost before = *self;
        self.obstructs.remove_keys(&self.grid, &deaths);
        proof {
            assert forall|x: u64| #[trigger] self.obstructs.items().contains_key(x)
                <==> (old(self).obstructs.items().contains_key(x) && crumbled(old(self).obstructs.items()[x]) >= O_DEATH_AGE) by {
                if old(self).obstructs.items().contains_key(x) {
                    assert(keys@.contains(x));
                    assert(before.obstructs.items().contains_key(x));
                }
            }
            assert forall|x: u64| #[trigger] self.obstructs.items().contains_key(x)
                implies obstruct_ok(self.obstructs.items()[x]) by {
                assert(obstruct_ok(before.obstructs.items()[x]));
            }
            assert forall|x: u64| #[trigger] self.obstructs.items().contains_key(x)
                implies age_of(self.obstructs.items()[x]) == crumbled(old(self).obstructs.items()[x]) by {
                assert(keys@.contains(x));
                let j = choose|j: int| 0 <= j < keys.len() && #[trigger] keys@[j] == x;
            }
        }
    }
    /// Food rots: each uneaten item loses the rot rate; the items eaten
    /// this tick and those whose value fell below zero are removed, and the
    /// queue of eaten items is emptied.
    pub fn age_foods(&mut self)
        requires
            old(self).wf(),
        ensures
            final(self).wf(),
            final(self).grid == old(self).grid,
            final(self).beings_and_models == old(self).beings_and_models,
            final(self).obstructs == old(self).obstructs,
            final(self).speechlets == old(self).speechlets,
            final(self).last_survivors == old(self).last_survivors,
            final(self).max_food == old(self).max_food,
            final(self).food_deaths.len() == 0,
            forall|x: u64| #[trigger] final(self).foods.items().contains_key(x)
                <==> (old(self).foods.items().contains_key(x) && !is_eaten(old(self).foods.items()[x])
                && rotted(old(self).foods.items()[x]) >= 0),
            forall|x: u64| #[trigger] final(self).foods.items().contains_key(x)
                ==> val_of(final(self).foods.items()[x]) == rotted(old(self).foods.items()[x]),
            forall|x: u64| #[trigger] final(self).foods.items().contains_key(x) ==> !is_eaten(final(self).foods.items()[x]),
            rotted_world(*old(self), *final(self)),
    {
        let keys = self.foods.keys();
        let mut rotten: Vec<u64> = Vec::new();
        let mut i: usize = 0;
        while i < keys.len()
            invariant
                self.wf(),
                i <= keys.len(),
                self.grid == old(self).grid,
                self.beings_and_models == old(self).beings_and_models,
                self.obstructs == old(self).obstructs,
                self.speechlets == old(self).speechlets,
                self.food_deaths == old(self).food_deaths,
                self.last_survivors == old(self).last_survivors,
                self.max_food == old(self).max_food,
                keys@.no_duplicates(),
                forall|k: u64| keys@.contains(k) <==> old(self).foods.items().contains_key(k),
                self.foods.items().dom() == old(self).foods.items().dom(),
                forall|x: u64| #[trigger] self.foods.items().contains_key(x)
                    ==> is_eaten(self.foods.items()[x]) == is_eaten(old(self).foods.items()[x]),
                rotten@.no_duplicates(),
                forall|x: u64| rotten@.contains(x) <==> (keys@.take(i as int).contains(x)
                    && !is_eaten(old(self).foods.items()[x]) && rotted(old(self).foods.items()[x]) < 0),
                forall|j: int| #![trigger keys@[j]] i <= j < keys.len() ==>
                    self.foods.items()[keys@[j]] == old(self).foods.items()[keys@[j]],
                forall|j: int| #![trigger keys@[j]] 0 <= j < i ==>
                    val_of(self.foods.items()[keys@[j]]) == rotted(old(self).foods.items()[keys@[j]]),
            decreases keys.len() - i,
        {
            let k = keys[i];
            assert(keys@.contains(k));
            assert(food_ok(self.foods.items()[k]));
            let ghost before = *self;
            let fm = self.foods.kind_mut(k);
            let mut gone = false;
            if let Kind::Food(f) = fm {
                f.val = clamp(f.val - F_ROT_RATE, VALUE_CAP);
                gone = f.val < 0 && !f.eaten;
            }
            assert(keys@.take(i + 1) =~= keys@.take(i as int).push(k));
            proof {
                assert(self.foods.items().dom() =~= before.foods.items().dom());
                Store::lemma_same_layout(before.foods, self.foods, &self.grid);
                assert forall|x: u64| #[trigger] self.foods.items().contains_key(x)
                    implies food_ok(self.foods.items()[x]) by {
                    assert(food_ok(before.foods.items()[x]));
                }
                assert forall|x: u64| #[trigger] self.foods.items().contains_key(x) && is_eaten(self.foods.items()[x])
                    implies self.food_deaths@.contains(x) by {
                    assert(before.foods.items().contains_key(x) && is_eaten(before.foods.items()[x]));
                }
                assert forall|j: int| 0 <= j < self.food_deaths.len() implies {
                    let x = #[trigger] self.food_deaths@[j];
                    &&& self.foods.items().contains_key(x)
                    &&& self.foods.items()[x].kind matches Kind::Food(f) && f.eaten
                } by {
                    let x = self.food_deaths@[j];
                    assert(is_eaten(before.foods.items()[x]));
                }
                assert(!rotten@.contains(k)) by {
                    if rotten@.contains(k) {
                        let m = choose|m: int| 0 <= m < i && #[trigger] keys@.take(i as int)[m] == k;
                        assert(keys@[m] == keys@[i as int]);
                    }
                }
                assert forall|j: int| #![trigger keys@[j]] i + 1 <= j < keys.len() implies
                    self.foods.items()[keys@[j]] == old(self).foods.items()[keys@[j]] by {
                    assert(keys@[j] != k);
                }
                assert forall|j: int| #![trigger keys@[j]] 0 <= j < i + 1 implies
                    val_of(self.foods.items()[keys@[j]]) == rotted(old(self).foods.items()[keys@[j]]) by {
                    if j < i {
                        assert(keys@[j] != k);
                    }
                }
            }
            let ghost d0 = rotten@;
            if gone {
                rotten.push(k);
            }
            proof {
                assert forall|x: u64| rotten@.contains(x) <==> (keys@.take(i + 1).contains(x)
                    && !is_eaten(old(self).foods.items()[x]) && rotted(old(self).foods.items()[x]) < 0) by {
                    crate::store::lemma_push_contains(d0, k, x);
                    crate::store::lemma_push_contains(keys@.take(i as int), k, x);
                }
            }
            i = i + 1;
        }
        assert(keys@.take(keys.len() as int) =~= keys@);
        let ghost mid = *self;
        let mut deaths: Vec<u64> = Vec::new();
        std::mem::swap(&mut deaths, &mut self.food_deaths);
        proof {
            assert forall|j: int| 0 <= j < deaths.len() implies mid.foods.items().contains_key(#[trigger] deaths@[j]) by {
                let x = deaths@[j];
                assert(mid.food_deaths@[j] == x);
            }
        }
        self.foods.remove_keys(&self.grid, &deaths);
        let ghost after_eaten = self.foods;
        proof {
            assert forall|j: int| 0 <= j < rotten.len() implies self.foods.items().contains_key(#[trigger] rotten@[j]) by {
                let x = rotten@[j];
                assert(rotten@.contains(x));
                assert(keys@.contains(x));
                assert(mid.foods.items().contains_key(x));
                assert(!is_eaten(mid.foods.items()[x]));
                if deaths@.contains(x) {
                    let m = choose|m: int| 0 <= m < deaths.len() && #[trigger] deaths@[m] == x;
                    assert(mid.food_deaths@[m] == x);
                }
            }
        }
        self.foods.remove_keys(&self.grid, &rotten);
        proof {
            assert forall|x: u64| #[trigger] self.foods.items().contains_key(x)
                implies food_ok(self.foods.items()[x]) by {
                assert(food_ok(mid.foods.items()[x]));
            }
            assert forall|x: u64| #[trigger] self.foods.items().contains_key(x)
                <==> (old(self).foods.items().contains_key(x) && !is_eaten(old(self).foods.items()[x])
                && rotted(old(self).foods.items()[x]) >= 0) by {
                if old(self).foods.items().contains_key(x) {
                    assert(keys@.contains(x));
                    assert(mid.foods.items().contains_key(x));
                    if is_eaten(old(self).foods.items()[x]) {
                        assert(is_eaten(mid.foods.items()[x]));
                        assert(mid.food_deaths@.contains(x));
                    } else if deaths@.contains(x) {
                        let m = choose|m: int| 0 <= m < deaths.len() && #[trigger] deaths@[m] == x;
                        assert(mid.food_deaths@[m] == x);
                    }
                }
            }
        }
        assert forall|x: u64| #[trigger] self.foods.items().contains_key(x) implies !is_eaten(self.foods.items()[x]) by {
            assert(mid.foods.items().contains_key(x));
            assert(!is_eaten(old(self).foods.items()[x]));
        }
        assert forall|x: u64| #[trigger] self.foods.items().contains_key(x) implies
            val_of(self.foods.items()[x]) == rotted(old(self).foods.items()[x]) by {
            assert(keys@.contains(x));
            let j = choose|j: int| 0 <= j < keys.len() && #[trigger] keys@[j] == x;
        }
    }

    /// Signals grow: each radius widens by the signal radius, up to the
    /// radius bound.
    pub fn grow_speechlets(&mut self)
        requires
            old(self).wf(),
        ensures
            final(self).wf(),
            final(self).grid == old(self).grid,
            final(self).beings_and_models == old(self).beings_and_models,
            final(self).obstructs == old(self).obstructs,
            final(self).foods == old(self).foods,
            final(self).food_deaths == old(self).food_deaths,
            final(self).last_survivors == old(self).last_survivors,
            final(self).max_food == old(self).max_food,
            final(self).speechlets.items().dom() == old(self).speechlets.items().dom(),
            forall|x: u64| #[trigger] final(self).speechlets.items().contains_key(x)
                ==> radius_of(final(self).speechlets.items()[x]) == grown(old(self).speechlets.items()[x]),
            grown_world(*old(self), *final(self)),
    {
        let keys = self.speechlets.keys();
        let mut i: usize = 0;
        while i < keys.len()
            invariant
                self.wf(),
                self.grid == old(self).grid,
                self.beings_and_models == old(self).beings_and_models,
                self.obstructs == old(self).obstructs,
                self.foods == old(self).foods,
                self.food_deaths == old(self).food_deaths,
                self.last_survivors == old(self).last_survivors,
                self.max_food == old(self).max_food,
                forall|k: u64| keys@.contains(k) <==> old(self).speechlets.items().contains_key(k),
                self.speechlets.items().dom() == old(self).speechlets.items().dom(),
                i <= keys.len(),
                keys@.no_duplicates(),
                forall|j: int| #![trigger keys@[j]] i <= j < keys.len() ==>
                    self.speechlets.items()[keys@[j]] == old(self).speechlets.items()[keys@[j]],
                forall|j: int| #![trigger keys@[j]] 0 <= j < i ==>
                    radius_of(self.speechlets.items()[keys@[j]]) == grown(old(self).speechlets.items()[keys@[j]]),
            decreases keys.len() - i,
        {
            let k = keys[i];
            assert(keys@.contains(k));
            assert(speechlet_ok(self.speechlets.items()[k]));
            let ghost before = *self;
            let sm = self.speechlets.kind_mut(k);
            if let Kind::Speechlet(sp) = sm {
                sp.radius = if sp.radius <= MAX_RADIUS - S_RADIUS { sp.radius + S_RADIUS } else { MAX_RADIUS };
            }
            proof {
                assert forall|j: int| #![trigger keys@[j]] i + 1 <= j < keys.len() implies
                    self.speechlets.items()[keys@[j]] == old(self).speechlets.items()[keys@[j]] by {
                    assert(keys@[j] != k);
                }
                assert forall|j: int| #![trigger keys@[j]] 0 <= j < i + 1 implies
                    radius_of(self.speechlets.items()[keys@[j]]) == grown(old(self).speechlets.items()[keys@[j]]) by {
                    if j < i {
                        assert(keys@[j] != k);
                    }
                }
                assert(self.speechlets.items().dom() =~= before.speechlets.items().dom());
                Store::lemma_same_layout(before.speechlets, self.speechlets, &self.grid);
                assert forall|x: u64| #[trigger] self.speechlets.items().contains_key(x)
                    implies speechlet_ok(self.speechlets.items()[x]) by {
                    assert(speechlet_ok(before.speechlets.items()[x]));
                }
            }
            i = i + 1;
        }
        assert forall|x: u64| #[trigger] self.speechlets.items().contains_key(x) implies
            radius_of(self.speechlets.items()[x]) == grown(old(self).speechlets.items()[x]) by {
            assert(keys@.contains(x));
            let j = choose|j: int| 0 <= j < keys.len() && #[trigger] keys@[j] == x;
        }
    }

    /// Signals fade: each loses the softening rate of age, and those left
    /// with none are removed.
    pub fn soften_speechlets(&mut self)
        requires
            old(self).wf(),
        ensures
            final(self).wf(),
            final(self).grid == old(self).grid,
            final(self).beings_and_models == old(self).beings_and_models,
            final(self).obstructs == old(self).obstructs,
            final(self).foods == old(self).foods,
            final(self).food_deaths == old(self).food_deaths,
            final(self).last_survivors == old(self).last_survivors,
            final(self).max_food == old(self).max_food,
            forall|x: u64| #[trigger] final(self).speechlets.items().contains_key(x)
                <==> (old(self).speechlets.items().contains_key(x) && softened(old(self).speechlets.items()[x]) > 0),
            forall|x: u64| #[trigger] final(self).speechlets.items().contains_key(x)
                ==> signal_age_of(final(self).speechlets.items()[x]) == softened(old(self).speechlets.items()[x]),
            softened_world(*old(self), *final(self)),
    {
        let keys = self.speechlets.keys();
        let mut deaths: Vec<u64> = Vec::new();
        let mut i: usize = 0;
        while i < keys.len()
            invariant
                self.wf(),
                i <= keys.len(),
                self.grid == old(self).grid,
                self.beings_and_models == old(self).beings_and_models,
                self.obstructs == old(self).obstructs,
                self.foods == old(self).foods,
                self.food_deaths == old(self).food_deaths,
                self.last_survivors == old(self).last_survivors,
                self.max_food == old(self).max_food,
                keys@.no_duplicates(),
                forall|k: u64| keys@.contains(k) <==> old(self).speechlets.items().contains_key(k),
                self.speechlets.items().dom() == old(self).speechlets.items().dom(),
                deaths@.no_duplicates(),
                forall|x: u64| deaths@.contains(x) <==> (keys@.take(i as int).contains(x)
                    && softened(old(self).speechlets.items()[x]) <= 0),
                forall|j: int| #![trigger keys@[j]] i <= j < keys.len() ==>
                    self.speechlets.items()[keys@[j]] == old(self).speechlets.items()[keys@[j]],
                forall|j: int| #![trigger keys@[j]] 0 <= j < i ==>
                    signal_age_of(self.speechlets.items()[keys@[j]]) == softened(old(self).speechlets.items()[keys@[j]]),
            decreases keys.len() - i,
        {
            let k = keys[i];
            assert(keys@.contains(k));
            assert(speechlet_ok(self.speechlets.items()[k]));
            let ghost before = *self;
            let sm = self.speechlets.kind_mut(k);
            let mut gone = false;
            if let Kind::Speechlet(sp) = sm {
                sp.age = clamp(sp.age - S_SOFTEN_RATE, VALUE_CAP);
                gone = sp.age <= 0;
            }
            assert(keys@.take(i + 1) =~= keys@.take(i as int).push(k));
            proof {
                assert(self.speechlets.items().dom() =~= before.speechlets.items().dom());
                Store::lemma_same_layout(before.speechlets, self.speechlets, &self.grid);
                assert forall|x: u64| #[trigger] self.speechlets.items().contains_key(x)
                    implies speechlet_ok(self.speechlets.items()[x]) by {
                    assert(speechlet_ok(before.speechlets.items()[x]));
                }
                assert(!deaths@.contains(k)) by {
                    if deaths@.contains(k) {
                        let m = choose|m: int| 0 <= m < i && #[trigger] keys@.take(i as int)[m] == k;
                        assert(keys@[m] == keys@[i as int]);
                    }
                }
                assert forall|j: int| #![trigger keys@[j]] i + 1 <= j < keys.len() implies
                    self.speechlets.items()[keys@[j]] == old(self).speechlets.items()[keys@[j]] by {
                    assert(keys@[j] != k);
                }
                assert forall|j: int| #![trigger keys@[j]] 0 <= j < i + 1 implies
                    signal_age_of(self.speechlets.items()[keys@[j]]) == softened(old(self).speechlets.items()[keys@[j]]) by {
                    if j < i {
                        assert(keys@[j] != k);
                    }
                }
            }
            let ghost d0 = deaths@;
            if gone {
                deaths.push(k);
            }
            proof {
                assert forall|x: u64| deaths@.contains(x) <==> (keys@.take(i + 1).contains(x)
                    && softened(old(self).speechlets.items()[x]) <= 0) by {
                    crate::store::lemma_push_contains(d0, k, x);
                    crate::store::lemma_push_contains(keys@.take(i as int), k, x);
                }
            }
            i = i + 1;
        }
        assert(keys@.take(keys.len() as int) =~= keys@);
        proof {
            assert forall|j: int| 0 <= j < deaths.len() implies self.speechlets.items().contains_key(#[trigger] deaths@[j]) by {
                assert(deaths@.contains(deaths@[j]));
                assert(keys@.contains(deaths@[j]));
            }
        }
        let ghost before = *self;
        self.speechlets.remove_keys(&self.grid, &deaths);
        proof {
            assert forall|x: u64| #[trigger] self.speechlets.items().contains_key(x)
                implies speechlet_ok(self.speechlets.items()[x]) by {
                assert(speechlet_ok(before.speechlets.items()[x]));
            }
            assert forall|x: u64| #[trigger] self.speechlets.items().contains_key(x)
                <==> (old(self).speechlets.items().contains_key(x) && softened(old(self).speechlets.items()[x]) > 0) by {
                if old(self).speechlets.items().contains_key(x) {
                    assert(keys@.contains(x));
                }
            }
        }
        assert forall|x: u64| #[trigger] self.speechlets.items().contains_key(x) implies
            signal_age_of(self.speechlets.items()[x]) == softened(old(self).speechlets.items()[x]) by {
            assert(keys@.contains(x));
            let j = choose|j: int| 0 <= j < keys.len() && #[trigger] keys@[j] == x;
        }
    }
} // impl World

} // verus!

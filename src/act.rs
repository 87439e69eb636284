//! Perceive and act: each being's observation batches go to its controller,
//! and the action that comes back is applied.
use crate::consts::{
    BEING_ROW_LEN, B_START_ENERGY, SENTINEL, SPAWN_O_COST, SPAWN_S_COST, SPEECHLET_LEN, THING_ROW_LEN,
};
use crate::entity::{being_ok, Action, Being, Entity, Kind, VALUE_CAP};
use crate::genome::SumFxModel;
use crate::geometry::{clamp, clamped, div_toward_zero, tdiv, in_box, isqrt, lemma_tdiv_bound, unit_box};
use crate::grid::{Point, UNIT};
use crate::perception::{filled, is_border_in_sight, ratio, relative, wall_spec, Observation, SIGNAL_SENTINEL};
use crate::store::{Store, MAX_ENTITIES};
use crate::world::World;
use vstd::prelude::*;

verus! {

/// `r` is `a` with every field brought within its bounds.
pub open spec fn sanitized(a: Action, r: Action) -> bool {
    &&& r.thrust == clamped(a.thrust as int, UNIT as int)
    &&& r.turn == clamped(a.turn as int, UNIT as int)
    &&& r.turn_cos == clamped(a.turn_cos as int, UNIT as int)
    &&& r.turn_sin == clamped(a.turn_sin as int, UNIT as int)
    &&& r.spawn_obstruct == a.spawn_obstruct
    &&& r.speak == a.speak
    &&& r.payload@ == Seq::new(SPEECHLET_LEN as nat, |i: int| if i < a.payload.len() { a.payload@[i] } else { 0u32 })
}

/// The being part of an entity.
pub open spec fn being_of(e: Entity) -> Being {
    match e.kind {
        Kind::Being(b) => b,
        _ => arbitrary(),
    }
}

/// What a being at `p` is shown: each of its three buffers followed by one
/// sentinel row, and its own row (walls in sight, then energy over the
/// starting energy).
pub open spec fn observed(p: Point, b: Being, side: int, obs: Observation) -> bool {
    &&& obs.beings@ == b.being_inputs@.push(obs.beings@.last())
    &&& obs.beings@.last()@ == Seq::new(BEING_ROW_LEN as nat, |i: int| SENTINEL)
    &&& obs.things@ == b.food_obstruct_inputs@.push(obs.things@.last())
    &&& obs.things@.last()@ == Seq::new(THING_ROW_LEN as nat, |i: int| SENTINEL)
    &&& obs.signals@ == b.speechlet_inputs@.push(obs.signals@.last())
    &&& obs.signals@.last()@ == Seq::new(SPEECHLET_LEN as nat, |i: int| SIGNAL_SENTINEL)
    &&& obs.own@ == seq![wall_spec(p.x as int, side).0 as i64, wall_spec(p.x as int, side).1 as i64,
        wall_spec(p.y as int, side).0 as i64, wall_spec(p.y as int, side).1 as i64,
        ratio(b.energy as int, B_START_ENERGY as int) as i64]
}

/// The energy change after paying for the action's obstacle, then its
/// signal, each within the value bound.
pub open spec fn charged(u: int, a: Action) -> int {
    let u1 = if a.spawn_obstruct { clamped(u - SPAWN_O_COST, VALUE_CAP as int) } else { u };
    if a.speak { clamped(u1 - SPAWN_S_COST, VALUE_CAP as int) } else { u1 }
}

/// A being after perceiving and acting: shown its observation, the
/// controller answered `a`; the being keeps `a` sanitised as its action and
/// pays for it, and its buffers are empty.
pub open spec fn acted<F: Fn(&SumFxModel, Observation) -> Action>(e0: Entity, e1: Entity, side: int, controller: F) -> bool {
    e0.kind matches Kind::Being(b0) ==> e1.kind matches Kind::Being(b1) && e1.pos == e0.pos && exists|obs: Observation, a: Action|
        #![trigger controller.ensures((&b0.model, obs), a)]
        observed(e0.pos, b0, side, obs) && controller.ensures((&b0.model, obs), a) && sanitized(a, b1.output)
            && b1.energy_update == charged(b0.energy_update as int, a) && b1.energy == b0.energy
            && b1.turn_pending && b1.heading == b0.heading
}

/// The being placed an obstacle at `p`: two units ahead of it.
pub open spec fn spawned_at(e: Entity, p: Point) -> bool {
    let b = being_of(e);
    b.output.spawn_obstruct && p == (Point { x: (e.pos.x + 2 * b.heading.x) as i64, y: (e.pos.y + 2 * b.heading.y) as i64 })
}

/// The being emitted a signal at `p` carrying `payload`: at its own position,
/// with its action's payload.
pub open spec fn spoke_at(e: Entity, p: Point, payload: Seq<u32>) -> bool {
    let b = being_of(e);
    b.output.speak && p == e.pos && payload == b.output.payload@
}

/// The payload of a signal.
pub open spec fn payload_of(e: Entity) -> Seq<u32> {
    match e.kind {
        Kind::Speechlet(s) => s.speechlet@,
        _ => Seq::empty(),
    }
}

/// A being whose three observation buffers are empty.
pub open spec fn buffers_empty(e: crate::entity::Entity) -> bool {
    e.kind matches Kind::Being(b) ==> b.being_inputs.len() == 0 && b.food_obstruct_inputs.len() == 0
        && b.speechlet_inputs.len() == 0
}

/// An action with every field brought within its bounds: thrust, turn and
/// the turn's cosine and sine clamped to `[-UNIT, UNIT]`, and the payload cut
/// or padded with zeros to its length.
pub fn sanitize(a: Action) -> (r: Action)
    ensures
        r.wf(),
        r.thrust == crate::geometry::clamped(a.thrust as int, UNIT as int),
        r.turn == crate::geometry::clamped(a.turn as int, UNIT as int),
        r.turn_cos == crate::geometry::clamped(a.turn_cos as int, UNIT as int),
        r.turn_sin == crate::geometry::clamped(a.turn_sin as int, UNIT as int),
        r.spawn_obstruct == a.spawn_obstruct,
        r.speak == a.speak,
        forall|i: int| 0 <= i < SPEECHLET_LEN && i < a.payload.len() ==> #[trigger] r.payload[i] == a.payload[i],
        forall|i: int| a.payload.len() <= i < SPEECHLET_LEN ==> #[trigger] r.payload[i] == 0,
        sanitized(a, r),
{
    let mut payload: Vec<u32> = Vec::new();
    let mut i: usize = 0;
    while i < SPEECHLET_LEN
        invariant
            i <= SPEECHLET_LEN,
            payload.len() == i,
            forall|j: int| 0 <= j < i && j < a.payload.len() ==> #[trigger] payload[j] == a.payload[j],
            forall|j: int| a.payload.len() <= j < i ==> #[trigger] payload[j] == 0,
        decreases SPEECHLET_LEN - i,
    {
        if i < a.payload.len() {
            payload.push(a.payload[i]);
        } else {
            payload.push(0);
        }
        i = i + 1;
    }
    assert(payload@ =~= Seq::new(SPEECHLET_LEN as nat, |i: int| if i < a.payload.len() { a.payload@[i] } else { 0u32 }));
    Action {
        thrust: clamp(a.thrust, UNIT),
        turn: clamp(a.turn, UNIT),
        turn_cos: clamp(a.turn_cos, UNIT),
        turn_sin: clamp(a.turn_sin, UNIT),
        spawn_obstruct: a.spawn_obstruct,
        speak: a.speak,
        payload,
    }
}

/// The heading `h` turned by the angle whose cosine and sine (in sub-units)
/// are `c` and `s`, then brought back to length `UNIT` (each coordinate
/// within `[-UNIT, UNIT]`); `h` itself when the turned vector vanishes.
pub open spec fn rotate_spec(h: Point, c: int, s: int) -> Point {
    let x = tdiv(h.x * c - h.y * s, UNIT as int);
    let y = tdiv(h.x * s + h.y * c, UNIT as int);
    let n = crate::geometry::floor_sqrt(x * x + y * y);
    if n == 0 {
        h
    } else {
        Point { x: clamped(tdiv(x * UNIT, n), UNIT as int) as i64, y: clamped(tdiv(y * UNIT, n), UNIT as int) as i64 }
    }
}

/// A heading turned by the angle whose cosine and sine (in sub-units) are
/// given, then brought back to length `UNIT`; it stays as it was when the
/// turned vector vanishes.
pub fn rotate(h: Point, c: i64, s: i64) -> (r: Point)
    requires
        unit_box(h),
        -UNIT <= c <= UNIT,
        -UNIT <= s <= UNIT,
    ensures
        unit_box(r),
        r == rotate_spec(h, c as int, s as int),
{
    assert(-UNIT * UNIT <= h.x * c <= UNIT * UNIT && -UNIT * UNIT <= h.y * s <= UNIT * UNIT
        && -UNIT * UNIT <= h.x * s <= UNIT * UNIT && -UNIT * UNIT <= h.y * c <= UNIT * UNIT) by (nonlinear_arith)
        requires -UNIT <= h.x <= UNIT, -UNIT <= h.y <= UNIT, -UNIT <= c <= UNIT, -UNIT <= s <= UNIT;
    let x = div_toward_zero(h.x * c - h.y * s, UNIT);
    let y = div_toward_zero(h.x * s + h.y * c, UNIT);
    proof {
        lemma_tdiv_bound(h.x * c - h.y * s, UNIT as int, 2 * UNIT);
        lemma_tdiv_bound(h.x * s + h.y * c, UNIT as int, 2 * UNIT);
    }
    assert(0 <= x * x <= 4 * UNIT * UNIT && 0 <= y * y <= 4 * UNIT * UNIT) by (nonlinear_arith)
        requires -2 * UNIT <= x <= 2 * UNIT, -2 * UNIT <= y <= 2 * UNIT;
    let n = isqrt((x * x + y * y) as u64);
    proof {
        crate::geometry::lemma_sqrt_unique((x * x + y * y) as int, n as int);
    }
    if n == 0 {
        h
    } else {
        assert(n <= 4 * UNIT) by (nonlinear_arith)
            requires n * n <= x * x + y * y, x * x + y * y <= 8 * UNIT * UNIT, n >= 0;
        assert(-2 * UNIT * UNIT <= x * UNIT <= 2 * UNIT * UNIT && -2 * UNIT * UNIT <= y * UNIT <= 2 * UNIT * UNIT) by (nonlinear_arith)
            requires -2 * UNIT <= x <= 2 * UNIT, -2 * UNIT <= y <= 2 * UNIT;
        let nx = div_toward_zero(x * UNIT, n as i64);
        let ny = div_toward_zero(y * UNIT, n as i64);
        Point { x: clamp(nx, UNIT), y: clamp(ny, UNIT) }
    }
}

/// The contract of `World::perform_being_outputs`, as a relation between the world before
/// and after.
pub open spec fn acted_world<F: Fn(&SumFxModel, Observation) -> Action>(w0: World, w1: World, controller: F) -> bool {
    &&& w1.wf()
    &&& w1.grid == w0.grid
    &&& w1.foods == w0.foods
    &&& w1.food_deaths == w0.food_deaths
    &&& w1.beings_and_models.items().dom() == w0.beings_and_models.items().dom()
    &&& forall|x: u64| #[trigger] w1.beings_and_models.items().contains_key(x) ==> buffers_empty(w1.beings_and_models.items()[x])
    &&& forall|x: u64| #[trigger] w1.beings_and_models.items().contains_key(x) ==> acted(w0.beings_and_models.items()[x], w1.beings_and_models.items()[x], w0.grid.side(), controller)
    &&& forall|y: u64| #[trigger] w1.obstructs.items().contains_key(y) && !w0.obstructs.items().contains_key(y) ==> exists|x: u64| w1.beings_and_models.items().contains_key(x) && #[trigger] spawned_at(w1.beings_and_models.items()[x], w1.obstructs.items()[y].pos)
    &&& forall|y: u64| #[trigger] w1.speechlets.items().contains_key(y) && !w0.speechlets.items().contains_key(y) ==> exists|x: u64| w1.beings_and_models.items().contains_key(x) && #[trigger] spoke_at(w1.beings_and_models.items()[x], w1.speechlets.items()[y].pos, payload_of(w1.speechlets.items()[y]))
}

impl World {
    /// Perceive and act: each being's three observation batches, each closed
    /// by a sentinel row, and its own row (walls in sight and relative
    /// energy) go to `controller` with its genome; its buffers are left
    /// empty. The action that comes back is sanitised and kept for the next
    /// movement, and its turn is applied at the next commit; placing an obstacle two units ahead
    /// or emitting a signal costs energy, and they appear once every being
    /// has acted, where they fall inside the arena.
    pub fn perform_being_outputs<F: Fn(&SumFxModel, Observation) -> Action>(&mut self, controller: &F)
        requires
            old(self).wf(),
            forall|m: &SumFxModel, o: Observation| o.wf() ==> controller.requires((m, o)),
        ensures
            final(self).wf(),
            final(self).grid == old(self).grid,
            final(self).foods == old(self).foods,
            final(self).food_deaths == old(self).food_deaths,
            final(self).beings_and_models.items().dom() == old(self).beings_and_models.items().dom(),
            forall|x: u64| #[trigger] final(self).beings_and_models.items().contains_key(x)
                ==> buffers_empty(final(self).beings_and_models.items()[x]),
            forall|x: u64| #[trigger] final(self).beings_and_models.items().contains_key(x)
                ==> acted(old(self).beings_and_models.items()[x], final(self).beings_and_models.items()[x],
                old(self).grid.side(), *controller),
            forall|y: u64| #[trigger] final(self).obstructs.items().contains_key(y) && !old(self).obstructs.items().contains_key(y)
                ==> exists|x: u64| final(self).beings_and_models.items().contains_key(x)
                && #[trigger] spawned_at(final(self).beings_and_models.items()[x], final(self).obstructs.items()[y].pos),
            forall|y: u64| #[trigger] final(self).speechlets.items().contains_key(y) && !old(self).speechlets.items().contains_key(y)
                ==> exists|x: u64| final(self).beings_and_models.items().contains_key(x)
                && #[trigger] spoke_at(final(self).beings_and_models.items()[x], final(self).speechlets.items()[y].pos,
                payload_of(final(self).speechlets.items()[y])),
            acted_world(*old(self), *final(self), *controller),
    {
        let side = self.grid.n_cells as i64 * self.grid.cell_len;
        let keys = self.beings_and_models.keys();
        let mut obstacles: Vec<Point> = Vec::new();
        let mut signals: Vec<(Point, Vec<u32>)> = Vec::new();
        let ghost mut owners_o: Seq<int> = Seq::empty();
        let ghost mut owners_s: Seq<int> = Seq::empty();
        let mut i: usize = 0;
        while i < keys.len()
            invariant
                self.wf(),
                side == self.grid.side(),
                self.grid == old(self).grid,
                self.foods == old(self).foods,
                self.food_deaths == old(self).food_deaths,
                self.obstructs == old(self).obstructs,
                self.speechlets == old(self).speechlets,
                forall|k: u64| keys@.contains(k) <==> old(self).beings_and_models.items().contains_key(k),
                self.beings_and_models.items().dom() == old(self).beings_and_models.items().dom(),
                forall|m: &SumFxModel, o: Observation| o.wf() ==> controller.requires((m, o)),
                forall|j: int| 0 <= j < signals.len() ==> in_box((#[trigger] signals[j]).0) && signals[j].1.len() == SPEECHLET_LEN,
                i <= keys.len(),
                forall|j: int| #![trigger keys@[j]] 0 <= j < i ==> buffers_empty(self.beings_and_models.items()[keys@[j]]),
                keys@.no_duplicates(),
                forall|j: int| #![trigger keys@[j]] i <= j < keys.len() ==>
                    self.beings_and_models.items()[keys@[j]] == old(self).beings_and_models.items()[keys@[j]],
                forall|j: int| #![trigger keys@[j]] 0 <= j < i ==> acted(old(self).beings_and_models.items()[keys@[j]],
                    self.beings_and_models.items()[keys@[j]], side as int, *controller),
                owners_o.len() == obstacles.len(),
                forall|j: int| #![trigger owners_o[j]] 0 <= j < owners_o.len() ==> 0 <= owners_o[j] < i
                    && self.beings_and_models.items().contains_key(keys@[owners_o[j]])
                    && spawned_at(self.beings_and_models.items()[keys@[owners_o[j]]], obstacles@[j]),
                owners_s.len() == signals.len(),
                forall|j: int| #![trigger owners_s[j]] 0 <= j < owners_s.len() ==> 0 <= owners_s[j] < i
                    && self.beings_and_models.items().contains_key(keys@[owners_s[j]])
                    && spoke_at(self.beings_and_models.items()[keys@[owners_s[j]]], signals@[j].0, signals@[j].1@),
            decreases keys.len() - i,
        {
            let k = keys[i];
            assert(keys@.contains(k));
            assert(being_ok(self.beings_and_models.items()[k]));
            let mut being_rows: Vec<Vec<i64>> = Vec::new();
            let mut thing_rows: Vec<Vec<i64>> = Vec::new();
            let mut signal_rows: Vec<Vec<u32>> = Vec::new();
            let ghost before = *self;
            let ghost b0 = being_of(before.beings_and_models.items()[k]);
            assert(before.beings_and_models.items()[k] == old(self).beings_and_models.items()[k]);
            let bm = self.beings_and_models.kind_mut(k);
            if let Kind::Being(b) = bm {
                std::mem::swap(&mut being_rows, &mut b.being_inputs);
                std::mem::swap(&mut thing_rows, &mut b.food_obstruct_inputs);
                std::mem::swap(&mut signal_rows, &mut b.speechlet_inputs);
                assert(forall|r: int| 0 <= r < being_rows.len() ==> (#[trigger] being_rows[r]).len() == BEING_ROW_LEN);
                assert(forall|r: int| 0 <= r < thing_rows.len() ==> (#[trigger] thing_rows[r]).len() == THING_ROW_LEN);
                assert(forall|r: int| 0 <= r < signal_rows.len() ==> (#[trigger] signal_rows[r]).len() == SPEECHLET_LEN);
            }
            proof {
                assert(self.beings_and_models.items().dom() =~= before.beings_and_models.items().dom());
                Store::lemma_same_layout(before.beings_and_models, self.beings_and_models, &self.grid);
                assert forall|x: u64| #[trigger] self.beings_and_models.items().contains_key(x)
                    implies being_ok(self.beings_and_models.items()[x]) by {
                    assert(being_ok(before.beings_and_models.items()[x]));
                }
            }
            assert(being_rows@ == b0.being_inputs@ && thing_rows@ == b0.food_obstruct_inputs@
                && signal_rows@ == b0.speechlet_inputs@);
            being_rows.push(filled(BEING_ROW_LEN, SENTINEL));
            thing_rows.push(filled(THING_ROW_LEN, SENTINEL));
            signal_rows.push(filled(SPEECHLET_LEN, SIGNAL_SENTINEL));
            assert(forall|r: int| 0 <= r < being_rows.len() ==> (#[trigger] being_rows[r]).len() == BEING_ROW_LEN);
            assert(forall|r: int| 0 <= r < thing_rows.len() ==> (#[trigger] thing_rows[r]).len() == THING_ROW_LEN);
            assert(forall|r: int| 0 <= r < signal_rows.len() ==> (#[trigger] signal_rows[r]).len() == SPEECHLET_LEN);
            let e = self.beings_and_models.get(k);
            let pos = e.pos;
            if let Kind::Being(b) = &e.kind {
                let mut own = is_border_in_sight(pos, side);
                own.push(relative(b.energy, B_START_ENERGY));
                let obs = Observation { beings: being_rows, things: thing_rows, signals: signal_rows, own };
                assert(obs.wf());
                let ghost obs_g = obs;
                assert(b.model == b0.model && b.energy == b0.energy && pos == old(self).beings_and_models.items()[k].pos);
                assert(obs_g.beings@ =~= b0.being_inputs@.push(obs_g.beings@.last()));
                assert(obs_g.things@ =~= b0.food_obstruct_inputs@.push(obs_g.things@.last()));
                assert(obs_g.signals@ =~= b0.speechlet_inputs@.push(obs_g.signals@.last()));
                assert(obs_g.own@ =~= seq![wall_spec(pos.x as int, side as int).0 as i64, wall_spec(pos.x as int, side as int).1 as i64,
                    wall_spec(pos.y as int, side as int).0 as i64, wall_spec(pos.y as int, side as int).1 as i64,
                    ratio(b0.energy as int, B_START_ENERGY as int) as i64]);
                assert(observed(pos, b0, side as int, obs_g));
                let raw = controller(&b.model, obs);
                let action = sanitize(raw);
                let ghost mid = *self;
                let ghost olen = obstacles.len();
                let ghost slen = signals.len();
                let bm = self.beings_and_models.kind_mut(k);
                if let Kind::Being(b) = bm {
                    b.turn_pending = true;
                    if action.spawn_obstruct {
                        b.energy_update = clamp(b.energy_update - SPAWN_O_COST, VALUE_CAP);
                        obstacles.push(Point { x: pos.x + 2 * b.heading.x, y: pos.y + 2 * b.heading.y });
                    }
                    if action.speak {
                        b.energy_update = clamp(b.energy_update - SPAWN_S_COST, VALUE_CAP);
                        signals.push((pos, crate::genome::copy_vec(&action.payload)));
                    }
                    b.output = action;
                }
                proof {
                    if obstacles.len() > olen {
                        owners_o = owners_o.push(i as int);
                    }
                    if signals.len() > slen {
                        owners_s = owners_s.push(i as int);
                    }
                    assert(keys@.contains(k));
                    assert forall|j: int| #![trigger owners_o[j]] 0 <= j < owners_o.len() implies 0 <= owners_o[j] < i + 1
                        && self.beings_and_models.items().contains_key(keys@[owners_o[j]])
                        && spawned_at(self.beings_and_models.items()[keys@[owners_o[j]]], obstacles@[j]) by {
                        if j < olen {
                            assert(keys@[owners_o[j]] != k);
                        }
                    }
                    assert forall|j: int| #![trigger owners_s[j]] 0 <= j < owners_s.len() implies 0 <= owners_s[j] < i + 1
                        && self.beings_and_models.items().contains_key(keys@[owners_s[j]])
                        && spoke_at(self.beings_and_models.items()[keys@[owners_s[j]]], signals@[j].0, signals@[j].1@) by {
                        if j < slen {
                            assert(keys@[owners_s[j]] != k);
                        }
                    }
                    assert(acted(old(self).beings_and_models.items()[k], self.beings_and_models.items()[k], side as int, *controller));
                    assert(buffers_empty(mid.beings_and_models.items()[k]));
                    assert(self.beings_and_models.items().dom() =~= mid.beings_and_models.items().dom());
                    Store::lemma_same_layout(mid.beings_and_models, self.beings_and_models, &self.grid);
                    assert forall|x: u64| #[trigger] self.beings_and_models.items().contains_key(x)
                        implies being_ok(self.beings_and_models.items()[x]) by {
                        assert(being_ok(mid.beings_and_models.items()[x]));
                    }
                }
            }
            proof {
                assert(buffers_empty(self.beings_and_models.items()[k]));
                assert forall|j: int| #![trigger keys@[j]] i + 1 <= j < keys.len() implies
                    self.beings_and_models.items()[keys@[j]] == old(self).beings_and_models.items()[keys@[j]] by {
                    assert(keys@[j] != k);
                }
                assert forall|j: int| #![trigger keys@[j]] 0 <= j < i + 1 implies acted(old(self).beings_and_models.items()[keys@[j]],
                    self.beings_and_models.items()[keys@[j]], side as int, *controller) by {
                    if j < i {
                        assert(keys@[j] != k);
                    }
                }
            }
            i = i + 1;
        }
        assert forall|x: u64| #[trigger] self.beings_and_models.items().contains_key(x)
            implies buffers_empty(self.beings_and_models.items()[x]) by {
            assert(keys@.contains(x));
            let j = choose|j: int| 0 <= j < keys.len() && #[trigger] keys@[j] == x;
        }
        assert forall|x: u64| #[trigger] self.beings_and_models.items().contains_key(x)
            implies acted(old(self).beings_and_models.items()[x], self.beings_and_models.items()[x], side as int, *controller) by {
            assert(keys@.contains(x));
            let j = choose|j: int| 0 <= j < keys.len() && #[trigger] keys@[j] == x;
        }
        let ghost before_spawn = *self;
        let ghost mut from_o: Map<u64, int> = Map::empty();
        let mut j: usize = 0;
        while j < obstacles.len()
            invariant
                self.wf(),
                j <= obstacles.len(),
                self.speechlets == old(self).speechlets,
                owners_o.len() == obstacles.len(),
                forall|m: int| #![trigger owners_o[m]] 0 <= m < owners_o.len() ==>
                    before_spawn.beings_and_models.items().contains_key(keys@[owners_o[m]])
                    && spawned_at(before_spawn.beings_and_models.items()[keys@[owners_o[m]]], obstacles@[m]),
                forall|y: u64| #[trigger] self.obstructs.items().contains_key(y) && !old(self).obstructs.items().contains_key(y)
                    ==> from_o.contains_key(y) && 0 <= from_o[y] < j && self.obstructs.items()[y].pos == obstacles@[from_o[y]],
                side == self.grid.side(),
                self.grid == old(self).grid,
                self.foods == old(self).foods,
                self.food_deaths == old(self).food_deaths,
                self.beings_and_models == before_spawn.beings_and_models,
                self.beings_and_models.items().dom() == old(self).beings_and_models.items().dom(),
            decreases obstacles.len() - j,
        {
            let p = obstacles[j];
            if 0 <= p.x && p.x < side && 0 <= p.y && p.y < side
                && self.obstructs.len() < MAX_ENTITIES {
                let ghost pre = self.obstructs;
                let k = self.add_obstruct(p);
                proof {
                    from_o = from_o.insert(k, j as int);
                    assert forall|y: u64| #[trigger] self.obstructs.items().contains_key(y) && !old(self).obstructs.items().contains_key(y)
                        implies from_o.contains_key(y) && 0 <= from_o[y] < j + 1 && self.obstructs.items()[y].pos == obstacles@[from_o[y]] by {
                        if y != k {
                            assert(pre.items().contains_key(y));
                        }
                    }
                }
            }
            j = j + 1;
        }
        let ghost before_signals = *self;
        let ghost mut from_s: Map<u64, int> = Map::empty();
        let mut j: usize = 0;
        while j < signals.len()
            invariant
                self.wf(),
                j <= signals.len(),
                self.obstructs == before_signals.obstructs,
                owners_s.len() == signals.len(),
                forall|m: int| #![trigger owners_s[m]] 0 <= m < owners_s.len() ==>
                    before_spawn.beings_and_models.items().contains_key(keys@[owners_s[m]])
                    && spoke_at(before_spawn.beings_and_models.items()[keys@[owners_s[m]]], signals@[m].0, signals@[m].1@),
                forall|y: u64| #[trigger] self.speechlets.items().contains_key(y) && !old(self).speechlets.items().contains_key(y)
                    ==> from_s.contains_key(y) && 0 <= from_s[y] < j && self.speechlets.items()[y].pos == signals@[from_s[y]].0
                    && payload_of(self.speechlets.items()[y]) == signals@[from_s[y]].1@,
                side == self.grid.side(),
                self.grid == old(self).grid,
                self.foods == old(self).foods,
                self.food_deaths == old(self).food_deaths,
                self.beings_and_models == before_spawn.beings_and_models,
                self.beings_and_models.items().dom() == old(self).beings_and_models.items().dom(),
                forall|m: int| 0 <= m < signals.len() ==> (#[trigger] signals[m]).1.len() == SPEECHLET_LEN,
            decreases signals.len() - j,
        {
            let p = signals[j].0;
            if 0 <= p.x && p.x < side && 0 <= p.y && p.y < side
                && self.speechlets.len() < MAX_ENTITIES {
                let payload = crate::genome::copy_vec(&signals[j].1);
                let ghost pre = self.speechlets;
                let k = self.add_speechlet(payload, p);
                proof {
                    from_s = from_s.insert(k, j as int);
                    assert forall|y: u64| #[trigger] self.speechlets.items().contains_key(y) && !old(self).speechlets.items().contains_key(y)
                        implies from_s.contains_key(y) && 0 <= from_s[y] < j + 1 && self.speechlets.items()[y].pos == signals@[from_s[y]].0
                        && payload_of(self.speechlets.items()[y]) == signals@[from_s[y]].1@ by {
                        if y != k {
                            assert(pre.items().contains_key(y));
                        }
                    }
                }
            }
            j = j + 1;
        }
        assert forall|y: u64| #[trigger] self.obstructs.items().contains_key(y) && !old(self).obstructs.items().contains_key(y)
            implies exists|x: u64| self.beings_and_models.items().contains_key(x)
            && #[trigger] spawned_at(self.beings_and_models.items()[x], self.obstructs.items()[y].pos) by {
            let m = from_o[y];
            let x = keys@[owners_o[m]];
            assert(spawned_at(self.beings_and_models.items()[x], self.obstructs.items()[y].pos));
        }
        assert forall|y: u64| #[trigger] self.speechlets.items().contains_key(y) && !old(self).speechlets.items().contains_key(y)
            implies exists|x: u64| self.beings_and_models.items().contains_key(x)
            && #[trigger] spoke_at(self.beings_and_models.items()[x], self.speechlets.items()[y].pos,
            payload_of(self.speechlets.items()[y])) by {
            let m = from_s[y];
            let x = keys@[owners_s[m]];
            assert(spoke_at(self.beings_and_models.items()[x], self.speechlets.items()[y].pos, payload_of(self.speechlets.items()[y])));
        }
    }
} // impl World

} // verus!

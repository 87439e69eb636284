//! Perception: the observation rows a being records about what it touches
//! or sees, and the collision effects it accumulates for itself.
use crate::consts::{
    BEING_ROW_LEN, B_FOV_LEN, B_START_ENERGY, F_VAL, GENOME_LEN, O_START_HEALTH, SELF_ROW_LEN, SENTINEL, SPEECHLET_LEN,
    THING_ROW_LEN,
};
use crate::entity::{Being, Food, Obstruct, Speechlet, VALUE_CAP};
use crate::geometry::{
    bearing, bearing_spec, contact, contact_ok, div_toward_zero, in_box, tdiv, unit_box, Contact, MAX_COORD, MAX_RADIUS,
    STEP_CAP,
};
use crate::grid::{Point, UNIT};
use vstd::prelude::*;

verus! {

/// What a being knows of itself while it scans its neighbourhood.
#[derive(Clone, Copy)]
pub struct Subject {
    pub key: u64,
    pub pos: Point,
    pub radius: i64,
    pub heading: Point,
    pub energy: i64,
    pub id: u64,
}

impl Subject {
    pub open spec fn wf(&self) -> bool {
        &&& in_box(self.pos)
        &&& 0 <= self.radius <= MAX_RADIUS
        &&& unit_box(self.heading)
        &&& -VALUE_CAP <= self.energy <= VALUE_CAP
    }
}

/// The effects a being accumulates during one scan, applied at commit.
pub struct Accum {
    pub pos_update: Point,
    pub energy_update: i64,
    pub being_rows: Vec<Vec<i64>>,
    pub thing_rows: Vec<Vec<i64>>,
    pub signal_rows: Vec<Vec<u32>>,
}

impl Accum {
    pub open spec fn wf(&self) -> bool {
        &&& -MAX_COORD <= self.pos_update.x <= MAX_COORD
        &&& -MAX_COORD <= self.pos_update.y <= MAX_COORD
        &&& -VALUE_CAP <= self.energy_update <= VALUE_CAP
        &&& forall|i: int| 0 <= i < self.being_rows.len() ==> (#[trigger] self.being_rows[i]).len() == BEING_ROW_LEN
        &&& forall|i: int| 0 <= i < self.thing_rows.len() ==> (#[trigger] self.thing_rows[i]).len() == THING_ROW_LEN
        &&& forall|i: int| 0 <= i < self.signal_rows.len() ==> (#[trigger] self.signal_rows[i]).len() == SPEECHLET_LEN
    }
}

/// A value relative to a reference, in sub-units: `v * UNIT / reference`,
/// rounded toward zero.
pub open spec fn ratio(v: int, reference: int) -> int {
    tdiv(v * UNIT, reference)
}

/// Scales a bounded value against a positive reference.
pub fn relative(v: i64, reference: i64) -> (r: i64)
    requires
        -VALUE_CAP <= v <= VALUE_CAP,
        reference > 0,
    ensures
        r == ratio(v as int, reference as int),
        -VALUE_CAP * UNIT <= r <= VALUE_CAP * UNIT,
{
    assert(-VALUE_CAP * UNIT <= v * UNIT <= VALUE_CAP * UNIT) by (nonlinear_arith)
        requires -VALUE_CAP <= v <= VALUE_CAP;
    div_toward_zero(v * UNIT, reference)
}

/// A peer's row: bearing sine and cosine, distance over the field of view,
/// energy over the starting energy, then the peer's trait vector.
pub open spec fn being_row_spec(s: Subject, other_pos: Point, other: Being, ct: Contact) -> Seq<i64> {
    let b = bearing_spec(s.heading, ct.rel, ct.dist as int);
    seq![b.0 as i64, b.1 as i64, ratio(ct.dist as int, B_FOV_LEN as int) as i64,
        ratio(other.energy as int, B_START_ENERGY as int) as i64] + other.genome@
}

/// The contact of a subject with another being, and the row it records.
pub fn b_collides_b(s: &Subject, other_pos: Point, other: &Being) -> (r: (Contact, Vec<i64>))
    requires
        s.wf(),
        in_box(other_pos),
        other.wf(),
    ensures
        contact_ok(r.0, s.pos, other_pos, s.radius + other.radius),
        r.1@ == being_row_spec(*s, other_pos, *other, r.0),
        r.1.len() == BEING_ROW_LEN,
{
    let ct = contact(s.pos, other_pos, s.radius + other.radius);
    let b = bearing(s.heading, ct.rel, ct.dist);
    let mut row: Vec<i64> = Vec::new();
    row.push(b.0);
    row.push(b.1);
    row.push(relative(ct.dist, B_FOV_LEN));
    row.push(relative(other.energy, B_START_ENERGY));
    let ghost head = row@;
    let mut i: usize = 0;
    while i < GENOME_LEN
        invariant
            other.wf(),
            i <= GENOME_LEN,
            row@ == head + other.genome@.take(i as int),
        decreases GENOME_LEN - i,
    {
        row.push(other.genome[i]);
        assert(other.genome@.take(i + 1) =~= other.genome@.take(i as int).push(other.genome@[i as int]));
        i = i + 1;
    }
    assert(other.genome@.take(GENOME_LEN as int) =~= other.genome@);
    (ct, row)
}

/// A food or obstacle row: kind (`UNIT` for food, 0 for an obstacle),
/// distance over the field of view, bearing sine and cosine, and the food's
/// value over its full value or the obstacle's age over its full health.
pub open spec fn thing_row_spec(s: Subject, ct: Contact, is_food: bool, amount: int) -> Seq<i64> {
    let b = bearing_spec(s.heading, ct.rel, ct.dist as int);
    let kind: i64 = if is_food { UNIT } else { 0 };
    let value = if is_food { ratio(amount, F_VAL as int) } else { ratio(amount, O_START_HEALTH as int) };
    seq![kind, ratio(ct.dist as int, B_FOV_LEN as int) as i64, b.0 as i64, b.1 as i64, value as i64]
}

/// Builds a food or obstacle row.
fn thing_row(s: &Subject, ct: &Contact, is_food: bool, amount: i64) -> (r: Vec<i64>)
    requires
        s.wf(),
        -MAX_COORD <= ct.rel.x <= MAX_COORD,
        -MAX_COORD <= ct.rel.y <= MAX_COORD,
        0 <= ct.dist <= 2 * MAX_COORD,
        -VALUE_CAP <= amount <= VALUE_CAP,
    ensures
        r@ == thing_row_spec(*s, *ct, is_food, amount as int),
{
    let b = bearing(s.heading, ct.rel, ct.dist);
    let kind: i64 = if is_food { UNIT } else { 0 };
    let value = if is_food { relative(amount, F_VAL) } else { relative(amount, O_START_HEALTH) };
    let r = vec![kind, relative(ct.dist, B_FOV_LEN), b.0, b.1, value];
    assert(r@ =~= thing_row_spec(*s, *ct, is_food, amount as int));
    r
}

/// The contact of a subject with an obstacle, and the row it records.
pub fn b_collides_o(s: &Subject, o_pos: Point, o: &Obstruct, o_radius: i64) -> (r: (Contact, Vec<i64>))
    requires
        s.wf(),
        in_box(o_pos),
        0 <= o_radius <= MAX_RADIUS,
        -VALUE_CAP <= o.age <= VALUE_CAP,
    ensures
        contact_ok(r.0, s.pos, o_pos, s.radius + o_radius),
        r.1@ == thing_row_spec(*s, r.0, false, o.age as int),
        r.1.len() == THING_ROW_LEN,
{
    let ct = contact(s.pos, o_pos, s.radius + o_radius);
    let row = thing_row(s, &ct, false, o.age);
    (ct, row)
}

/// The contact of a subject with a food item, and the row it records.
pub fn b_collides_f(s: &Subject, f_pos: Point, f: &Food, f_radius: i64) -> (r: (Contact, Vec<i64>))
    requires
        s.wf(),
        in_box(f_pos),
        0 <= f_radius <= MAX_RADIUS,
        -VALUE_CAP <= f.val <= VALUE_CAP,
    ensures
        contact_ok(r.0, s.pos, f_pos, s.radius + f_radius),
        r.1@ == thing_row_spec(*s, r.0, true, f.val as int),
        r.1.len() == THING_ROW_LEN,
{
    let ct = contact(s.pos, f_pos, s.radius + f_radius);
    let row = thing_row(s, &ct, true, f.val);
    (ct, row)
}

/// The contact of a subject with a signal's current disc.
pub fn b_collides_s(s: &Subject, s_pos: Point, sp: &Speechlet) -> (r: Contact)
    requires
        s.wf(),
        in_box(s_pos),
        0 <= sp.radius <= MAX_RADIUS,
    ensures
        contact_ok(r, s.pos, s_pos, s.radius + sp.radius),
{
    contact(s.pos, s_pos, s.radius + sp.radius)
}

/// Energy lost by a subject that runs into something: `damage` per unit of
/// alignment between its heading and the direction of contact, spread over
/// the substeps; nothing when it is struck from the side or from behind.
pub open spec fn headon_cost_spec(alignment: int, damage: int, substeps: int) -> int {
    if alignment > 0 {
        tdiv(tdiv(damage * alignment, UNIT as int), substeps)
    } else {
        0
    }
}

/// The energy cost of a contact of the given alignment.
pub fn headon_cost(alignment: i64, damage: i64, substeps: i64) -> (r: i64)
    requires
        -2 * UNIT * MAX_COORD <= alignment <= 2 * UNIT * MAX_COORD,
        0 <= damage <= UNIT,
        1 <= substeps,
    ensures
        r == headon_cost_spec(alignment as int, damage as int, substeps as int),
        0 <= r <= 2 * UNIT * MAX_COORD,
{
    if alignment > 0 {
        assert(0 <= damage * alignment <= 2 * UNIT * UNIT * MAX_COORD) by (nonlinear_arith)
            requires 0 <= damage <= UNIT, 0 < alignment <= 2 * UNIT * MAX_COORD;
        let per_unit = div_toward_zero(damage * alignment, UNIT);
        proof {
            crate::geometry::lemma_tdiv_bound(damage * alignment, UNIT as int, 2 * UNIT * MAX_COORD);
        }
        div_toward_zero(per_unit, substeps)
    } else {
        0
    }
}

impl Accum {
    /// An accumulator that starts from a being's pending effects, with no
    /// rows.
    pub fn from_being(b: &Being) -> (r: Accum)
        requires
            b.wf(),
        ensures
            r.wf(),
            r.pos_update == b.pos_update,
            r.energy_update == b.energy_update,
            r.being_rows.len() == 0,
            r.thing_rows.len() == 0,
            r.signal_rows.len() == 0,
    {
        Accum {
            pos_update: b.pos_update,
            energy_update: b.energy_update,
            being_rows: Vec::new(),
            thing_rows: Vec::new(),
            signal_rows: Vec::new(),
        }
    }

    /// Adds to the energy change, within the value bound.
    pub fn add_energy(&mut self, delta: i64)
        requires
            old(self).wf(),
            -STEP_CAP <= delta <= STEP_CAP,
        ensures
            final(self).wf(),
            final(self).energy_update == crate::geometry::clamped(old(self).energy_update + delta, VALUE_CAP as int),
            final(self).pos_update == old(self).pos_update,
            final(self).being_rows@ == old(self).being_rows@,
            final(self).thing_rows@ == old(self).thing_rows@,
            final(self).signal_rows@ == old(self).signal_rows@,
    {
        self.energy_update = crate::geometry::clamp(self.energy_update + delta, VALUE_CAP);
    }

    /// Adds to the displacement, within the arena's bound.
    pub fn add_pos(&mut self, d: Point)
        requires
            old(self).wf(),
            -STEP_CAP <= d.x <= STEP_CAP,
            -STEP_CAP <= d.y <= STEP_CAP,
        ensures
            final(self).wf(),
            final(self).pos_update.x == crate::geometry::clamped(old(self).pos_update.x + d.x, MAX_COORD as int),
            final(self).pos_update.y == crate::geometry::clamped(old(self).pos_update.y + d.y, MAX_COORD as int),
            final(self).energy_update == old(self).energy_update,
            final(self).being_rows@ == old(self).being_rows@,
            final(self).thing_rows@ == old(self).thing_rows@,
            final(self).signal_rows@ == old(self).signal_rows@,
    {
        self.pos_update = Point {
            x: crate::geometry::clamp(self.pos_update.x + d.x, MAX_COORD),
            y: crate::geometry::clamp(self.pos_update.y + d.y, MAX_COORD),
        };
    }
}

/// What a being's controller sees at one perception: one batch of rows per
/// kind of observation, each ending with a sentinel row, and its own row.
pub struct Observation {
    pub beings: Vec<Vec<i64>>,
    pub things: Vec<Vec<i64>>,
    pub signals: Vec<Vec<u32>>,
    pub own: Vec<i64>,
}

impl Observation {
    /// Every batch holds at least one row, every row has its batch's width,
    /// and each batch ends with a sentinel row.
    pub open spec fn wf(&self) -> bool {
        &&& self.beings.len() >= 1
        &&& self.things.len() >= 1
        &&& self.signals.len() >= 1
        &&& forall|i: int| 0 <= i < self.beings.len() ==> (#[trigger] self.beings[i]).len() == BEING_ROW_LEN
        &&& forall|i: int| 0 <= i < self.things.len() ==> (#[trigger] self.things[i]).len() == THING_ROW_LEN
        &&& forall|i: int| 0 <= i < self.signals.len() ==> (#[trigger] self.signals[i]).len() == SPEECHLET_LEN
        &&& self.own.len() == SELF_ROW_LEN
        &&& self.beings@.last()@ == Seq::new(BEING_ROW_LEN as nat, |i: int| SENTINEL)
        &&& self.things@.last()@ == Seq::new(THING_ROW_LEN as nat, |i: int| SENTINEL)
        &&& self.signals@.last()@ == Seq::new(SPEECHLET_LEN as nat, |i: int| SIGNAL_SENTINEL)
    }
}

/// Bit pattern of the float -1.0, which fills a sentinel signal row.
pub const SIGNAL_SENTINEL: u32 = 0xbf80_0000;

/// A row of `n` copies of `v`.
pub fn filled<T: Copy>(n: usize, v: T) -> (r: Vec<T>)
    ensures
        r@ == Seq::new(n as nat, |i: int| v),
{
    let mut r: Vec<T> = Vec::new();
    let mut i: usize = 0;
    while i < n
        invariant
            i <= n,
            r@ == Seq::new(i as nat, |j: int| v),
        decreases n - i,
    {
        r.push(v);
        i = i + 1;
        assert(r@ =~= Seq::new(i as nat, |j: int| v));
    }
    r
}

/// Distance to a wall along one axis, over the field of view, and the side
/// it lies on (`UNIT` high, `-UNIT` low, 0 when neither wall is in sight).
pub open spec fn wall_spec(x: int, side: int) -> (int, int) {
    if x + B_FOV_LEN > side {
        (ratio(side - x, B_FOV_LEN as int), UNIT as int)
    } else if x - B_FOV_LEN < 0 {
        (ratio(x, B_FOV_LEN as int), -UNIT)
    } else {
        (UNIT as int, 0)
    }
}

/// The walls within sight of a point: distance and side along x, then
/// along y.
pub fn is_border_in_sight(pos: Point, side: i64) -> (r: Vec<i64>)
    requires
        in_box(pos),
        0 <= side <= MAX_COORD,
    ensures
        r@ == seq![wall_spec(pos.x as int, side as int).0 as i64, wall_spec(pos.x as int, side as int).1 as i64,
            wall_spec(pos.y as int, side as int).0 as i64, wall_spec(pos.y as int, side as int).1 as i64],
{
    let mut r: Vec<i64> = vec![UNIT, 0, UNIT, 0];
    if pos.x + B_FOV_LEN > side {
        r.set(0, relative(side - pos.x, B_FOV_LEN));
        r.set(1, UNIT);
    } else if pos.x - B_FOV_LEN < 0 {
        r.set(0, relative(pos.x, B_FOV_LEN));
        r.set(1, -UNIT);
    }
    if pos.y + B_FOV_LEN > side {
        r.set(2, relative(side - pos.y, B_FOV_LEN));
        r.set(3, UNIT);
    } else if pos.y - B_FOV_LEN < 0 {
        r.set(2, relative(pos.y, B_FOV_LEN));
        r.set(3, -UNIT);
    }
    assert(r@ =~= seq![wall_spec(pos.x as int, side as int).0 as i64, wall_spec(pos.x as int, side as int).1 as i64,
        wall_spec(pos.y as int, side as int).0 as i64, wall_spec(pos.y as int, side as int).1 as i64]);
    r
}

} // verus!

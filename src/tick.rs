//! The tick pipeline: movement intents, collisions, commit, perception and
//! action, ageing, removal, and the population check.
use crate::consts::{
    BOUNCE_LEN, B_HEADON_DAMAGE, B_MOVE_TIRE_RATE, B_ROT_TIRE_RATE, B_SPEED, B_START_ENERGY, F_RADIUS,
    HEADON_B_HITS_O_DAMAGE, OOB_PENALTY, O_RADIUS,
};
use crate::entity::{being_ok, food_ok, is_eaten, speechlet_ok, Being, Entity, Kind, VALUE_CAP};
use crate::genome::copy_vec;
use crate::geometry::{
    push_spec, dist_sq, bearing, clamp, clamped, clear_of_walls, div_toward_zero, in_box, oob, push_apart, tdiv, MAX_COORD, MAX_RADIUS,
    STEP_CAP,
};
use crate::grid::{neighbours, Grid, Point, UNIT};
use crate::perception::{b_collides_b, b_collides_f, b_collides_o, b_collides_s, headon_cost, Accum, Subject};
use crate::store::Store;
use crate::world::World;
use vstd::prelude::*;

verus! {

/// Every food that was eaten is still eaten.
pub open spec fn eaten_kept(before: Store, after: Store) -> bool {
    forall|k: u64| #[trigger] before.items().contains_key(k) ==> (is_eaten(before.items()[k]) ==> is_eaten(after.items()[k]))
}

/// `d` added to `p`, each coordinate within the arena bound.
pub open spec fn add_clamped(p: Point, d: Point) -> Point {
    Point {
        x: clamped(p.x + d.x, MAX_COORD as int) as i64,
        y: clamped(p.y + d.y, MAX_COORD as int) as i64,
    }
}

/// The point `p + d` with its disc of radius `r` inside the arena and clear
/// of the walls.
pub open spec fn lands_spec(p: Point, d: Point, r: int, side: int) -> bool {
    in_box(Point { x: (p.x + d.x) as i64, y: (p.y + d.y) as i64 })
        && clear_of_walls(Point { x: (p.x + d.x) as i64, y: (p.y + d.y) as i64 }, r, side)
}

/// The push a subject takes from a disc of radius `r2` at `p2` (for a peer,
/// only when the pushed position stays clear of the walls).
pub open spec fn push_from(s: Subject, p2: Point, r2: int, side: int, checked: bool) -> Point {
    let rsum = s.radius + r2;
    let d2 = dist_sq(s.pos, p2);
    let dist = crate::geometry::floor_sqrt(d2);
    let rel = Point { x: (p2.x - s.pos.x) as i64, y: (p2.y - s.pos.y) as i64 };
    if d2 < rsum * rsum {
        let push = push_spec(rel, dist, rsum - dist);
        if !checked || lands_spec(s.pos, push, s.radius as int, side) {
            push
        } else {
            Point { x: 0, y: 0 }
        }
    } else {
        Point { x: 0, y: 0 }
    }
}

/// The displacement accumulated from the peers listed in `l`, in order
/// (the subject itself excepted), starting from `p`.
pub open spec fn pos_after_beings(p: Point, s: Subject, l: Seq<u64>, items: Map<u64, Entity>, side: int) -> Point
    decreases l.len(),
{
    if l.len() == 0 {
        p
    } else {
        let p1 = pos_after_beings(p, s, l.drop_last(), items, side);
        let k2 = l.last();
        if k2 == s.key {
            p1
        } else {
            add_clamped(p1, push_from(s, items[k2].pos, body_radius(items[k2]), side, true))
        }
    }
}

/// The displacement accumulated from the obstacles listed in `l`, in order.
pub open spec fn pos_after_obstructs(p: Point, s: Subject, l: Seq<u64>, items: Map<u64, Entity>, side: int) -> Point
    decreases l.len(),
{
    if l.len() == 0 {
        p
    } else {
        let p1 = pos_after_obstructs(p, s, l.drop_last(), items, side);
        add_clamped(p1, push_from(s, items[l.last()].pos, O_RADIUS as int, side, false))
    }
}

/// The displacement accumulated over the cells `cells`, in order: in each,
/// first the peers, then the obstacles.
pub open spec fn pos_after_view(p: Point, s: Subject, cells: Seq<usize>, beings: Store, obstructs: Store, side: int) -> Point
    decreases cells.len(),
{
    if cells.len() == 0 {
        p
    } else {
        let p1 = pos_after_view(p, s, cells.drop_last(), beings, obstructs, side);
        let c = cells.last() as int;
        pos_after_obstructs(pos_after_beings(p1, s, beings.list(c), beings.items(), side), s, obstructs.list(c),
            obstructs.items(), side)
    }
}

/// Stores whose peers agree on positions and radii.
pub open spec fn same_bodies(m1: Map<u64, Entity>, m2: Map<u64, Entity>) -> bool {
    &&& m1.dom() == m2.dom()
    &&& forall|k: u64| #[trigger] m1.contains_key(k) ==> m1[k].pos == m2[k].pos && body_radius(m1[k]) == body_radius(m2[k])
}

/// The peer fold reads positions and radii only.
pub proof fn lemma_beings_fold_same(p: Point, s: Subject, l: Seq<u64>, m1: Map<u64, Entity>, m2: Map<u64, Entity>, side: int)
    requires
        same_bodies(m1, m2),
        forall|i: int| 0 <= i < l.len() ==> m1.contains_key(#[trigger] l[i]),
    ensures
        pos_after_beings(p, s, l, m1, side) == pos_after_beings(p, s, l, m2, side),
    decreases l.len(),
{
    if l.len() > 0 {
        lemma_beings_fold_same(p, s, l.drop_last(), m1, m2, side);
        assert(m1.contains_key(l[l.len() - 1]));
    }
}

/// Every cell of a view lies in the grid.
pub proof fn lemma_view_in_range(view: Seq<(i64, i64)>, i: int, j: int, n: int)
    requires
        0 <= i < n,
        0 <= j < n,
        n <= crate::grid::MAX_CELLS,
    ensures
        forall|m: int| 0 <= m < neighbours(view, i, j, n).len() ==> (#[trigger] neighbours(view, i, j, n)[m]) < n * n,
    decreases view.len(),
{
    if view.len() > 0 {
        lemma_view_in_range(view.drop_last(), i, j, n);
        let rest = neighbours(view.drop_last(), i, j, n);
        let a = i + view.last().0;
        let b = j + view.last().1;
        if 0 <= a < n && 0 <= b < n {
            assert(0 <= a * n + b < n * n && n * n <= 4096 * 4096) by (nonlinear_arith)
                requires 0 <= a < n, 0 <= b < n, n <= 4096;
            let r = rest.push(crate::grid::cell_index_spec(a, b, n) as usize);
            assert forall|m: int| 0 <= m < r.len() implies (#[trigger] r[m]) < n * n by {
                if m < rest.len() {
                    assert(r[m] == rest[m]);
                }
            }
        }
    }
}

/// The food fold reads positions and values only.
pub proof fn lemma_food_fold_same(st: (int, Set<u64>), s: Subject, l: Seq<u64>, f1: Store, f2: Store)
    requires
        forall|i: int| 0 <= i < l.len() ==> f1.items().contains_key(#[trigger] l[i]),
        forall|x: u64| #[trigger] f1.items().contains_key(x) ==> f1.items()[x].pos == f2.items()[x].pos
            && crate::lifecycle::val_of(f1.items()[x]) == crate::lifecycle::val_of(f2.items()[x]),
    ensures
        food_fold(st, s, l, f1) == food_fold(st, s, l, f2),
    decreases l.len(),
{
    if l.len() > 0 {
        lemma_food_fold_same(st, s, l.drop_last(), f1, f2);
        assert(f1.items().contains_key(l[l.len() - 1]));
    }
}

/// The view fold reads the peers' positions and radii only.
pub proof fn lemma_view_fold_same(p: Point, s: Subject, cells: Seq<usize>, b1: Store, b2: Store, os: Store, grid: &Grid, side: int)
    requires
        b1.wf(grid),
        b2.cells@ == b1.cells@,
        same_bodies(b1.items(), b2.items()),
        forall|m: int| 0 <= m < cells.len() ==> (#[trigger] cells[m]) < b1.cells.len(),
    ensures
        pos_after_view(p, s, cells, b1, os, side) == pos_after_view(p, s, cells, b2, os, side),
    decreases cells.len(),
{
    if cells.len() > 0 {
        lemma_view_fold_same(p, s, cells.drop_last(), b1, b2, os, grid, side);
        let p1 = pos_after_view(p, s, cells.drop_last(), b1, os, side);
        let c = cells.last() as int;
        assert(c < b1.cells.len());
        assert forall|i: int| 0 <= i < b1.list(c).len() implies b1.items().contains_key(#[trigger] b1.list(c)[i]) by {
            assert(b1.list(c).contains(b1.list(c)[i]));
        }
        lemma_beings_fold_same(p1, s, b1.list(c), b1.items(), b2.items(), side);
    }
}

/// The peer cost fold reads positions and radii only.
pub proof fn lemma_energy_beings_same(e: int, s: Subject, l: Seq<u64>, m1: Map<u64, Entity>, m2: Map<u64, Entity>, substeps: int)
    requires
        same_bodies(m1, m2),
        forall|i: int| 0 <= i < l.len() ==> m1.contains_key(#[trigger] l[i]),
    ensures
        energy_after_beings(e, s, l, m1, substeps) == energy_after_beings(e, s, l, m2, substeps),
    decreases l.len(),
{
    if l.len() > 0 {
        lemma_energy_beings_same(e, s, l.drop_last(), m1, m2, substeps);
        assert(m1.contains_key(l[l.len() - 1]));
    }
}

/// The energy view fold reads the peers' positions and radii and the food
/// positions and values only.
pub proof fn lemma_energy_view_same(
    st: (int, Set<u64>),
    s: Subject,
    cells: Seq<usize>,
    b1: Store,
    b2: Store,
    os: Store,
    f1: Store,
    f2: Store,
    grid: &Grid,
    substeps: int,
)
    requires
        b1.wf(grid),
        f1.wf(grid),
        b2.cells@ == b1.cells@,
        same_bodies(b1.items(), b2.items()),
        foods_fixed(f1, f2),
        forall|m: int| 0 <= m < cells.len() ==> (#[trigger] cells[m]) < b1.cells.len(),
    ensures
        energy_after_view(st, s, cells, b1, os, f1, substeps) == energy_after_view(st, s, cells, b2, os, f2, substeps),
    decreases cells.len(),
{
    if cells.len() > 0 {
        lemma_energy_view_same(st, s, cells.drop_last(), b1, b2, os, f1, f2, grid, substeps);
        let r = energy_after_view(st, s, cells.drop_last(), b1, os, f1, substeps);
        let c = cells.last() as int;
        assert(c < b1.cells.len());
        assert forall|i: int| 0 <= i < b1.list(c).len() implies b1.items().contains_key(#[trigger] b1.list(c)[i]) by {
            assert(b1.list(c).contains(b1.list(c)[i]));
        }
        assert forall|i: int| 0 <= i < f1.list(c).len() implies f1.items().contains_key(#[trigger] f1.list(c)[i]) by {
            assert(f1.list(c).contains(f1.list(c)[i]));
        }
        lemma_energy_beings_same(r.0, s, b1.list(c), b1.items(), b2.items(), substeps);
        let e2 = energy_after_obstructs(energy_after_beings(r.0, s, b1.list(c), b1.items(), substeps), s, os.list(c),
            os.items(), substeps);
        lemma_food_fold_same((e2, r.1), s, f1.list(c), f1, f2);
        assert(f2.list(c) == f1.list(c));
    }
}

/// What the being under `k` knows of itself.
pub open spec fn subject_of(k: u64, e: Entity) -> Subject {
    let b = crate::act::being_of(e);
    Subject { key: k, pos: e.pos, radius: b.radius, heading: b.heading, energy: b.energy, id: b.id }
}

/// The cells the being sees.
pub open spec fn view_of(grid: Grid, e: Entity) -> Seq<usize> {
    neighbours(grid.view@, e.cell.0 as int, e.cell.1 as int, grid.n_cells as int)
}

/// Entries of `l` other than `key`.
pub open spec fn count_others(l: Seq<u64>, key: u64) -> nat
    decreases l.len(),
{
    if l.len() == 0 {
        0
    } else {
        count_others(l.drop_last(), key) + if l.last() == key { 0nat } else { 1nat }
    }
}

/// Peers listed in the cells `cells` of the lists `lists`, the subject
/// excepted: one observation row each.
pub open spec fn view_rows(cells: Seq<usize>, key: u64, lists: Seq<Vec<u64>>) -> nat
    decreases cells.len(),
{
    if cells.len() == 0 {
        0
    } else {
        view_rows(cells.drop_last(), key, lists) + count_others(lists[cells.last() as int]@, key)
    }
}

/// Obstacles and food items listed in the cells `cells`: one observation
/// row each.
pub open spec fn view_things(cells: Seq<usize>, obstacle_lists: Seq<Vec<u64>>, food_lists: Seq<Vec<u64>>) -> nat
    decreases cells.len(),
{
    if cells.len() == 0 {
        0
    } else {
        view_things(cells.drop_last(), obstacle_lists, food_lists) + obstacle_lists[cells.last() as int]@.len()
            + food_lists[cells.last() as int]@.len()
    }
}

/// The being under `x` recorded one row per peer, and one per obstacle or
/// food item, listed in the cells of its view in `w0`.
pub open spec fn rows_seen(w0: World, w1: World, x: u64) -> bool {
    let e0 = w0.beings_and_models.items()[x];
    let b0 = crate::act::being_of(e0);
    let b1 = crate::act::being_of(w1.beings_and_models.items()[x]);
    &&& b1.being_inputs.len() == b0.being_inputs.len() + view_rows(view_of(w0.grid, e0), x, w0.beings_and_models.cells@)
    &&& b1.food_obstruct_inputs.len() == b0.food_obstruct_inputs.len()
        + view_things(view_of(w0.grid, e0), w0.obstructs.cells@, w0.foods.cells@)
}

/// The signal under `y` lists `id` among its recipients.
pub open spec fn heard_by(sigs: Store, y: u64, id: u64) -> bool {
    match sigs.items()[y].kind {
        Kind::Speechlet(sp) => sp.recepient_being_ids@.contains(id),
        _ => false,
    }
}

/// The radius of a signal.
pub open spec fn signal_radius(e: Entity) -> int {
    match e.kind {
        Kind::Speechlet(sp) => sp.radius as int,
        _ => 0,
    }
}

/// The signal under `y` overlaps the disc of radius `r` around `p`.
pub open spec fn touches_signal(p: Point, r: int, sigs: Store, y: u64) -> bool {
    dist_sq(p, sigs.items()[y].pos) < (r + signal_radius(sigs.items()[y])) * (r + signal_radius(sigs.items()[y]))
}

/// Signal positions, radii and cell lists stay, and recipients are only
/// added.
pub open spec fn signals_fixed(before: Store, after: Store) -> bool {
    &&& after.cells@ == before.cells@
    &&& after.items().dom() == before.items().dom()
    &&& forall|y: u64| #[trigger] after.items().contains_key(y) ==> after.items()[y].pos == before.items()[y].pos
        && signal_radius(after.items()[y]) == signal_radius(before.items()[y])
        && (forall|id: u64| heard_by(before, y, id) ==> heard_by(after, y, id))
}

/// The food item under `f` overlaps the disc of radius `r` around `p`.
pub open spec fn touches_food(p: Point, r: int, foods: Store, f: u64) -> bool {
    dist_sq(p, foods.items()[f].pos) < (r + F_RADIUS) * (r + F_RADIUS)
}

/// The radius of a being.
pub open spec fn body_radius(e: Entity) -> int {
    match e.kind {
        Kind::Being(b) => b.radius as int,
        _ => 0,
    }
}

/// The energy of a being.
pub open spec fn body_energy(e: Entity) -> int {
    match e.kind {
        Kind::Being(b) => b.energy as int,
        _ => 0,
    }
}

/// A being below the starting energy that overlaps the food item
/// under `f`, listed in one of the cells it sees, eats it: the item is eaten
/// in `after` (by this being or by an earlier one).
pub open spec fn food_taken(grid: Grid, e: Entity, before: Store, after: Store, f: u64) -> bool {
    (exists|c: int| #[trigger] neighbours(grid.view@, e.cell.0 as int, e.cell.1 as int, grid.n_cells as int).contains(c as usize)
        && 0 <= c < before.cells.len() && before.list(c).contains(f))
        && body_energy(e) < B_START_ENERGY && touches_food(e.pos, body_radius(e), before, f)
        ==> is_eaten(after.items()[f])
}

/// A being that overlaps the signal under `y`, listed in one of the cells
/// it sees, is among that signal's recipients in `after`.
pub open spec fn signal_heard(grid: Grid, e: Entity, before: Store, after: Store, y: u64) -> bool {
    (exists|c: int| #[trigger] neighbours(grid.view@, e.cell.0 as int, e.cell.1 as int, grid.n_cells as int).contains(c as usize)
        && 0 <= c < before.cells.len() && before.list(c).contains(y))
        && touches_signal(e.pos, body_radius(e), before, y)
        ==> heard_by(after, y, crate::act::being_of(e).id)
}

/// Food positions, values and cell lists stay.
pub open spec fn foods_fixed(before: Store, after: Store) -> bool {
    &&& after.cells@ == before.cells@
    &&& after.items().dom() == before.items().dom()
    &&& forall|x: u64| #[trigger] after.items().contains_key(x) ==> after.items()[x].pos == before.items()[x].pos
        && crate::lifecycle::val_of(after.items()[x]) == crate::lifecycle::val_of(before.items()[x])
}

/// The keys of the eaten food items.
pub open spec fn eaten_set(foods: Store) -> Set<u64> {
    foods.items().dom().filter(|k: u64| is_eaten(foods.items()[k]))
}

/// The energy a subject pays for touching a disc of radius `r2` at `p2`:
/// the head-on cost of its alignment with the contact, when they overlap.
pub open spec fn cost_from(s: Subject, p2: Point, r2: int, damage: int, substeps: int) -> int {
    let rsum = s.radius + r2;
    let d2 = dist_sq(s.pos, p2);
    let dist = crate::geometry::floor_sqrt(d2);
    let rel = Point { x: (p2.x - s.pos.x) as i64, y: (p2.y - s.pos.y) as i64 };
    if d2 < rsum * rsum {
        crate::perception::headon_cost_spec(crate::geometry::bearing_spec(s.heading, rel, dist).1, damage, substeps)
    } else {
        0
    }
}

/// The energy change after the head-on costs of the peers listed in `l`.
pub open spec fn energy_after_beings(e: int, s: Subject, l: Seq<u64>, items: Map<u64, Entity>, substeps: int) -> int
    decreases l.len(),
{
    if l.len() == 0 {
        e
    } else {
        let e1 = energy_after_beings(e, s, l.drop_last(), items, substeps);
        let k2 = l.last();
        if k2 == s.key {
            e1
        } else {
            clamped(e1 - cost_from(s, items[k2].pos, body_radius(items[k2]), B_HEADON_DAMAGE as int, substeps), VALUE_CAP as int)
        }
    }
}

/// The energy change after the head-on costs of the obstacles listed in `l`.
pub open spec fn energy_after_obstructs(e: int, s: Subject, l: Seq<u64>, items: Map<u64, Entity>, substeps: int) -> int
    decreases l.len(),
{
    if l.len() == 0 {
        e
    } else {
        let e1 = energy_after_obstructs(e, s, l.drop_last(), items, substeps);
        clamped(e1 - cost_from(s, items[l.last()].pos, O_RADIUS as int, HEADON_B_HITS_O_DAMAGE as int, substeps),
            VALUE_CAP as int)
    }
}

/// The energy change and the eaten set after the food items listed in `l`:
/// an uneaten item that the subject overlaps, while below the starting
/// energy, is eaten and credits its value.
pub open spec fn food_fold(st: (int, Set<u64>), s: Subject, l: Seq<u64>, foods: Store) -> (int, Set<u64>)
    decreases l.len(),
{
    if l.len() == 0 {
        st
    } else {
        let r = food_fold(st, s, l.drop_last(), foods);
        let f = l.last();
        if !r.1.contains(f) && touches_food(s.pos, s.radius as int, foods, f) && s.energy < B_START_ENERGY {
            (clamped(r.0 + crate::lifecycle::val_of(foods.items()[f]), VALUE_CAP as int), r.1.insert(f))
        } else {
            r
        }
    }
}

/// The energy change and eaten set after a subject's whole view, cell by
/// cell: peers, obstacles, then food.
pub open spec fn energy_after_view(
    st: (int, Set<u64>),
    s: Subject,
    cells: Seq<usize>,
    beings: Store,
    obstructs: Store,
    foods: Store,
    substeps: int,
) -> (int, Set<u64>)
    decreases cells.len(),
{
    if cells.len() == 0 {
        st
    } else {
        let r = energy_after_view(st, s, cells.drop_last(), beings, obstructs, foods, substeps);
        let c = cells.last() as int;
        let e2 = energy_after_obstructs(energy_after_beings(r.0, s, beings.list(c), beings.items(), substeps), s,
            obstructs.list(c), obstructs.items(), substeps);
        food_fold((e2, r.1), s, foods.list(c), foods)
    }
}

/// The beings scan in the order `order`, each from the eaten set the
/// previous ones left: each being's final energy change, and the final
/// eaten set.
pub open spec fn collide_all(order: Seq<u64>, grid: Grid, beings: Store, obstructs: Store, foods: Store, substeps: int)
    -> (Map<u64, int>, Set<u64>)
    decreases order.len(),
{
    if order.len() == 0 {
        (Map::empty(), eaten_set(foods))
    } else {
        let r = collide_all(order.drop_last(), grid, beings, obstructs, foods, substeps);
        let x = order.last();
        let e = beings.items()[x];
        let v = energy_after_view((crate::act::being_of(e).energy_update as int, r.1), subject_of(x, e), view_of(grid, e),
            beings, obstructs, foods, substeps);
        (r.0.insert(x, v.0), v.1)
    }
}

/// A displaced point stays in the arena with its disc clear of the walls.
pub fn lands_inside(p: Point, d: Point, r: i64, side: i64) -> (b: bool)
    requires
        in_box(p),
        -STEP_CAP <= d.x <= STEP_CAP,
        -STEP_CAP <= d.y <= STEP_CAP,
        0 <= r <= MAX_RADIUS,
        0 <= side <= MAX_COORD,
    ensures
        b == (in_box(Point { x: (p.x + d.x) as i64, y: (p.y + d.y) as i64 })
            && clear_of_walls(Point { x: (p.x + d.x) as i64, y: (p.y + d.y) as i64 }, r as int, side as int)),
{
    let q = Point { x: p.x + d.x, y: p.y + d.y };
    if 0 <= q.x && q.x <= MAX_COORD && 0 <= q.y && q.y <= MAX_COORD {
        !oob(q, r, side)
    } else {
        false
    }
}

/// Length of one substep's movement: thrust times speed, scaled down by
/// the energy fraction (energy clamped to `[0, B_START_ENERGY]`), spread over
/// the substeps.
pub open spec fn stride_spec(thrust: int, energy: int, substeps: int) -> int {
    let e = if energy < 0 { 0 } else if energy > B_START_ENERGY { B_START_ENERGY as int } else { energy };
    tdiv(tdiv(tdiv(thrust * B_SPEED, UNIT as int) * e, B_START_ENERGY as int), substeps)
}

/// A heading scaled to a length: `h * len / UNIT` on each axis.
pub open spec fn along(h: Point, len: int) -> Point {
    Point { x: tdiv(h.x * len, UNIT as int) as i64, y: tdiv(h.y * len, UNIT as int) as i64 }
}

/// The movement intent of a being for one substep: the displacement it
/// accumulates and the energy it spends. When the whole tick's move keeps it
/// clear of the walls it moves one substep's stride along its heading,
/// paying for the distance and the turn; otherwise it steps back from the
/// wall and pays the wall penalty.
pub open spec fn intent_spec(pos: Point, b: Being, side: int, substeps: int) -> (Point, int) {
    let stride = stride_spec(b.output.thrust as int, b.energy as int, substeps);
    let d = along(b.heading, stride);
    let whole = along(b.heading, stride_spec(b.output.thrust as int, b.energy as int, 1));
    let q = Point { x: (pos.x + whole.x) as i64, y: (pos.y + whole.y) as i64 };
    if in_box(q) && clear_of_walls(q, b.radius as int, side) {
        let turn = if b.output.turn < 0 { -b.output.turn } else { b.output.turn as int };
        let run = if stride < 0 { -stride } else { stride };
        (d, -(tdiv(run * B_MOVE_TIRE_RATE, B_SPEED as int) + tdiv(tdiv(turn * B_ROT_TIRE_RATE, UNIT as int), substeps)))
    } else {
        (along(b.heading, -(tdiv(BOUNCE_LEN as int, substeps))), -(OOB_PENALTY as int))
    }
}

/// Computes a being's movement intent for one substep.
pub fn move_intent(pos: Point, b: &Being, side: i64, substeps: i64) -> (r: (Point, i64))
    requires
        in_box(pos),
        b.wf(),
        0 <= side <= MAX_COORD,
        1 <= substeps as int <= i64::MAX as int,
    ensures
        r.0 == intent_spec(pos, *b, side as int, substeps as int).0,
        r.1 == intent_spec(pos, *b, side as int, substeps as int).1,
        -BOUNCE_LEN <= r.0.x <= BOUNCE_LEN,
        -BOUNCE_LEN <= r.0.y <= BOUNCE_LEN,
        -UNIT <= r.1 <= 0,
{
    let e = if b.energy < 0 { 0 } else if b.energy > B_START_ENERGY { B_START_ENERGY } else { b.energy };
    let full = div_toward_zero(b.output.thrust * B_SPEED, UNIT);
    assert(-B_SPEED <= full <= B_SPEED) by (nonlinear_arith)
        requires full == tdiv(b.output.thrust * B_SPEED, UNIT as int), -UNIT <= b.output.thrust <= UNIT;
    assert(-B_SPEED * B_START_ENERGY <= full * e <= B_SPEED * B_START_ENERGY) by (nonlinear_arith)
        requires -B_SPEED <= full <= B_SPEED, 0 <= e <= B_START_ENERGY;
    let damped = div_toward_zero(full * e, B_START_ENERGY);
    assert(-B_SPEED <= damped <= B_SPEED) by (nonlinear_arith)
        requires damped == tdiv(full * e, B_START_ENERGY as int), -B_SPEED * B_START_ENERGY <= full * e <= B_SPEED * B_START_ENERGY;
    let stride = div_toward_zero(damped, substeps);
    assert(-UNIT * B_SPEED <= b.heading.x * stride <= UNIT * B_SPEED) by (nonlinear_arith)
        requires -UNIT <= b.heading.x <= UNIT, -B_SPEED <= stride <= B_SPEED;
    assert(-UNIT * B_SPEED <= b.heading.y * stride <= UNIT * B_SPEED) by (nonlinear_arith)
        requires -UNIT <= b.heading.y <= UNIT, -B_SPEED <= stride <= B_SPEED;
    let d = Point { x: div_toward_zero(b.heading.x * stride, UNIT), y: div_toward_zero(b.heading.y * stride, UNIT) };
    proof {
        crate::geometry::lemma_tdiv_bound(b.heading.x * stride, UNIT as int, B_SPEED as int);
        crate::geometry::lemma_tdiv_bound(b.heading.y * stride, UNIT as int, B_SPEED as int);
    }
    assert(-UNIT * B_SPEED <= b.heading.x * damped <= UNIT * B_SPEED) by (nonlinear_arith)
        requires -UNIT <= b.heading.x <= UNIT, -B_SPEED <= damped <= B_SPEED;
    assert(-UNIT * B_SPEED <= b.heading.y * damped <= UNIT * B_SPEED) by (nonlinear_arith)
        requires -UNIT <= b.heading.y <= UNIT, -B_SPEED <= damped <= B_SPEED;
    let whole = Point { x: div_toward_zero(b.heading.x * damped, UNIT), y: div_toward_zero(b.heading.y * damped, UNIT) };
    proof {
        crate::geometry::lemma_tdiv_bound(b.heading.x * damped, UNIT as int, B_SPEED as int);
        crate::geometry::lemma_tdiv_bound(b.heading.y * damped, UNIT as int, B_SPEED as int);
        assert(damped == tdiv(damped as int, 1));
    }
    if lands_inside(pos, whole, b.radius, side) {
        let turn = if b.output.turn < 0 { -b.output.turn } else { b.output.turn };
        let run = if stride < 0 { -stride } else { stride };
        let move_cost = div_toward_zero(run * B_MOVE_TIRE_RATE, B_SPEED);
        assert(0 <= turn * B_ROT_TIRE_RATE <= UNIT * B_ROT_TIRE_RATE) by (nonlinear_arith)
            requires 0 <= turn <= UNIT;
        let turn_cost = div_toward_zero(div_toward_zero(turn * B_ROT_TIRE_RATE, UNIT), substeps);
        (d, -(move_cost + turn_cost))
    } else {
        let back = -div_toward_zero(BOUNCE_LEN, substeps);
        assert(-UNIT * BOUNCE_LEN <= b.heading.x * back <= UNIT * BOUNCE_LEN) by (nonlinear_arith)
            requires -UNIT <= b.heading.x <= UNIT, -BOUNCE_LEN <= back <= 0;
        assert(-UNIT * BOUNCE_LEN <= b.heading.y * back <= UNIT * BOUNCE_LEN) by (nonlinear_arith)
            requires -UNIT <= b.heading.y <= UNIT, -BOUNCE_LEN <= back <= 0;
        let d2 = Point { x: div_toward_zero(b.heading.x * back, UNIT), y: div_toward_zero(b.heading.y * back, UNIT) };
        proof {
            crate::geometry::lemma_tdiv_bound(b.heading.x * back, UNIT as int, BOUNCE_LEN as int);
            crate::geometry::lemma_tdiv_bound(b.heading.y * back, UNIT as int, BOUNCE_LEN as int);
        }
        (d2, -OOB_PENALTY)
    }
}

/// Whether a list of identities holds one.
pub fn holds_id(ids: &Vec<u64>, id: u64) -> (r: bool)
    ensures
        r == ids@.contains(id),
{
    let mut i: usize = 0;
    while i < ids.len()
        invariant
            i <= ids.len(),
            forall|j: int| 0 <= j < i ==> ids@[j] != id,
        decreases ids.len() - i,
    {
        if ids[i] == id {
            return true;
        }
        i = i + 1;
    }
    false
}

/// The contract of `World::move_beings`, as a relation between the world before
/// and after.
pub open spec fn moved(w0: World, w1: World, substeps: usize) -> bool {
    &&& w1.wf()
    &&& w1.grid == w0.grid
    &&& w1.obstructs == w0.obstructs
    &&& w1.foods == w0.foods
    &&& w1.speechlets == w0.speechlets
    &&& w1.food_deaths == w0.food_deaths
    &&& w1.beings_and_models.items().dom() == w0.beings_and_models.items().dom()
    &&& forall|x: u64| #[trigger] w1.beings_and_models.items().contains_key(x) ==> w1.beings_and_models.items()[x].pos == w0.beings_and_models.items()[x].pos
    &&& forall|x: u64| #[trigger] w1.beings_and_models.items().contains_key(x) ==> intended(w0.beings_and_models.items()[x], w1.beings_and_models.items()[x], w0.grid.side(), substeps as int)
}

/// The contract of `World::update_cells`, as a relation between the world before
/// and after.
pub open spec fn committed_world(w0: World, w1: World) -> bool {
    &&& w1.wf()
    &&& w1.grid == w0.grid
    &&& w1.obstructs == w0.obstructs
    &&& w1.foods == w0.foods
    &&& w1.speechlets == w0.speechlets
    &&& w1.food_deaths == w0.food_deaths
    &&& w1.beings_and_models.items().dom() == w0.beings_and_models.items().dom()
    &&& forall|x: u64| #[trigger] w1.beings_and_models.items().contains_key(x) ==> { let e0 = w0.beings_and_models.items()[x]; let e1 = w1.beings_and_models.items()[x]; e0.kind matches Kind::Being(b0) ==> e1.kind matches Kind::Being(b1) && committed(e0.pos, b0, e1.pos, b1, w1.grid.side()) }
}

/// The contract of `World::check_collisions`, as a relation between the world before
/// and after.
pub open spec fn collided(w0: World, w1: World, substeps: usize) -> bool {
    &&& w1.wf()
    &&& w1.grid == w0.grid
    &&& w1.beings_and_models.items().dom() == w0.beings_and_models.items().dom()
    &&& w1.foods.items().dom() == w0.foods.items().dom()
    &&& eaten_kept(w0.foods, w1.foods)
    &&& forall|x: u64| #[trigger] w1.beings_and_models.items().contains_key(x) ==> w1.beings_and_models.items()[x].pos == w0.beings_and_models.items()[x].pos
    &&& forall|x: u64| #[trigger] w1.beings_and_models.items().contains_key(x) ==> no_gain_above_cap(w0.beings_and_models.items()[x], w1.beings_and_models.items()[x])
    &&& foods_fixed(w0.foods, w1.foods)
    &&& forall|x: u64| #[trigger] w1.beings_and_models.items().contains_key(x) ==> crate::act::being_of(w1.beings_and_models.items()[x]).pos_update == pos_after_view( crate::act::being_of(w0.beings_and_models.items()[x]).pos_update, subject_of(x, w0.beings_and_models.items()[x]), view_of(w0.grid, w0.beings_and_models.items()[x]), w0.beings_and_models, w0.obstructs, w0.grid.side())
    &&& forall|x: u64, f: u64| w0.beings_and_models.items().contains_key(x) ==> #[trigger] food_taken(w0.grid, w0.beings_and_models.items()[x], w0.foods, w1.foods, f)
    &&& w1.obstructs == w0.obstructs
    &&& signals_fixed(w0.speechlets, w1.speechlets)
    &&& forall|x: u64, y: u64| w0.beings_and_models.items().contains_key(x) ==> #[trigger] signal_heard(w0.grid, w0.beings_and_models.items()[x], w0.speechlets, w1.speechlets, y)
    &&& forall|x: u64| #[trigger] w1.beings_and_models.items().contains_key(x) ==> rows_seen(w0, w1, x)
    &&& exists|order: Seq<u64>| #[trigger] order.no_duplicates() && (forall|x: u64| order.contains(x) <==> w0.beings_and_models.items().contains_key(x)) && eaten_set(w1.foods) == collide_all(order, w0.grid, w0.beings_and_models, w0.obstructs, w0.foods, substeps as int).1 && (forall|x: u64| #[trigger] w1.beings_and_models.items().contains_key(x) ==> crate::act::being_of(w1.beings_and_models.items()[x]).energy_update as int == collide_all(order, w0.grid, w0.beings_and_models, w0.obstructs, w0.foods, substeps as int).0[x])
    &&& w1.beings_and_models.cells@ == w0.beings_and_models.cells@
}

impl World {
    /// The subject's contacts with the other beings of cell `c`: a row for
    /// each; for each overlap, a push away (unless it would reach a wall) and
    /// the head-on cost.
    pub(crate) fn collide_beings(&self, s: &Subject, c: usize, acc: &mut Accum, substeps: i64)
        requires
            self.wf(),
            s.wf(),
            c < self.grid.n_total(),
            old(acc).wf(),
            1 <= substeps as int <= i64::MAX as int,
        ensures
            final(acc).wf(),
            final(acc).energy_update <= old(acc).energy_update,
            final(acc).being_rows.len() == old(acc).being_rows.len() + count_others(self.beings_and_models.list(c as int), s.key),
            final(acc).thing_rows@ == old(acc).thing_rows@,
            final(acc).signal_rows@ == old(acc).signal_rows@,
            final(acc).energy_update == energy_after_beings(old(acc).energy_update as int, *s, self.beings_and_models.list(c as int),
                self.beings_and_models.items(), substeps as int),
            final(acc).pos_update == pos_after_beings(old(acc).pos_update, *s, self.beings_and_models.list(c as int),
                self.beings_and_models.items(), self.grid.side()),
    {
        let side = self.grid.n_cells as i64 * self.grid.cell_len;
        let n = self.beings_and_models.cells[c].len();
        let mut i: usize = 0;
        while i < n
            invariant
                self.wf(),
                s.wf(),
                c < self.grid.n_total(),
                n == self.beings_and_models.list(c as int).len(),
                side == self.grid.side(),
                acc.wf(),
                acc.energy_update <= old(acc).energy_update,
                i <= n,
                acc.being_rows.len() == old(acc).being_rows.len() + count_others(self.beings_and_models.list(c as int).take(i as int), s.key),
                acc.thing_rows@ == old(acc).thing_rows@,
                acc.signal_rows@ == old(acc).signal_rows@,
                acc.energy_update == energy_after_beings(old(acc).energy_update as int, *s, self.beings_and_models.list(c as int).take(i as int),
                    self.beings_and_models.items(), substeps as int),
                acc.pos_update == pos_after_beings(old(acc).pos_update, *s, self.beings_and_models.list(c as int).take(i as int),
                    self.beings_and_models.items(), side as int),
                1 <= substeps as int <= i64::MAX as int,
            decreases n - i,
        {
            let k2 = self.beings_and_models.cells[c][i];
            let ghost l = self.beings_and_models.list(c as int);
            assert(l.take(i + 1).drop_last() =~= l.take(i as int));
            assert(l.take(i + 1).last() == k2);
            assert(self.beings_and_models.list(c as int).contains(k2));
            if k2 != s.key {
                let e2 = self.beings_and_models.get(k2);
                assert(being_ok(self.beings_and_models.items()[k2]));
                if let Kind::Being(b2) = &e2.kind {
                    let (ct, row) = b_collides_b(s, e2.pos, b2);
                    acc.being_rows.push(row);
                    if ct.overlaps {
                        let rsum = s.radius + b2.radius;
                        assert(ct.dist < rsum) by (nonlinear_arith)
                            requires ct.dist * ct.dist <= crate::geometry::dist_sq(s.pos, e2.pos),
                                crate::geometry::dist_sq(s.pos, e2.pos) < rsum * rsum, ct.dist >= 0, rsum >= 0;
                        let push = push_apart(ct.rel, ct.dist, rsum - ct.dist);
                        if lands_inside(s.pos, push, s.radius, side) {
                            acc.add_pos(push);
                        }
                        let alignment = bearing(s.heading, ct.rel, ct.dist).1;
                        let cost = headon_cost(alignment, B_HEADON_DAMAGE, substeps);
                        acc.add_energy(-cost);
                    }
                }
            }
            i = i + 1;
        }
        assert(self.beings_and_models.list(c as int).take(n as int) =~= self.beings_and_models.list(c as int));
    }

    /// The subject's contacts with the obstacles of cell `c`: a row for each;
    /// for each overlap, a push away and the head-on cost.
    pub(crate) fn collide_obstructs(&self, s: &Subject, c: usize, acc: &mut Accum, substeps: i64)
        requires
            self.wf(),
            s.wf(),
            c < self.grid.n_total(),
            old(acc).wf(),
            1 <= substeps as int <= i64::MAX as int,
        ensures
            final(acc).wf(),
            final(acc).energy_update <= old(acc).energy_update,
            final(acc).thing_rows.len() == old(acc).thing_rows.len() + self.obstructs.list(c as int).len(),
            final(acc).being_rows@ == old(acc).being_rows@,
            final(acc).signal_rows@ == old(acc).signal_rows@,
            final(acc).energy_update == energy_after_obstructs(old(acc).energy_update as int, *s, self.obstructs.list(c as int),
                self.obstructs.items(), substeps as int),
            final(acc).pos_update == pos_after_obstructs(old(acc).pos_update, *s, self.obstructs.list(c as int),
                self.obstructs.items(), self.grid.side()),
    {
        let n = self.obstructs.cells[c].len();
        let mut i: usize = 0;
        while i < n
            invariant
                self.wf(),
                s.wf(),
                c < self.grid.n_total(),
                n == self.obstructs.list(c as int).len(),
                acc.wf(),
                acc.energy_update <= old(acc).energy_update,
                i <= n,
                acc.thing_rows.len() == old(acc).thing_rows.len() + i,
                acc.being_rows@ == old(acc).being_rows@,
                acc.signal_rows@ == old(acc).signal_rows@,
                acc.energy_update == energy_after_obstructs(old(acc).energy_update as int, *s, self.obstructs.list(c as int).take(i as int),
                    self.obstructs.items(), substeps as int),
                acc.pos_update == pos_after_obstructs(old(acc).pos_update, *s, self.obstructs.list(c as int).take(i as int),
                    self.obstructs.items(), self.grid.side()),
                1 <= substeps as int <= i64::MAX as int,
            decreases n - i,
        {
            let k2 = self.obstructs.cells[c][i];
            let ghost l = self.obstructs.list(c as int);
            assert(l.take(i + 1).drop_last() =~= l.take(i as int));
            assert(l.take(i + 1).last() == k2);
            assert(self.obstructs.list(c as int).contains(k2));
            let e2 = self.obstructs.get(k2);
            assert(crate::entity::obstruct_ok(self.obstructs.items()[k2]));
            if let Kind::Obstruct(o) = &e2.kind {
                let (ct, row) = b_collides_o(s, e2.pos, o, O_RADIUS);
                acc.thing_rows.push(row);
                if ct.overlaps {
                    let rsum = s.radius + O_RADIUS;
                    assert(ct.dist < rsum) by (nonlinear_arith)
                        requires ct.dist * ct.dist <= crate::geometry::dist_sq(s.pos, e2.pos),
                            crate::geometry::dist_sq(s.pos, e2.pos) < rsum * rsum, ct.dist >= 0, rsum >= 0;
                    let push = push_apart(ct.rel, ct.dist, rsum - ct.dist);
                    acc.add_pos(push);
                    let alignment = bearing(s.heading, ct.rel, ct.dist).1;
                    let cost = headon_cost(alignment, HEADON_B_HITS_O_DAMAGE, substeps);
                    acc.add_energy(-cost);
                }
            }
            i = i + 1;
        }
        assert(self.obstructs.list(c as int).take(n as int) =~= self.obstructs.list(c as int));
    }
    /// The subject's contacts with the food of cell `c`: a row for each; the
    /// first subject to overlap an uneaten item while below the
    /// starting energy gains its value, marks it eaten and queues it for
    /// removal.
    pub(crate) fn collide_foods(&mut self, s: &Subject, c: usize, acc: &mut Accum)
        requires
            old(self).wf(),
            s.wf(),
            c < old(self).grid.n_total(),
            old(acc).wf(),
        ensures
            final(self).wf(),
            final(acc).wf(),
            final(self).grid == old(self).grid,
            final(self).beings_and_models == old(self).beings_and_models,
            final(self).obstructs == old(self).obstructs,
            final(self).speechlets == old(self).speechlets,
            final(self).foods.items().dom() == old(self).foods.items().dom(),
            eaten_kept(old(self).foods, final(self).foods),
            s.energy >= B_START_ENERGY ==> final(acc).energy_update == old(acc).energy_update,
            foods_fixed(old(self).foods, final(self).foods),
            final(acc).pos_update == old(acc).pos_update,
            final(acc).thing_rows.len() == old(acc).thing_rows.len() + old(self).foods.list(c as int).len(),
            final(acc).being_rows@ == old(acc).being_rows@,
            final(acc).signal_rows@ == old(acc).signal_rows@,
            (final(acc).energy_update as int, eaten_set(final(self).foods)) == food_fold(
                (old(acc).energy_update as int, eaten_set(old(self).foods)), *s, old(self).foods.list(c as int), old(self).foods),
            final(self).food_deaths@.len() == old(self).food_deaths@.len()
                + (eaten_set(final(self).foods).len() - eaten_set(old(self).foods).len()),
            forall|f: u64| old(self).foods.list(c as int).contains(f) && s.energy < B_START_ENERGY
                && #[trigger] touches_food(s.pos, s.radius as int, old(self).foods, f) ==> is_eaten(final(self).foods.items()[f]),
    {
        let n = self.foods.cells[c].len();
        let ghost cells0 = self.foods.cells@;
        let mut i: usize = 0;
        while i < n
            invariant
                self.wf(),
                s.wf(),
                c < self.grid.n_total(),
                self.foods.cells@ == cells0,
                n == self.foods.list(c as int).len(),
                acc.wf(),
                self.grid == old(self).grid,
                self.beings_and_models == old(self).beings_and_models,
                self.obstructs == old(self).obstructs,
                self.speechlets == old(self).speechlets,
                self.foods.items().dom() == old(self).foods.items().dom(),
                eaten_kept(old(self).foods, self.foods),
                s.energy >= B_START_ENERGY ==> acc.energy_update == old(acc).energy_update,
                foods_fixed(old(self).foods, self.foods),
                acc.pos_update == old(acc).pos_update,
                i <= n,
                acc.thing_rows.len() == old(acc).thing_rows.len() + i,
                acc.being_rows@ == old(acc).being_rows@,
                acc.signal_rows@ == old(acc).signal_rows@,
                (acc.energy_update as int, eaten_set(self.foods)) == food_fold(
                    (old(acc).energy_update as int, eaten_set(old(self).foods)), *s,
                    old(self).foods.list(c as int).take(i as int), old(self).foods),
                eaten_set(old(self).foods).finite(),
                eaten_set(old(self).foods).subset_of(eaten_set(self.foods)),
                eaten_set(self.foods).finite(),
                self.food_deaths@.len() == old(self).food_deaths@.len()
                    + (eaten_set(self.foods).len() - eaten_set(old(self).foods).len()),
                forall|j: int| 0 <= j < i && s.energy < B_START_ENERGY
                    && #[trigger] touches_food(s.pos, s.radius as int, old(self).foods, old(self).foods.list(c as int)[j])
                    ==> is_eaten(self.foods.items()[old(self).foods.list(c as int)[j]]),
            decreases n - i,
        {
            let fk = self.foods.cells[c][i];
            let ghost start_iter = self.foods;
            let ghost e_start = acc.energy_update;
            let ghost deaths_start = self.food_deaths@.len();
            let ghost l = old(self).foods.list(c as int);
            assert(l.take(i + 1).drop_last() =~= l.take(i as int));
            assert(l.take(i + 1).last() == fk);
            let mut credited = false;
            assert(self.foods.list(c as int).contains(fk));
            assert(food_ok(self.foods.items()[fk]));
            let e2 = self.foods.get(fk);
            if let Kind::Food(f) = &e2.kind {
                let (ct, row) = b_collides_f(s, e2.pos, f, F_RADIUS);
                let val = f.val;
                let eaten = f.eaten;
                acc.thing_rows.push(row);
                if ct.overlaps && !eaten && s.energy < B_START_ENERGY {
                    credited = true;
                    acc.add_energy(val);
                    let ghost before = *self;
                    let fm = self.foods.kind_mut(fk);
                    if let Kind::Food(g) = fm {
                        g.eaten = true;
                    }
                    proof {
                        assert(self.foods.items().dom() =~= before.foods.items().dom());
                        Store::lemma_same_layout(before.foods, self.foods, &self.grid);
                        assert(!self.food_deaths@.contains(fk)) by {
                            if self.food_deaths@.contains(fk) {
                                let j = choose|j: int| 0 <= j < self.food_deaths.len() && #[trigger] self.food_deaths@[j] == fk;
                                assert(is_eaten(before.foods.items()[fk]));
                            }
                        }
                    }
                    self.food_deaths.push(fk);
                    assert(is_eaten(self.foods.items()[fk]));
                    proof {
                        assert forall|j: int| 0 <= j < self.food_deaths.len() implies {
                            let k = #[trigger] self.food_deaths@[j];
                            &&& self.foods.items().contains_key(k)
                            &&& self.foods.items()[k].kind matches Kind::Food(f) && f.eaten
                        } by {
                            if j < self.food_deaths.len() - 1 {
                                assert(before.food_deaths@[j] == self.food_deaths@[j]);
                            }
                        }
                        assert forall|k: u64| #[trigger] self.foods.items().contains_key(k) implies food_ok(self.foods.items()[k]) by {
                            assert(food_ok(before.foods.items()[k]));
                        }
                        assert forall|k: u64| #[trigger] self.foods.items().contains_key(k) && is_eaten(self.foods.items()[k])
                            implies self.food_deaths@.contains(k) by {
                            crate::store::lemma_push_contains(before.food_deaths@, fk, k);
                            if k != fk {
                                assert(before.foods.items().contains_key(k) && is_eaten(before.foods.items()[k]));
                            }
                        }
                        assert forall|k: u64| #[trigger] old(self).foods.items().contains_key(k) implies
                            (is_eaten(old(self).foods.items()[k]) ==> is_eaten(self.foods.items()[k])) by {
                            assert(is_eaten(old(self).foods.items()[k]) ==> is_eaten(before.foods.items()[k]));
                        }
                    }
                }
            }
            proof {
                assert(self.foods.items().dom() =~= old(self).foods.items().dom());
                assert(old(self).foods.items().contains_key(fk));
                assert(eaten_set(start_iter).contains(fk) == is_eaten(start_iter.items()[fk]));
                if credited {
                    assert(eaten_set(self.foods) =~= eaten_set(start_iter).insert(fk));
                } else {
                    assert(eaten_set(self.foods) =~= eaten_set(start_iter));
                }
                assert forall|x: u64| #[trigger] start_iter.items().contains_key(x) && is_eaten(start_iter.items()[x])
                    implies is_eaten(self.foods.items()[x]) by {
                    if x != fk {
                        assert(self.foods.items()[x] == start_iter.items()[x]);
                    }
                }
                assert forall|j: int| 0 <= j < i + 1 && s.energy < B_START_ENERGY
                    && #[trigger] touches_food(s.pos, s.radius as int, old(self).foods, old(self).foods.list(c as int)[j])
                    implies is_eaten(self.foods.items()[old(self).foods.list(c as int)[j]]) by {
                    let x = old(self).foods.list(c as int)[j];
                    assert(old(self).foods.list(c as int).contains(x));
                    if j < i {
                        assert(is_eaten(start_iter.items()[x]));
                    }
                }
            }
            i = i + 1;
        }
        assert(old(self).foods.list(c as int).take(n as int) =~= old(self).foods.list(c as int));
        assert forall|f: u64| old(self).foods.list(c as int).contains(f) && s.energy < B_START_ENERGY
            && #[trigger] touches_food(s.pos, s.radius as int, old(self).foods, f) implies is_eaten(self.foods.items()[f]) by {
            let j = choose|j: int| 0 <= j < old(self).foods.list(c as int).len() && old(self).foods.list(c as int)[j] == f;
            assert(touches_food(s.pos, s.radius as int, old(self).foods, old(self).foods.list(c as int)[j]));
        }
    }

    /// The signals of cell `c` that overlap the subject and that it has not
    /// heard yet: it records each payload once, and joins its recipients.
    pub(crate) fn collide_speechlets(&mut self, s: &Subject, c: usize, acc: &mut Accum)
        requires
            old(self).wf(),
            s.wf(),
            c < old(self).grid.n_total(),
            old(acc).wf(),
        ensures
            final(self).wf(),
            final(acc).wf(),
            final(acc).pos_update == old(acc).pos_update,
            final(acc).energy_update == old(acc).energy_update,
            final(acc).being_rows@ == old(acc).being_rows@,
            final(acc).thing_rows@ == old(acc).thing_rows@,
            final(self).grid == old(self).grid,
            final(self).beings_and_models == old(self).beings_and_models,
            final(self).obstructs == old(self).obstructs,
            final(self).foods == old(self).foods,
            final(self).food_deaths == old(self).food_deaths,
            final(self).speechlets.items().dom() == old(self).speechlets.items().dom(),
            signals_fixed(old(self).speechlets, final(self).speechlets),
            forall|y: u64| old(self).speechlets.list(c as int).contains(y)
                && #[trigger] touches_signal(s.pos, s.radius as int, old(self).speechlets, y)
                ==> heard_by(final(self).speechlets, y, s.id),
    {
        let n = self.speechlets.cells[c].len();
        let ghost cells0 = self.speechlets.cells@;
        let mut i: usize = 0;
        while i < n
            invariant
                self.wf(),
                s.wf(),
                c < self.grid.n_total(),
                self.speechlets.cells@ == cells0,
                n == self.speechlets.list(c as int).len(),
                acc.wf(),
                acc.pos_update == old(acc).pos_update,
                acc.energy_update == old(acc).energy_update,
                acc.being_rows@ == old(acc).being_rows@,
                acc.thing_rows@ == old(acc).thing_rows@,
                self.grid == old(self).grid,
                self.beings_and_models == old(self).beings_and_models,
                self.obstructs == old(self).obstructs,
                self.foods == old(self).foods,
                self.food_deaths == old(self).food_deaths,
                self.speechlets.items().dom() == old(self).speechlets.items().dom(),
                signals_fixed(old(self).speechlets, self.speechlets),
                i <= n,
                forall|j: int| 0 <= j < i
                    && #[trigger] touches_signal(s.pos, s.radius as int, old(self).speechlets, old(self).speechlets.list(c as int)[j])
                    ==> heard_by(self.speechlets, old(self).speechlets.list(c as int)[j], s.id),
            decreases n - i,
        {
            let sk = self.speechlets.cells[c][i];
            let ghost start_iter = self.speechlets;
            assert(self.speechlets.list(c as int).contains(sk));
            assert(speechlet_ok(self.speechlets.items()[sk]));
            let e2 = self.speechlets.get(sk);
            if let Kind::Speechlet(sp) = &e2.kind {
                let ct = b_collides_s(s, e2.pos, sp);
                if ct.overlaps && !holds_id(&sp.recepient_being_ids, s.id) {
                    let payload = copy_vec(&sp.speechlet);
                    acc.signal_rows.push(payload);
                    let ghost before = *self;
                    let sm = self.speechlets.kind_mut(sk);
                    if let Kind::Speechlet(t) = sm {
                        t.recepient_being_ids.push(s.id);
                    }
                    proof {
                        assert(self.speechlets.items().dom() =~= before.speechlets.items().dom());
                        Store::lemma_same_layout(before.speechlets, self.speechlets, &self.grid);
                        assert forall|k: u64| #[trigger] self.speechlets.items().contains_key(k)
                            implies speechlet_ok(self.speechlets.items()[k]) by {
                            assert(speechlet_ok(before.speechlets.items()[k]));
                        }
                    }
                }
            }
            proof {
                assert(self.speechlets.items().dom() =~= old(self).speechlets.items().dom());
                assert(old(self).speechlets.items().contains_key(sk));
                assert forall|y: u64| #[trigger] self.speechlets.items().contains_key(y) implies
                    self.speechlets.items()[y].pos == old(self).speechlets.items()[y].pos
                    && signal_radius(self.speechlets.items()[y]) == signal_radius(old(self).speechlets.items()[y])
                    && (forall|id: u64| heard_by(old(self).speechlets, y, id) ==> heard_by(self.speechlets, y, id)) by {
                    assert(start_iter.items().contains_key(y));
                    if y != sk {
                        assert(self.speechlets.items()[y] == start_iter.items()[y]);
                    } else {
                        assert forall|id: u64| heard_by(start_iter, y, id) implies heard_by(self.speechlets, y, id) by {
                            if let Kind::Speechlet(sp0) = start_iter.items()[y].kind {
                                if let Kind::Speechlet(sp1) = self.speechlets.items()[y].kind {
                                    if sp1.recepient_being_ids@ != sp0.recepient_being_ids@ {
                                        let m = choose|m: int| 0 <= m < sp0.recepient_being_ids@.len() && sp0.recepient_being_ids@[m] == id;
                                        assert(sp1.recepient_being_ids@[m] == id);
                                    }
                                }
                            }
                        }
                    }
                }
                assert forall|j: int| 0 <= j < i + 1
                    && #[trigger] touches_signal(s.pos, s.radius as int, old(self).speechlets, old(self).speechlets.list(c as int)[j])
                    implies heard_by(self.speechlets, old(self).speechlets.list(c as int)[j], s.id) by {
                    let y = old(self).speechlets.list(c as int)[j];
                    assert(old(self).speechlets.list(c as int).contains(y));
                    if j < i {
                        assert(heard_by(start_iter, y, s.id));
                        if y == sk {
                            if let Kind::Speechlet(sp0) = start_iter.items()[y].kind {
                                if let Kind::Speechlet(sp1) = self.speechlets.items()[y].kind {
                                    if sp1.recepient_being_ids@ != sp0.recepient_being_ids@ {
                                        let m = choose|m: int| 0 <= m < sp0.recepient_being_ids@.len() && sp0.recepient_being_ids@[m] == s.id;
                                        assert(sp1.recepient_being_ids@[m] == s.id);
                                    }
                                }
                            }
                        } else {
                            assert(self.speechlets.items()[y] == start_iter.items()[y]);
                        }
                    } else {
                        if let Kind::Speechlet(sp1) = self.speechlets.items()[y].kind {
                            let l = sp1.recepient_being_ids@;
                            if !heard_by(start_iter, y, s.id) {
                                assert(l[l.len() - 1] == s.id);
                            }
                        }
                    }
                }
            }
            i = i + 1;
        }
        assert forall|y: u64| old(self).speechlets.list(c as int).contains(y)
            && #[trigger] touches_signal(s.pos, s.radius as int, old(self).speechlets, y) implies heard_by(self.speechlets, y, s.id) by {
            let j = choose|j: int| 0 <= j < old(self).speechlets.list(c as int).len() && old(self).speechlets.list(c as int)[j] == y;
            assert(touches_signal(s.pos, s.radius as int, old(self).speechlets, old(self).speechlets.list(c as int)[j]));
        }
    }

    /// One being's scan of its field of view: it meets every being,
    /// obstacle, food item and signal recorded in the cells it sees, and
    /// writes the accumulated effects and rows to itself only.
    pub(crate) fn scan(&mut self, k: u64, substeps: i64)
        requires
            old(self).wf(),
            old(self).beings_and_models.items().contains_key(k),
            1 <= substeps as int <= i64::MAX as int,
        ensures
            final(self).wf(),
            final(self).grid == old(self).grid,
            final(self).beings_and_models.items().dom() == old(self).beings_and_models.items().dom(),
            final(self).foods.items().dom() == old(self).foods.items().dom(),
            final(self).obstructs == old(self).obstructs,
            final(self).speechlets.items().dom() == old(self).speechlets.items().dom(),
            eaten_kept(old(self).foods, final(self).foods),
            forall|x: u64| #[trigger] final(self).beings_and_models.items().contains_key(x)
                ==> final(self).beings_and_models.items()[x].pos == old(self).beings_and_models.items()[x].pos,
            forall|x: u64| #[trigger] final(self).beings_and_models.items().contains_key(x) && x != k
                ==> final(self).beings_and_models.items()[x] == old(self).beings_and_models.items()[x],
            no_gain_above_cap(old(self).beings_and_models.items()[k], final(self).beings_and_models.items()[k]),
            final(self).beings_and_models.items()[k].cell == old(self).beings_and_models.items()[k].cell,
            body_radius(final(self).beings_and_models.items()[k]) == body_radius(old(self).beings_and_models.items()[k]),
            foods_fixed(old(self).foods, final(self).foods),
            signals_fixed(old(self).speechlets, final(self).speechlets),
            forall|y: u64| #[trigger] signal_heard(old(self).grid, old(self).beings_and_models.items()[k],
                old(self).speechlets, final(self).speechlets, y),
            crate::act::being_of(final(self).beings_and_models.items()[k]).pos_update == pos_after_view(
                crate::act::being_of(old(self).beings_and_models.items()[k]).pos_update,
                subject_of(k, old(self).beings_and_models.items()[k]),
                view_of(old(self).grid, old(self).beings_and_models.items()[k]), old(self).beings_and_models,
                old(self).obstructs, old(self).grid.side()),
            final(self).beings_and_models.cells@ == old(self).beings_and_models.cells@,
            crate::act::being_of(final(self).beings_and_models.items()[k]).being_inputs.len()
                == crate::act::being_of(old(self).beings_and_models.items()[k]).being_inputs.len()
                + view_rows(view_of(old(self).grid, old(self).beings_and_models.items()[k]), k, old(self).beings_and_models.cells@),
            crate::act::being_of(final(self).beings_and_models.items()[k]).food_obstruct_inputs.len()
                == crate::act::being_of(old(self).beings_and_models.items()[k]).food_obstruct_inputs.len()
                + view_things(view_of(old(self).grid, old(self).beings_and_models.items()[k]), old(self).obstructs.cells@,
                old(self).foods.cells@),
            (crate::act::being_of(final(self).beings_and_models.items()[k]).energy_update as int, eaten_set(final(self).foods))
                == energy_after_view((crate::act::being_of(old(self).beings_and_models.items()[k]).energy_update as int,
                eaten_set(old(self).foods)), subject_of(k, old(self).beings_and_models.items()[k]),
                view_of(old(self).grid, old(self).beings_and_models.items()[k]), old(self).beings_and_models,
                old(self).obstructs, old(self).foods, substeps as int),
            forall|f: u64| #[trigger] food_taken(old(self).grid, old(self).beings_and_models.items()[k],
                old(self).foods, final(self).foods, f),
    {
        assert(being_ok(self.beings_and_models.items()[k]));
        let e = self.beings_and_models.get(k);
        let cell = e.cell;
        let (s, mut acc) = match &e.kind {
            Kind::Being(b) => {
                let s = Subject { key: k, pos: e.pos, radius: b.radius, heading: b.heading, energy: b.energy, id: b.id };
                (s, Accum::from_being(b))
            },
            _ => {
                return;
            },
        };
        assert(in_box(s.pos));
        assert(s == subject_of(k, old(self).beings_and_models.items()[k]));
        assert(acc.pos_update == crate::act::being_of(old(self).beings_and_models.items()[k]).pos_update);
        assert(acc.energy_update == crate::act::being_of(old(self).beings_and_models.items()[k]).energy_update);
        let cells = self.grid.neighbour_cells(cell.0, cell.1);
        let mut j: usize = 0;
        while j < cells.len()
            invariant
                self.wf(),
                s.wf(),
                acc.wf(),
                1 <= substeps as int <= i64::MAX as int,
                self.grid == old(self).grid,
                forall|m: int| 0 <= m < cells.len() ==> #[trigger] cells[m] < self.grid.n_total(),
                self.beings_and_models == old(self).beings_and_models,
                self.foods.items().dom() == old(self).foods.items().dom(),
                self.obstructs == old(self).obstructs,
                self.speechlets.items().dom() == old(self).speechlets.items().dom(),
                eaten_kept(old(self).foods, self.foods),
                s.energy >= B_START_ENERGY ==> acc.energy_update <= pending_energy(old(self).beings_and_models.items()[k]),
                s.energy == crate::lifecycle::energy_of(old(self).beings_and_models.items()[k]),
                s.key == k,
                s.pos == old(self).beings_and_models.items()[k].pos,
                s.radius as int == body_radius(old(self).beings_and_models.items()[k]),
                cells@ == neighbours(self.grid.view@, cell.0 as int, cell.1 as int, self.grid.n_cells as int),
                cell == old(self).beings_and_models.items()[k].cell,
                old(self).wf(),
                j <= cells.len(),
                signals_fixed(old(self).speechlets, self.speechlets),
                forall|m: int, y: u64| #![trigger old(self).speechlets.list(cells@[m] as int).contains(y)] 0 <= m < j
                    && old(self).speechlets.list(cells@[m] as int).contains(y)
                    && touches_signal(s.pos, s.radius as int, old(self).speechlets, y)
                    ==> heard_by(self.speechlets, y, s.id),
                s == subject_of(k, old(self).beings_and_models.items()[k]),
                acc.being_rows.len() == view_rows(cells@.take(j as int), k, old(self).beings_and_models.cells@),
                acc.thing_rows.len() == view_things(cells@.take(j as int), old(self).obstructs.cells@, old(self).foods.cells@),
                (acc.energy_update as int, eaten_set(self.foods)) == energy_after_view(
                    (crate::act::being_of(old(self).beings_and_models.items()[k]).energy_update as int, eaten_set(old(self).foods)),
                    s, cells@.take(j as int), old(self).beings_and_models, old(self).obstructs, old(self).foods, substeps as int),
                acc.pos_update == pos_after_view(crate::act::being_of(old(self).beings_and_models.items()[k]).pos_update, s,
                    cells@.take(j as int), old(self).beings_and_models, old(self).obstructs, self.grid.side()),
                foods_fixed(old(self).foods, self.foods),
                forall|m: int, f: u64| #![trigger old(self).foods.list(cells@[m] as int).contains(f)] 0 <= m < j && old(self).foods.list(cells@[m] as int).contains(f)
                    && s.energy < B_START_ENERGY && touches_food(s.pos, s.radius as int, old(self).foods, f)
                    ==> is_eaten(self.foods.items()[f]),
            decreases cells.len() - j,
        {
            let c = cells[j];
            assert(cells@.take(j + 1).drop_last() =~= cells@.take(j as int));
            assert(cells@.take(j + 1).last() == c);
            self.collide_beings(&s, c, &mut acc, substeps);
            self.collide_obstructs(&s, c, &mut acc, substeps);
            let ghost mid = self.foods;
            self.collide_foods(&s, c, &mut acc);
            proof {
                assert(c < old(self).foods.cells.len());
                assert forall|i: int| 0 <= i < mid.list(c as int).len() implies mid.items().contains_key(#[trigger] mid.list(c as int)[i]) by {
                    assert(mid.list(c as int).contains(mid.list(c as int)[i]));
                }
                lemma_food_fold_same((energy_after_obstructs(energy_after_beings(
                    energy_after_view((crate::act::being_of(old(self).beings_and_models.items()[k]).energy_update as int,
                    eaten_set(old(self).foods)), s, cells@.take(j as int), old(self).beings_and_models, old(self).obstructs,
                    old(self).foods, substeps as int).0, s, old(self).beings_and_models.list(c as int),
                    old(self).beings_and_models.items(), substeps as int), s, old(self).obstructs.list(c as int),
                    old(self).obstructs.items(), substeps as int), eaten_set(mid)), s, mid.list(c as int), mid, old(self).foods);
                assert forall|x: u64| #[trigger] self.foods.items().contains_key(x) implies
                    self.foods.items()[x].pos == old(self).foods.items()[x].pos by {
                    assert(mid.items().contains_key(x));
                }
                assert forall|m: int, f: u64| #![trigger old(self).foods.list(cells@[m] as int).contains(f)] 0 <= m < j + 1 && old(self).foods.list(cells@[m] as int).contains(f)
                    && s.energy < B_START_ENERGY && touches_food(s.pos, s.radius as int, old(self).foods, f)
                    implies is_eaten(self.foods.items()[f]) by {
                    assert(old(self).foods.cells.len() == self.grid.n_total());
                    assert(cells[m] < self.grid.n_total());
                    assert(old(self).foods.wf(&old(self).grid));
                    let x = f;
                    assert(old(self).foods.items().contains_key(x));
                    assert(mid.items()[x].pos == old(self).foods.items()[x].pos);
                    if m < j {
                        assert(is_eaten(mid.items()[x]));
                        assert(mid.items().contains_key(x));
                    } else {
                        assert(mid.list(c as int) == old(self).foods.list(c as int));
                        assert(touches_food(s.pos, s.radius as int, mid, x));
                    }
                }
                assert forall|x: u64| #[trigger] old(self).foods.items().contains_key(x) implies
                    (is_eaten(old(self).foods.items()[x]) ==> is_eaten(self.foods.items()[x])) by {
                    assert(is_eaten(old(self).foods.items()[x]) ==> is_eaten(mid.items()[x]));
                    assert(mid.items().contains_key(x));
                }
            }
            let ghost mids = self.speechlets;
            self.collide_speechlets(&s, c, &mut acc);
            proof {
                assert forall|y: u64| #[trigger] self.speechlets.items().contains_key(y) implies
                    self.speechlets.items()[y].pos == old(self).speechlets.items()[y].pos
                    && signal_radius(self.speechlets.items()[y]) == signal_radius(old(self).speechlets.items()[y])
                    && (forall|id: u64| heard_by(old(self).speechlets, y, id) ==> heard_by(self.speechlets, y, id)) by {
                    assert(mids.items().contains_key(y));
                    assert forall|id: u64| heard_by(old(self).speechlets, y, id) implies heard_by(self.speechlets, y, id) by {
                        assert(heard_by(mids, y, id));
                    }
                }
                assert forall|m: int, y: u64| #![trigger old(self).speechlets.list(cells@[m] as int).contains(y)] 0 <= m < j + 1
                    && old(self).speechlets.list(cells@[m] as int).contains(y)
                    && touches_signal(s.pos, s.radius as int, old(self).speechlets, y)
                    implies heard_by(self.speechlets, y, s.id) by {
                    assert(cells[m] < self.grid.n_total());
                    assert(old(self).speechlets.wf(&old(self).grid));
                    assert(old(self).speechlets.items().contains_key(y));
                    assert(mids.items().contains_key(y));
                    if m < j {
                        assert(heard_by(mids, y, s.id));
                    } else {
                        assert(mids.list(c as int) == old(self).speechlets.list(c as int));
                        assert(touches_signal(s.pos, s.radius as int, mids, y));
                    }
                }
            }
            j = j + 1;
        }
        assert(cells@.take(cells.len() as int) =~= cells@);
        let ghost before = *self;
        let ghost brows = acc.being_rows@;
        let ghost trows = acc.thing_rows@;
        let ghost srows = acc.signal_rows@;
        let ghost acc0 = acc;
        let bm = self.beings_and_models.kind_mut(k);
        if let Kind::Being(b) = bm {
            b.pos_update = acc.pos_update;
            b.energy_update = acc.energy_update;
            b.being_inputs.append(&mut acc.being_rows);
            b.food_obstruct_inputs.append(&mut acc.thing_rows);
            b.speechlet_inputs.append(&mut acc.signal_rows);
        }
        proof {
            assert(self.beings_and_models.items().dom() =~= before.beings_and_models.items().dom());
            Store::lemma_same_layout(before.beings_and_models, self.beings_and_models, &self.grid);
            let nb = self.beings_and_models.items()[k];
            let ob = before.beings_and_models.items()[k];
            if let Kind::Being(b) = nb.kind {
                if let Kind::Being(b0) = ob.kind {
                    assert(b.being_inputs@ == b0.being_inputs@ + brows);
                    assert forall|i: int| 0 <= i < b.being_inputs.len() implies (#[trigger] b.being_inputs[i]).len() == crate::consts::BEING_ROW_LEN by {
                        if i < b0.being_inputs.len() {
                            assert(b.being_inputs[i] == b0.being_inputs[i]);
                        } else {
                            assert(b.being_inputs[i] == acc0.being_rows[i - b0.being_inputs.len()]);
                        }
                    }
                    assert forall|i: int| 0 <= i < b.food_obstruct_inputs.len() implies (#[trigger] b.food_obstruct_inputs[i]).len() == crate::consts::THING_ROW_LEN by {
                        if i < b0.food_obstruct_inputs.len() {
                            assert(b.food_obstruct_inputs[i] == b0.food_obstruct_inputs[i]);
                        } else {
                            assert(b.food_obstruct_inputs[i] == acc0.thing_rows[i - b0.food_obstruct_inputs.len()]);
                        }
                    }
                    assert forall|i: int| 0 <= i < b.speechlet_inputs.len() implies (#[trigger] b.speechlet_inputs[i]).len() == crate::consts::SPEECHLET_LEN by {
                        if i < b0.speechlet_inputs.len() {
                            assert(b.speechlet_inputs[i] == b0.speechlet_inputs[i]);
                        } else {
                            assert(b.speechlet_inputs[i] == acc0.signal_rows[i - b0.speechlet_inputs.len()]);
                        }
                    }
                }
            }
            assert forall|x: u64| #[trigger] self.beings_and_models.items().contains_key(x)
                implies being_ok(self.beings_and_models.items()[x]) by {
                assert(being_ok(before.beings_and_models.items()[x]));
            }
        }
        assert forall|f: u64| #[trigger] food_taken(old(self).grid, old(self).beings_and_models.items()[k],
            old(self).foods, self.foods, f) by {
            let e0 = old(self).beings_and_models.items()[k];
            if (exists|c: int| #[trigger] neighbours(old(self).grid.view@, e0.cell.0 as int, e0.cell.1 as int, old(self).grid.n_cells as int).contains(c as usize)
                && 0 <= c < old(self).foods.cells.len() && old(self).foods.list(c).contains(f))
                && body_energy(e0) < B_START_ENERGY && touches_food(e0.pos, body_radius(e0), old(self).foods, f) {
                let c = choose|c: int| #[trigger] neighbours(old(self).grid.view@, e0.cell.0 as int, e0.cell.1 as int, old(self).grid.n_cells as int).contains(c as usize)
                    && 0 <= c < old(self).foods.cells.len() && old(self).foods.list(c).contains(f);
                let m = choose|m: int| 0 <= m < cells.len() && cells@[m] == c as usize;
                assert(cells@[m] as int == c);
            }
        }
        assert forall|y: u64| #[trigger] signal_heard(old(self).grid, old(self).beings_and_models.items()[k],
            old(self).speechlets, self.speechlets, y) by {
            let e0 = old(self).beings_and_models.items()[k];
            if (exists|c: int| #[trigger] neighbours(old(self).grid.view@, e0.cell.0 as int, e0.cell.1 as int, old(self).grid.n_cells as int).contains(c as usize)
                && 0 <= c < old(self).speechlets.cells.len() && old(self).speechlets.list(c).contains(y))
                && touches_signal(e0.pos, body_radius(e0), old(self).speechlets, y) {
                let c = choose|c: int| #[trigger] neighbours(old(self).grid.view@, e0.cell.0 as int, e0.cell.1 as int, old(self).grid.n_cells as int).contains(c as usize)
                    && 0 <= c < old(self).speechlets.cells.len() && old(self).speechlets.list(c).contains(y);
                let m = choose|m: int| 0 <= m < cells.len() && cells@[m] == c as usize;
                assert(cells@[m] as int == c);
            }
        }
    }
    /// Collide: every being scans its field of view, in turn.
    pub fn check_collisions(&mut self, substeps: usize)
        requires
            old(self).wf(),
            1 <= substeps as int <= i64::MAX as int,
        ensures
            final(self).wf(),
            final(self).grid == old(self).grid,
            final(self).beings_and_models.items().dom() == old(self).beings_and_models.items().dom(),
            final(self).foods.items().dom() == old(self).foods.items().dom(),
            eaten_kept(old(self).foods, final(self).foods),
            forall|x: u64| #[trigger] final(self).beings_and_models.items().contains_key(x)
                ==> final(self).beings_and_models.items()[x].pos == old(self).beings_and_models.items()[x].pos,
            forall|x: u64| #[trigger] final(self).beings_and_models.items().contains_key(x)
                ==> no_gain_above_cap(old(self).beings_and_models.items()[x], final(self).beings_and_models.items()[x]),
            foods_fixed(old(self).foods, final(self).foods),
            forall|x: u64| #[trigger] final(self).beings_and_models.items().contains_key(x)
                ==> crate::act::being_of(final(self).beings_and_models.items()[x]).pos_update == pos_after_view(
                crate::act::being_of(old(self).beings_and_models.items()[x]).pos_update,
                subject_of(x, old(self).beings_and_models.items()[x]),
                view_of(old(self).grid, old(self).beings_and_models.items()[x]), old(self).beings_and_models,
                old(self).obstructs, old(self).grid.side()),
            forall|x: u64, f: u64| old(self).beings_and_models.items().contains_key(x)
                ==> #[trigger] food_taken(old(self).grid, old(self).beings_and_models.items()[x], old(self).foods,
                final(self).foods, f),
            final(self).obstructs == old(self).obstructs,
            signals_fixed(old(self).speechlets, final(self).speechlets),
            forall|x: u64, y: u64| old(self).beings_and_models.items().contains_key(x)
                ==> #[trigger] signal_heard(old(self).grid, old(self).beings_and_models.items()[x], old(self).speechlets,
                final(self).speechlets, y),
            forall|x: u64| #[trigger] final(self).beings_and_models.items().contains_key(x)
                ==> rows_seen(*old(self), *final(self), x),
            exists|order: Seq<u64>| #[trigger] order.no_duplicates()
                && (forall|x: u64| order.contains(x) <==> old(self).beings_and_models.items().contains_key(x))
                && eaten_set(final(self).foods) == collide_all(order, old(self).grid, old(self).beings_and_models,
                    old(self).obstructs, old(self).foods, substeps as int).1
                && (forall|x: u64| #[trigger] final(self).beings_and_models.items().contains_key(x)
                    ==> crate::act::being_of(final(self).beings_and_models.items()[x]).energy_update as int
                    == collide_all(order, old(self).grid, old(self).beings_and_models, old(self).obstructs, old(self).foods,
                    substeps as int).0[x]),
            final(self).beings_and_models.cells@ == old(self).beings_and_models.cells@,
            collided(*old(self), *final(self), substeps),
    {
        let keys = self.beings_and_models.keys();
        let mut i: usize = 0;
        while i < keys.len()
            invariant
                self.wf(),
                1 <= substeps as int <= i64::MAX as int,
                self.grid == old(self).grid,
                forall|k: u64| keys@.contains(k) <==> old(self).beings_and_models.items().contains_key(k),
                self.beings_and_models.items().dom() == old(self).beings_and_models.items().dom(),
                self.foods.items().dom() == old(self).foods.items().dom(),
                eaten_kept(old(self).foods, self.foods),
                forall|x: u64| #[trigger] self.beings_and_models.items().contains_key(x)
                    ==> self.beings_and_models.items()[x].pos == old(self).beings_and_models.items()[x].pos,
                i <= keys.len(),
                keys@.no_duplicates(),
                forall|j: int| #![trigger keys@[j]] i <= j < keys.len() ==>
                    self.beings_and_models.items()[keys@[j]] == old(self).beings_and_models.items()[keys@[j]],
                forall|j: int| #![trigger keys@[j]] 0 <= j < i ==>
                    no_gain_above_cap(old(self).beings_and_models.items()[keys@[j]], self.beings_and_models.items()[keys@[j]]),
                foods_fixed(old(self).foods, self.foods),
                old(self).wf(),
                signals_fixed(old(self).speechlets, self.speechlets),
                forall|j: int, y: u64| 0 <= j < i ==> #[trigger] signal_heard(old(self).grid,
                    old(self).beings_and_models.items()[keys@[j]], old(self).speechlets, self.speechlets, y),
                forall|j: int| #![trigger keys@[j]] 0 <= j < i ==> rows_seen(*old(self), *self, keys@[j]),
                eaten_set(self.foods) == collide_all(keys@.take(i as int), old(self).grid, old(self).beings_and_models,
                    old(self).obstructs, old(self).foods, substeps as int).1,
                forall|j: int| #![trigger keys@[j]] 0 <= j < i ==>
                    crate::act::being_of(self.beings_and_models.items()[keys@[j]]).energy_update as int
                    == collide_all(keys@.take(i as int), old(self).grid, old(self).beings_and_models, old(self).obstructs,
                    old(self).foods, substeps as int).0[keys@[j]],
                forall|x: u64| #[trigger] self.beings_and_models.items().contains_key(x)
                    ==> self.beings_and_models.items()[x].cell == old(self).beings_and_models.items()[x].cell
                    && body_radius(self.beings_and_models.items()[x]) == body_radius(old(self).beings_and_models.items()[x])
                    && body_energy(self.beings_and_models.items()[x]) == body_energy(old(self).beings_and_models.items()[x]),
                self.beings_and_models.cells@ == old(self).beings_and_models.cells@,
                self.obstructs == old(self).obstructs,
                forall|j: int| #![trigger keys@[j]] 0 <= j < i ==>
                    crate::act::being_of(self.beings_and_models.items()[keys@[j]]).pos_update == pos_after_view(
                    crate::act::being_of(old(self).beings_and_models.items()[keys@[j]]).pos_update,
                    subject_of(keys@[j], old(self).beings_and_models.items()[keys@[j]]),
                    view_of(old(self).grid, old(self).beings_and_models.items()[keys@[j]]), old(self).beings_and_models,
                    old(self).obstructs, old(self).grid.side()),
                forall|j: int, f: u64| 0 <= j < i ==> #[trigger] food_taken(old(self).grid,
                    old(self).beings_and_models.items()[keys@[j]], old(self).foods, self.foods, f),
            decreases keys.len() - i,
        {
            let k = keys[i];
            assert(keys@.contains(k));
            let ghost mid = *self;
            assert(being_ok(old(self).beings_and_models.items()[k]));
            self.scan(k, substeps as i64);
            proof {
                assert forall|x: u64| #[trigger] self.foods.items().contains_key(x) implies
                    self.foods.items()[x].pos == old(self).foods.items()[x].pos by {
                    assert(mid.foods.items().contains_key(x));
                }
                assert forall|x: u64| #[trigger] self.beings_and_models.items().contains_key(x) implies
                    self.beings_and_models.items()[x].cell == old(self).beings_and_models.items()[x].cell
                    && body_radius(self.beings_and_models.items()[x]) == body_radius(old(self).beings_and_models.items()[x])
                    && body_energy(self.beings_and_models.items()[x]) == body_energy(old(self).beings_and_models.items()[x]) by {
                    assert(mid.beings_and_models.items().contains_key(x));
                    assert(being_ok(mid.beings_and_models.items()[x]));
                }
                let ek = old(self).beings_and_models.items()[k];
                assert forall|y: u64| #[trigger] self.speechlets.items().contains_key(y) implies
                    self.speechlets.items()[y].pos == old(self).speechlets.items()[y].pos
                    && signal_radius(self.speechlets.items()[y]) == signal_radius(old(self).speechlets.items()[y])
                    && (forall|id: u64| heard_by(old(self).speechlets, y, id) ==> heard_by(self.speechlets, y, id)) by {
                    assert(mid.speechlets.items().contains_key(y));
                    assert forall|id: u64| heard_by(old(self).speechlets, y, id) implies heard_by(self.speechlets, y, id) by {
                        assert(heard_by(mid.speechlets, y, id));
                    }
                }
                assert forall|j: int, y: u64| 0 <= j < i + 1 implies #[trigger] signal_heard(old(self).grid,
                    old(self).beings_and_models.items()[keys@[j]], old(self).speechlets, self.speechlets, y) by {
                    let e0 = old(self).beings_and_models.items()[keys@[j]];
                    if (exists|c: int| #[trigger] neighbours(old(self).grid.view@, e0.cell.0 as int, e0.cell.1 as int, old(self).grid.n_cells as int).contains(c as usize)
                        && 0 <= c < old(self).speechlets.cells.len() && old(self).speechlets.list(c).contains(y))
                        && touches_signal(e0.pos, body_radius(e0), old(self).speechlets, y) {
                        assert(old(self).speechlets.items().contains_key(y)) by {
                            let c = choose|c: int| #[trigger] neighbours(old(self).grid.view@, e0.cell.0 as int, e0.cell.1 as int, old(self).grid.n_cells as int).contains(c as usize)
                                && 0 <= c < old(self).speechlets.cells.len() && old(self).speechlets.list(c).contains(y);
                            assert(old(self).speechlets.list(c).contains(y));
                        }
                        assert(mid.speechlets.items().contains_key(y));
                        if j < i {
                            assert(signal_heard(old(self).grid, e0, old(self).speechlets, mid.speechlets, y));
                            assert(heard_by(mid.speechlets, y, crate::act::being_of(e0).id));
                        } else {
                            assert(touches_signal(ek.pos, body_radius(ek), mid.speechlets, y));
                            assert(signal_heard(mid.grid, ek, mid.speechlets, self.speechlets, y));
                        }
                    }
                }
                assert(mid.beings_and_models.items()[k] == ek);
                assert(same_bodies(old(self).beings_and_models.items(), mid.beings_and_models.items())) by {
                    assert forall|x: u64| #[trigger] old(self).beings_and_models.items().contains_key(x) implies
                        old(self).beings_and_models.items()[x].pos == mid.beings_and_models.items()[x].pos
                        && body_radius(old(self).beings_and_models.items()[x]) == body_radius(mid.beings_and_models.items()[x]) by {
                        assert(mid.beings_and_models.items().contains_key(x));
                    }
                }
                assert(being_ok(ek));
                lemma_view_in_range(old(self).grid.view@, ek.cell.0 as int, ek.cell.1 as int, old(self).grid.n_cells as int);
                assert forall|j: int| #![trigger keys@[j]] 0 <= j < i + 1 implies rows_seen(*old(self), *self, keys@[j]) by {
                    if j < i {
                        assert(keys@[j] != k);
                        assert(keys@.contains(keys@[j]));
                    }
                }
                assert(keys@.take(i + 1).drop_last() =~= keys@.take(i as int));
                assert(keys@.take(i + 1).last() == k);
                assert(foods_fixed(old(self).foods, mid.foods));
                lemma_energy_view_same((crate::act::being_of(ek).energy_update as int, eaten_set(mid.foods)), subject_of(k, ek),
                    view_of(old(self).grid, ek), old(self).beings_and_models, mid.beings_and_models, old(self).obstructs,
                    old(self).foods, mid.foods, &old(self).grid, substeps as int);
                let pr = collide_all(keys@.take(i as int), old(self).grid, old(self).beings_and_models, old(self).obstructs,
                    old(self).foods, substeps as int);
                assert forall|j: int| #![trigger keys@[j]] 0 <= j < i + 1 implies
                    crate::act::being_of(self.beings_and_models.items()[keys@[j]]).energy_update as int
                    == collide_all(keys@.take(i + 1), old(self).grid, old(self).beings_and_models, old(self).obstructs,
                    old(self).foods, substeps as int).0[keys@[j]] by {
                    if j < i {
                        assert(keys@[j] != k);
                        assert(keys@.contains(keys@[j]));
                        assert(crate::act::being_of(self.beings_and_models.items()[keys@[j]]).energy_update as int == pr.0[keys@[j]]);
                    }
                }
                lemma_view_fold_same(crate::act::being_of(ek).pos_update, subject_of(k, ek), view_of(old(self).grid, ek),
                    old(self).beings_and_models, mid.beings_and_models, old(self).obstructs, &old(self).grid, old(self).grid.side());
                assert forall|j: int| #![trigger keys@[j]] 0 <= j < i + 1 implies
                    crate::act::being_of(self.beings_and_models.items()[keys@[j]]).pos_update == pos_after_view(
                    crate::act::being_of(old(self).beings_and_models.items()[keys@[j]]).pos_update,
                    subject_of(keys@[j], old(self).beings_and_models.items()[keys@[j]]),
                    view_of(old(self).grid, old(self).beings_and_models.items()[keys@[j]]), old(self).beings_and_models,
                    old(self).obstructs, old(self).grid.side()) by {
                    if j < i {
                        assert(keys@[j] != k);
                        assert(keys@.contains(keys@[j]));
                    }
                }
                let mk = mid.beings_and_models.items()[k];
                assert(mk.pos == ek.pos && mk.cell == ek.cell && body_radius(mk) == body_radius(ek)
                    && body_energy(mk) == body_energy(ek));
                assert forall|j: int, f: u64| 0 <= j < i + 1 implies #[trigger] food_taken(old(self).grid,
                    old(self).beings_and_models.items()[keys@[j]], old(self).foods, self.foods, f) by {
                    let e0 = old(self).beings_and_models.items()[keys@[j]];
                    if (exists|c: int| #[trigger] neighbours(old(self).grid.view@, e0.cell.0 as int, e0.cell.1 as int, old(self).grid.n_cells as int).contains(c as usize)
                        && 0 <= c < old(self).foods.cells.len() && old(self).foods.list(c).contains(f))
                        && body_energy(e0) < B_START_ENERGY && touches_food(e0.pos, body_radius(e0), old(self).foods, f) {
                        assert(old(self).foods.items().contains_key(f)) by {
                            let c = choose|c: int| #[trigger] neighbours(old(self).grid.view@, e0.cell.0 as int, e0.cell.1 as int, old(self).grid.n_cells as int).contains(c as usize)
                                && 0 <= c < old(self).foods.cells.len() && old(self).foods.list(c).contains(f);
                            assert(old(self).foods.list(c).contains(f));
                        }
                        assert(mid.foods.items()[f].pos == old(self).foods.items()[f].pos);
                        if j < i {
                            assert(food_taken(old(self).grid, e0, old(self).foods, mid.foods, f));
                            assert(is_eaten(mid.foods.items()[f]));
                        } else {
                            assert(touches_food(mk.pos, body_radius(mk), mid.foods, f));
                            assert(food_taken(mid.grid, mk, mid.foods, self.foods, f));
                        }
                    }
                }
                assert forall|x: u64| #[trigger] old(self).foods.items().contains_key(x) implies
                    (is_eaten(old(self).foods.items()[x]) ==> is_eaten(self.foods.items()[x])) by {
                    assert(mid.foods.items().contains_key(x));
                }
                assert forall|j: int| #![trigger keys@[j]] i + 1 <= j < keys.len() implies
                    self.beings_and_models.items()[keys@[j]] == old(self).beings_and_models.items()[keys@[j]] by {
                    assert(keys@[j] != k);
                    assert(keys@.contains(keys@[j]));
                }
                assert forall|j: int| #![trigger keys@[j]] 0 <= j < i + 1 implies
                    no_gain_above_cap(old(self).beings_and_models.items()[keys@[j]], self.beings_and_models.items()[keys@[j]]) by {
                    if j < i {
                        assert(keys@[j] != k);
                        assert(keys@.contains(keys@[j]));
                    }
                }
            }
            i = i + 1;
        }
        assert forall|x: u64| #[trigger] self.beings_and_models.items().contains_key(x) implies
            no_gain_above_cap(old(self).beings_and_models.items()[x], self.beings_and_models.items()[x]) by {
            assert(keys@.contains(x));
            let j = choose|j: int| 0 <= j < keys.len() && #[trigger] keys@[j] == x;
        }
        assert forall|x: u64, f: u64| old(self).beings_and_models.items().contains_key(x)
            implies #[trigger] food_taken(old(self).grid, old(self).beings_and_models.items()[x], old(self).foods, self.foods, f) by {
            assert(keys@.contains(x));
            let j = choose|j: int| 0 <= j < keys.len() && #[trigger] keys@[j] == x;
            assert(food_taken(old(self).grid, old(self).beings_and_models.items()[keys@[j]], old(self).foods, self.foods, f));
        }
        assert forall|x: u64| #[trigger] self.beings_and_models.items().contains_key(x) implies
            crate::act::being_of(self.beings_and_models.items()[x]).pos_update == pos_after_view(
            crate::act::being_of(old(self).beings_and_models.items()[x]).pos_update,
            subject_of(x, old(self).beings_and_models.items()[x]),
            view_of(old(self).grid, old(self).beings_and_models.items()[x]), old(self).beings_and_models,
            old(self).obstructs, old(self).grid.side()) by {
            assert(keys@.contains(x));
            let j = choose|j: int| 0 <= j < keys.len() && #[trigger] keys@[j] == x;
        }
        assert(keys@.take(keys.len() as int) =~= keys@);
        assert forall|x: u64| #[trigger] self.beings_and_models.items().contains_key(x) implies
            crate::act::being_of(self.beings_and_models.items()[x]).energy_update as int
            == collide_all(keys@, old(self).grid, old(self).beings_and_models, old(self).obstructs, old(self).foods,
            substeps as int).0[x] by {
            assert(keys@.contains(x));
            let j = choose|j: int| 0 <= j < keys.len() && #[trigger] keys@[j] == x;
        }
        assert forall|x: u64| #[trigger] self.beings_and_models.items().contains_key(x) implies
            rows_seen(*old(self), *self, x) by {
            assert(keys@.contains(x));
            let j = choose|j: int| 0 <= j < keys.len() && #[trigger] keys@[j] == x;
        }
        assert forall|x: u64, y: u64| old(self).beings_and_models.items().contains_key(x)
            implies #[trigger] signal_heard(old(self).grid, old(self).beings_and_models.items()[x], old(self).speechlets, self.speechlets, y) by {
            assert(keys@.contains(x));
            let j = choose|j: int| 0 <= j < keys.len() && #[trigger] keys@[j] == x;
            assert(signal_heard(old(self).grid, old(self).beings_and_models.items()[keys@[j]], old(self).speechlets, self.speechlets, y));
        }
        assert(keys@.no_duplicates());
    }

    /// MoveIntent: every being adds one substep's movement intent to its
    /// accumulators; nothing moves yet.
    pub fn move_beings(&mut self, substeps: usize)
        requires
            old(self).wf(),
            1 <= substeps as int <= i64::MAX as int,
        ensures
            final(self).wf(),
            final(self).grid == old(self).grid,
            final(self).obstructs == old(self).obstructs,
            final(self).foods == old(self).foods,
            final(self).speechlets == old(self).speechlets,
            final(self).food_deaths == old(self).food_deaths,
            final(self).beings_and_models.items().dom() == old(self).beings_and_models.items().dom(),
            forall|x: u64| #[trigger] final(self).beings_and_models.items().contains_key(x)
                ==> final(self).beings_and_models.items()[x].pos == old(self).beings_and_models.items()[x].pos,
            forall|x: u64| #[trigger] final(self).beings_and_models.items().contains_key(x)
                ==> intended(old(self).beings_and_models.items()[x], final(self).beings_and_models.items()[x],
                    old(self).grid.side(), substeps as int),
            moved(*old(self), *final(self), substeps),
    {
        let side = self.grid.n_cells as i64 * self.grid.cell_len;
        let keys = self.beings_and_models.keys();
        let mut i: usize = 0;
        while i < keys.len()
            invariant
                self.wf(),
                1 <= substeps as int <= i64::MAX as int,
                keys@.no_duplicates(),
                i <= keys.len(),
                forall|j: int| #![trigger keys@[j]] i <= j < keys.len() ==>
                    self.beings_and_models.items()[keys@[j]] == old(self).beings_and_models.items()[keys@[j]],
                forall|j: int| #![trigger keys@[j]] 0 <= j < i ==>
                    intended(old(self).beings_and_models.items()[keys@[j]], self.beings_and_models.items()[keys@[j]],
                        side as int, substeps as int),
                side == self.grid.side(),
                self.grid == old(self).grid,
                self.obstructs == old(self).obstructs,
                self.foods == old(self).foods,
                self.speechlets == old(self).speechlets,
                self.food_deaths == old(self).food_deaths,
                forall|k: u64| keys@.contains(k) <==> old(self).beings_and_models.items().contains_key(k),
                self.beings_and_models.items().dom() == old(self).beings_and_models.items().dom(),
                forall|x: u64| #[trigger] self.beings_and_models.items().contains_key(x)
                    ==> self.beings_and_models.items()[x].pos == old(self).beings_and_models.items()[x].pos,
            decreases keys.len() - i,
        {
            let k = keys[i];
            assert(keys@.contains(k));
            assert(being_ok(self.beings_and_models.items()[k]));
            let e = self.beings_and_models.get(k);
            let pos = e.pos;
            let intent = match &e.kind {
                Kind::Being(b) => move_intent(pos, b, side, substeps as i64),
                _ => (Point { x: 0, y: 0 }, 0),
            };
            let ghost before = *self;
            let bm = self.beings_and_models.kind_mut(k);
            if let Kind::Being(b) = bm {
                b.pos_update = Point {
                    x: clamp(b.pos_update.x + intent.0.x, MAX_COORD),
                    y: clamp(b.pos_update.y + intent.0.y, MAX_COORD),
                };
                b.energy_update = clamp(b.energy_update + intent.1, VALUE_CAP);
            }
            proof {
                assert(self.beings_and_models.items().dom() =~= before.beings_and_models.items().dom());
                Store::lemma_same_layout(before.beings_and_models, self.beings_and_models, &self.grid);
                assert forall|x: u64| #[trigger] self.beings_and_models.items().contains_key(x)
                    implies being_ok(self.beings_and_models.items()[x]) by {
                    assert(being_ok(before.beings_and_models.items()[x]));
                }
                assert forall|j: int| #![trigger keys@[j]] i + 1 <= j < keys.len() implies
                    self.beings_and_models.items()[keys@[j]] == old(self).beings_and_models.items()[keys@[j]] by {
                    assert(keys@[j] != k);
                }
                assert forall|j: int| #![trigger keys@[j]] 0 <= j < i + 1 implies
                    intended(old(self).beings_and_models.items()[keys@[j]], self.beings_and_models.items()[keys@[j]],
                        side as int, substeps as int) by {
                    if j < i {
                        assert(keys@[j] != k);
                    }
                }
            }
            i = i + 1;
        }
        assert forall|x: u64| #[trigger] self.beings_and_models.items().contains_key(x) implies
            intended(old(self).beings_and_models.items()[x], self.beings_and_models.items()[x],
                old(self).grid.side(), substeps as int) by {
            assert(keys@.contains(x));
            let j = choose|j: int| 0 <= j < keys.len() && #[trigger] keys@[j] == x;
        }
    }

    /// Commit: every being takes its accumulated energy change, and moves by
    /// its accumulated displacement when that keeps it clear of the walls
    /// (its cell membership follows); the accumulators return to zero.
    pub fn update_cells(&mut self)
        requires
            old(self).wf(),
        ensures
            final(self).wf(),
            final(self).grid == old(self).grid,
            final(self).obstructs == old(self).obstructs,
            final(self).foods == old(self).foods,
            final(self).speechlets == old(self).speechlets,
            final(self).food_deaths == old(self).food_deaths,
            final(self).beings_and_models.items().dom() == old(self).beings_and_models.items().dom(),
            forall|x: u64| #[trigger] final(self).beings_and_models.items().contains_key(x) ==> {
                let e0 = old(self).beings_and_models.items()[x];
                let e1 = final(self).beings_and_models.items()[x];
                e0.kind matches Kind::Being(b0) ==> e1.kind matches Kind::Being(b1) && committed(e0.pos, b0, e1.pos, b1, final(self).grid.side())
            },
            committed_world(*old(self), *final(self)),
    {
        let side = self.grid.n_cells as i64 * self.grid.cell_len;
        let keys = self.beings_and_models.keys();
        let mut i: usize = 0;
        while i < keys.len()
            invariant
                self.wf(),
                side == self.grid.side(),
                self.grid == old(self).grid,
                self.obstructs == old(self).obstructs,
                self.foods == old(self).foods,
                self.speechlets == old(self).speechlets,
                self.food_deaths == old(self).food_deaths,
                keys@.no_duplicates(),
                forall|k: u64| keys@.contains(k) <==> old(self).beings_and_models.items().contains_key(k),
                self.beings_and_models.items().dom() == old(self).beings_and_models.items().dom(),
                forall|j: int| #![trigger keys@[j]] i <= j < keys.len() ==>
                    self.beings_and_models.items()[keys@[j]] == old(self).beings_and_models.items()[keys@[j]],
                forall|j: int| #![trigger keys@[j]] 0 <= j < i ==> {
                    let x = keys@[j];
                    let e0 = old(self).beings_and_models.items()[x];
                    let e1 = self.beings_and_models.items()[x];
                    e0.kind matches Kind::Being(b0) ==> e1.kind matches Kind::Being(b1) && committed(e0.pos, b0, e1.pos, b1, self.grid.side())
                },
            decreases keys.len() - i,
        {
            let k = keys[i];
            assert(keys@.contains(k));
            assert(being_ok(self.beings_and_models.items()[k]));
            let ghost before = *self;
            let e = self.beings_and_models.get(k);
            let pos = e.pos;
            let (radius, upd) = match &e.kind {
                Kind::Being(b) => (b.radius, b.pos_update),
                _ => (0, Point { x: 0, y: 0 }),
            };
            let moves = lands_inside(pos, upd, radius, side);
            if moves {
                let q = Point { x: pos.x + upd.x, y: pos.y + upd.y };
                self.beings_and_models.relocate(&self.grid, k, q);
            }
            let ghost moved = *self;
            let bm = self.beings_and_models.kind_mut(k);
            if let Kind::Being(b) = bm {
                b.energy = clamp(b.energy + b.energy_update, VALUE_CAP);
                b.energy_update = 0;
                b.pos_update = Point { x: 0, y: 0 };
                if b.turn_pending {
                    b.heading = crate::act::rotate(b.heading, b.output.turn_cos, b.output.turn_sin);
                    b.turn_pending = false;
                }
            }
            proof {
                assert(self.beings_and_models.items().dom() =~= moved.beings_and_models.items().dom());
                Store::lemma_same_layout(moved.beings_and_models, self.beings_and_models, &self.grid);
                assert(moved.beings_and_models.items().dom() =~= before.beings_and_models.items().dom());
                assert forall|x: u64| #[trigger] self.beings_and_models.items().contains_key(x)
                    implies being_ok(self.beings_and_models.items()[x]) by {
                    assert(being_ok(before.beings_and_models.items()[x]));
                }
                assert forall|j: int| #![trigger keys@[j]] i + 1 <= j < keys.len() implies
                    self.beings_and_models.items()[keys@[j]] == old(self).beings_and_models.items()[keys@[j]] by {
                    assert(keys@[j] != k);
                }
                assert forall|j: int| #![trigger keys@[j]] 0 <= j < i + 1 implies {
                    let x = keys@[j];
                    let e0 = old(self).beings_and_models.items()[x];
                    let e1 = self.beings_and_models.items()[x];
                    e0.kind matches Kind::Being(b0) ==> e1.kind matches Kind::Being(b1) && committed(e0.pos, b0, e1.pos, b1, self.grid.side())
                } by {
                    if j < i {
                        assert(keys@[j] != k);
                    }
                }
            }
            i = i + 1;
        }
        assert forall|x: u64| #[trigger] self.beings_and_models.items().contains_key(x) implies {
            let e0 = old(self).beings_and_models.items()[x];
            let e1 = self.beings_and_models.items()[x];
            e0.kind matches Kind::Being(b0) ==> e1.kind matches Kind::Being(b1) && committed(e0.pos, b0, e1.pos, b1, self.grid.side())
        } by {
            assert(keys@.contains(x));
            let j = choose|j: int| 0 <= j < keys.len() && #[trigger] keys@[j] == x;
        }
    }
} // impl World

/// A being's accumulated energy change.
pub open spec fn pending_energy(e: Entity) -> int {
    match e.kind {
        Kind::Being(b) => b.energy_update as int,
        _ => 0,
    }
}

/// A being after a collision pass: its energy, heading, radius, identity,
/// trait vector, action and genome stay, and at or above the starting energy
/// its accumulated energy change cannot grow (contacts only cost; food is
/// eaten only below the starting energy).
pub open spec fn no_gain_above_cap(e0: Entity, e1: Entity) -> bool {
    e0.kind matches Kind::Being(b0) ==> e1.kind matches Kind::Being(b1) && b1.energy == b0.energy
        && (b0.energy >= B_START_ENERGY ==> b1.energy_update <= b0.energy_update)
        && b1.heading == b0.heading && b1.radius == b0.radius && b1.id == b0.id && b1.genome == b0.genome
        && b1.output == b0.output && b1.model == b0.model && b1.turn_pending == b0.turn_pending
}

/// A being after one substep's movement intent: its position stays, and its
/// accumulators take the intent (within their bounds).
pub open spec fn intended(e0: Entity, e1: Entity, side: int, substeps: int) -> bool {
    e0.kind matches Kind::Being(b0) ==> e1.kind matches Kind::Being(b1) && {
        let it = intent_spec(e0.pos, b0, side, substeps);
        &&& e1.pos == e0.pos
        &&& b1.pos_update.x == clamped(b0.pos_update.x + it.0.x, MAX_COORD as int)
        &&& b1.pos_update.y == clamped(b0.pos_update.y + it.0.y, MAX_COORD as int)
        &&& b1.energy_update == clamped(b0.energy_update + it.1, VALUE_CAP as int)
        &&& b1.energy == b0.energy
        &&& b1.heading == b0.heading
        &&& b1.radius == b0.radius
        &&& b1.id == b0.id
        &&& b1.genome == b0.genome
        &&& b1.output == b0.output
        &&& b1.model == b0.model
        &&& b1.turn_pending == b0.turn_pending
        &&& b1.being_inputs == b0.being_inputs
        &&& b1.food_obstruct_inputs == b0.food_obstruct_inputs
        &&& b1.speechlet_inputs == b0.speechlet_inputs
    }
}

/// A being after commit: its energy takes the accumulated change (within
/// the value bound), it moves by the accumulated displacement when that
/// keeps its disc in the arena and clear of the walls, and its accumulators
/// are zero; a pending turn is applied to its heading; its radius stays.
pub open spec fn committed(p0: Point, b0: Being, p1: Point, b1: Being, side: int) -> bool {
    let q = Point { x: (p0.x + b0.pos_update.x) as i64, y: (p0.y + b0.pos_update.y) as i64 };
    &&& b1.energy == clamped(b0.energy + b0.energy_update, VALUE_CAP as int)
    &&& b1.energy_update == 0
    &&& b1.pos_update == (Point { x: 0, y: 0 })
    &&& b1.heading == if b0.turn_pending {
        crate::act::rotate_spec(b0.heading, b0.output.turn_cos as int, b0.output.turn_sin as int)
    } else {
        b0.heading
    }
    &&& !b1.turn_pending
    &&& b1.radius == b0.radius
    &&& p1 == if in_box(q) && clear_of_walls(q, b0.radius as int, side) { q } else { p0 }
}

} // verus!

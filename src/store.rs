//! Entity store of one kind: the entities under stable keys, and per-cell
//! membership lists that always agree with the entities' positions.
use crate::entity::{Entity, Kind};
use crate::grid::{cell_at, cell_index_spec, cell_of_spec, two_to_one, Grid, Point};
use crate::slots::{
    entries, slots_get, slots_get_mut, slots_insert, slots_keys, slots_len, slots_new, slots_remove,
    EntitySlots,
};
use vstd::prelude::*;

verus! {

/// Most entities of one kind at a time.
pub const MAX_ENTITIES: usize = 0x7fff_ffff;

/// `r` is `l` without `k`, in the same order.
pub open spec fn drops(r: Seq<u64>, l: Seq<u64>, k: u64) -> bool {
    &&& forall|x: u64| r.contains(x) <==> (l.contains(x) && x != k)
    &&& (l.no_duplicates() ==> r.no_duplicates())
}

/// Membership of a pushed sequence.
pub proof fn lemma_push_contains(s: Seq<u64>, x: u64, y: u64)
    ensures
        s.push(x).contains(y) <==> (s.contains(y) || y == x),
{
    if s.contains(y) {
        let j = choose|j: int| 0 <= j < s.len() && #[trigger] s[j] == y;
        assert(s.push(x)[j] == y);
    }
    if s.push(x).contains(y) && y != x {
        let j = choose|j: int| 0 <= j < s.push(x).len() && #[trigger] s.push(x)[j] == y;
        assert(s[j] == y);
    }
    if y == x {
        assert(s.push(x)[s.len() as int] == y);
    }
}

/// A membership list without one key.
pub fn without(l: &Vec<u64>, k: u64) -> (r: Vec<u64>)
    ensures
        drops(r@, l@, k),
{
    let mut r: Vec<u64> = Vec::new();
    let mut i: usize = 0;
    while i < l.len()
        invariant
            i <= l.len(),
            forall|y: u64| r@.contains(y) <==> (l@.take(i as int).contains(y) && y != k),
            l@.no_duplicates() ==> r@.no_duplicates(),
        decreases l.len() - i,
    {
        let x = l[i];
        let ghost before = r@;
        let ghost t = l@.take(i as int);
        assert(l@.take(i + 1) =~= t.push(x));
        if x != k {
            proof {
                if l@.no_duplicates() {
                    assert forall|a: int| 0 <= a < i implies #[trigger] t[a] != x by {
                        assert(l@[a] != l@[i as int]);
                    }
                    assert(!before.contains(x));
                }
            }
            r.push(x);
            assert forall|y: u64| r@.contains(y) <==> (l@.take(i + 1).contains(y) && y != k) by {
                lemma_push_contains(before, x, y);
                lemma_push_contains(t, x, y);
            }
        } else {
            assert forall|y: u64| r@.contains(y) <==> (l@.take(i + 1).contains(y) && y != k) by {
                lemma_push_contains(t, x, y);
            }
        }
        i = i + 1;
    }
    assert(l@.take(l.len() as int) =~= l@);
    r
}

/// The entities of one kind, and the keys recorded in each cell.
pub struct Store {
    pub slots: EntitySlots,
    pub cells: Vec<Vec<u64>>,
}

impl Store {
    /// The entities by key.
    pub open spec fn items(&self) -> Map<u64, Entity> {
        entries(self.slots)
    }

    /// The keys recorded in cell `c`.
    pub open spec fn list(&self, c: int) -> Seq<u64> {
        self.cells@[c]@
    }

    /// Row-major index of the cell an entity records.
    pub open spec fn home(e: Entity, n: int) -> int {
        cell_index_spec(e.cell.0 as int, e.cell.1 as int, n)
    }

    /// The entity records the cell that holds its position.
    pub open spec fn placed(e: Entity, grid: &Grid) -> bool {
        &&& grid.inside(e.pos)
        &&& e.cell.0 as int == cell_of_spec(e.pos, grid.cell_len as int).0
        &&& e.cell.1 as int == cell_of_spec(e.pos, grid.cell_len as int).1
    }

    /// Every entity records the cell of its position; the list of a cell
    /// holds exactly the keys of the entities that record it, each once.
    pub open spec fn wf(&self, grid: &Grid) -> bool {
        &&& grid.wf()
        &&& self.items().dom().finite()
        &&& self.items().len() <= MAX_ENTITIES
        &&& self.cells.len() == grid.n_total()
        &&& forall|k: u64| #[trigger] self.items().contains_key(k) ==> Self::placed(self.items()[k], grid)
            && self.items()[k].cell.0 < grid.n_cells && self.items()[k].cell.1 < grid.n_cells
            && 0 <= Self::home(self.items()[k], grid.n_cells as int) < self.cells.len()
        &&& forall|c: int, k: u64|
            0 <= c < self.cells.len() ==> (#[trigger] self.list(c).contains(k) <==> (self.items().contains_key(k)
                && Self::home(self.items()[k], grid.n_cells as int) == c))
        &&& forall|c: int| 0 <= c < self.cells.len() ==> (#[trigger] self.list(c)).no_duplicates()
    }

    /// The entity under `k` records the cell of its position, and `k` is in
    /// that cell's list, once, and in no other list.
    pub open spec fn single_cell(s: Store, grid: &Grid, k: u64) -> bool {
        let h = Self::home(s.items()[k], grid.n_cells as int);
        &&& Self::placed(s.items()[k], grid)
        &&& s.items()[k].cell == cell_at(s.items()[k].pos, grid.cell_len as int)
        &&& 0 <= h < s.cells.len()
        &&& s.list(h).contains(k)
        &&& s.list(h).no_duplicates()
        &&& forall|c: int| 0 <= c < s.cells.len() && c != h ==> !(#[trigger] s.list(c).contains(k))
    }

    /// Grid consistency: an entity records the cell of its position, and its
    /// key is in that cell's list, once, and in no other list.
    pub proof fn lemma_single_cell(&self, grid: &Grid, k: u64)
        requires
            self.wf(grid),
            self.items().contains_key(k),
        ensures
            Self::single_cell(*self, grid, k),
    {
        let h = Self::home(self.items()[k], grid.n_cells as int);
        assert(self.list(h).contains(k));
    }

    /// An empty store over the grid's cells.
    pub fn new(grid: &Grid) -> (r: Store)
        requires
            grid.wf(),
        ensures
            r.wf(grid),
            r.items().dom() == Set::<u64>::empty(),
    {
        assert(grid.n_cells * grid.n_cells <= 4096 * 4096) by (nonlinear_arith)
            requires grid.n_cells <= 4096;
        let n = grid.n_cells * grid.n_cells;
        let mut cells: Vec<Vec<u64>> = Vec::new();
        let mut i: usize = 0;
        while i < n
            invariant
                i <= n,
                cells.len() == i,
                forall|c: int| 0 <= c < i ==> (#[trigger] cells@[c])@.len() == 0,
            decreases n - i,
        {
            cells.push(Vec::new());
            i = i + 1;
        }
        let r = Store { slots: slots_new(), cells };
        assert(r.items().dom() =~= Set::<u64>::empty());
        r
    }

    /// Number of entities.
    pub fn len(&self) -> (r: usize)
        ensures
            r == self.items().len(),
    {
        slots_len(&self.slots)
    }

    /// Every key, each once.
    pub fn keys(&self) -> (r: Vec<u64>)
        ensures
            r@.no_duplicates(),
            forall|k: u64| r@.contains(k) <==> self.items().contains_key(k),
            r.len() == self.items().len(),
    {
        let r = slots_keys(&self.slots);
        proof {
            r@.unique_seq_to_set();
            assert(r@.to_set() =~= self.items().dom());
        }
        r
    }

    /// Whether a key is present.
    pub fn contains(&self, k: u64) -> (r: bool)
        ensures
            r == self.items().contains_key(k),
    {
        let keys = self.keys();
        crate::tick::holds_id(&keys, k)
    }

    /// The entity under a key.
    pub fn get(&self, k: u64) -> (r: &Entity)
        requires
            self.items().contains_key(k),
        ensures
            *r == self.items()[k],
    {
        slots_get(&self.slots, k)
    }

    /// Adds an entity at a point of the arena, recorded in that point's cell.
    pub fn add(&mut self, grid: &Grid, pos: Point, kind: Kind) -> (k: u64)
        requires
            old(self).wf(grid),
            grid.inside(pos),
            old(self).items().len() < MAX_ENTITIES,
        ensures
            final(self).wf(grid),
            !old(self).items().contains_key(k),
            final(self).items() == old(self).items().insert(
                k,
                Entity { pos, cell: cell_at(pos, grid.cell_len as int), kind },
            ),
    {
        let cell = grid.pos_to_cell(pos);
        let c = two_to_one(cell.0, cell.1, grid.n_cells);
        let ghost e = Entity { pos, cell, kind };
        let k = slots_insert(&mut self.slots, Entity { pos, cell, kind });
        assert(cell == cell_at(pos, grid.cell_len as int));
        let ghost old_cells = self.cells@;
        let mut l: Vec<u64> = Vec::new();
        std::mem::swap(&mut l, &mut self.cells[c]);
        assert(l@ == old_cells[c as int]@);
        assert(!l@.contains(k)) by {
            assert(old(self).list(c as int).contains(k) ==> old(self).items().contains_key(k));
        }
        l.push(k);
        self.cells.set(c, l);
        proof {
            let n = grid.n_cells as int;
            assert(self.items() == old(self).items().insert(k, e));
            assert(self.items().len() == old(self).items().len() + 1);
            assert forall|c2: int, x: u64| 0 <= c2 < self.cells.len() implies (#[trigger] self.list(c2).contains(x)
                <==> (self.items().contains_key(x) && Self::home(self.items()[x], n) == c2)) by {
                if c2 == c {
                    lemma_push_contains(old(self).list(c2), k, x);
                }
                assert(old(self).list(c2).contains(x) <==> (old(self).items().contains_key(x)
                    && Self::home(old(self).items()[x], n) == c2));
            }
            assert forall|c2: int| 0 <= c2 < self.cells.len() implies (#[trigger] self.list(c2)).no_duplicates() by {
                if c2 == c {
                    assert(old(self).list(c2).no_duplicates());
                    assert forall|a: int, b: int| 0 <= a < b < self.list(c2).len() implies self.list(c2)[a] != self.list(c2)[b] by {
                        assert(self.list(c2)[a] == old(self).list(c2)[a]);
                        if b == self.list(c2).len() - 1 {
                            assert(old(self).list(c2).contains(self.list(c2)[a]));
                        } else {
                            assert(self.list(c2)[b] == old(self).list(c2)[b]);
                        }
                    }
                }
            }
        }
        k
    }

    /// Removes an entity: it leaves the store and its cell's list.
    pub fn remove(&mut self, grid: &Grid, k: u64) -> (r: Entity)
        requires
            old(self).wf(grid),
            old(self).items().contains_key(k),
        ensures
            final(self).wf(grid),
            r == old(self).items()[k],
            final(self).items() == old(self).items().remove(k),
    {
        let ghost n = grid.n_cells as int;
        let e = slots_get(&self.slots, k);
        let c = two_to_one(e.cell.0, e.cell.1, grid.n_cells);
        let l = without(&self.cells[c], k);
        self.cells.set(c, l);
        let r = slots_remove(&mut self.slots, k);
        proof {
            assert(self.items() == old(self).items().remove(k));
            assert forall|x: u64| #[trigger] self.items().contains_key(x) implies Self::placed(self.items()[x], grid)
                && self.items()[x].cell.0 < grid.n_cells && self.items()[x].cell.1 < grid.n_cells
                && 0 <= Self::home(self.items()[x], n) < self.cells.len() by {
                assert(old(self).items().contains_key(x));
            }
            assert forall|c2: int, x: u64| 0 <= c2 < self.cells.len() implies (#[trigger] self.list(c2).contains(x)
                <==> (self.items().contains_key(x) && Self::home(self.items()[x], n) == c2)) by {
                assert(old(self).list(c2).contains(x) <==> (old(self).items().contains_key(x)
                    && Self::home(old(self).items()[x], n) == c2));
            }
            assert forall|c2: int| 0 <= c2 < self.cells.len() implies (#[trigger] self.list(c2)).no_duplicates() by {
                assert(old(self).list(c2).no_duplicates());
            }
        }
        r
    }

    /// Moves an entity to a point of the arena; when the point lies in
    /// another cell, the key leaves the old cell's list for the new one's.
    pub fn relocate(&mut self, grid: &Grid, k: u64, pos: Point)
        requires
            old(self).wf(grid),
            old(self).items().contains_key(k),
            grid.inside(pos),
        ensures
            final(self).wf(grid),
            final(self).items() == old(self).items().insert(
                k,
                Entity { pos, cell: cell_at(pos, grid.cell_len as int), kind: old(self).items()[k].kind },
            ),
    {
        let ghost n = grid.n_cells as int;
        let cell = grid.pos_to_cell(pos);
        let nc = two_to_one(cell.0, cell.1, grid.n_cells);
        let e = slots_get_mut(&mut self.slots, k);
        let oc = two_to_one(e.cell.0, e.cell.1, grid.n_cells);
        e.pos = pos;
        e.cell = cell;
        if oc != nc {
            let ghost mid = self.cells@;
            let l = without(&self.cells[oc], k);
            self.cells.set(oc, l);
            let mut m: Vec<u64> = Vec::new();
            std::mem::swap(&mut m, &mut self.cells[nc]);
            assert(m@ == old(self).list(nc as int));
            assert(!m@.contains(k)) by {
                assert(old(self).list(nc as int).contains(k) ==> Self::home(old(self).items()[k], n) == nc);
            }
            m.push(k);
            self.cells.set(nc, m);
        }
        proof {
            assert forall|c2: int, x: u64| 0 <= c2 < self.cells.len() implies (#[trigger] self.list(c2).contains(x)
                <==> (self.items().contains_key(x) && Self::home(self.items()[x], n) == c2)) by {
                assert(old(self).list(c2).contains(x) <==> (old(self).items().contains_key(x)
                    && Self::home(old(self).items()[x], n) == c2));
                if oc != nc && c2 == nc {
                    lemma_push_contains(old(self).list(c2), k, x);
                }
            }
            assert forall|c2: int| 0 <= c2 < self.cells.len() implies (#[trigger] self.list(c2)).no_duplicates() by {
                assert(old(self).list(c2).no_duplicates());
                if oc != nc && c2 == nc {
                    assert forall|a: int, b: int| 0 <= a < b < self.list(c2).len() implies self.list(c2)[a] != self.list(c2)[b] by {
                        assert(self.list(c2)[a] == old(self).list(c2)[a]);
                        if b == self.list(c2).len() - 1 {
                            assert(old(self).list(c2).contains(self.list(c2)[a]));
                        } else {
                            assert(self.list(c2)[b] == old(self).list(c2)[b]);
                        }
                    }
                }
            }
        }
    }

    /// Removes the entities under the given keys, each present and listed
    /// once; the others stay as they are.
    pub fn remove_keys(&mut self, grid: &Grid, keys: &Vec<u64>)
        requires
            old(self).wf(grid),
            keys@.no_duplicates(),
            forall|i: int| 0 <= i < keys.len() ==> old(self).items().contains_key(#[trigger] keys@[i]),
        ensures
            final(self).wf(grid),
            forall|x: u64| #[trigger] final(self).items().contains_key(x)
                <==> (old(self).items().contains_key(x) && !keys@.contains(x)),
            forall|x: u64| #[trigger] final(self).items().contains_key(x) ==> final(self).items()[x] == old(self).items()[x],
    {
        let mut i: usize = 0;
        while i < keys.len()
            invariant
                self.wf(grid),
                i <= keys.len(),
                keys@.no_duplicates(),
                forall|j: int| i <= j < keys.len() ==> self.items().contains_key(#[trigger] keys@[j]),
                forall|x: u64| #[trigger] self.items().contains_key(x)
                    <==> (old(self).items().contains_key(x) && !keys@.take(i as int).contains(x)),
                forall|x: u64| #[trigger] self.items().contains_key(x) ==> self.items()[x] == old(self).items()[x],
            decreases keys.len() - i,
        {
            let k = keys[i];
            self.remove(grid, k);
            assert(keys@.take(i + 1) =~= keys@.take(i as int).push(k));
            proof {
                assert forall|j: int| i + 1 <= j < keys.len() implies self.items().contains_key(#[trigger] keys@[j]) by {
                    assert(keys@[j] != keys@[i as int]);
                }
                assert forall|x: u64| #[trigger] self.items().contains_key(x)
                    <==> (old(self).items().contains_key(x) && !keys@.take(i + 1).contains(x)) by {
                    lemma_push_contains(keys@.take(i as int), k, x);
                }
            }
            i = i + 1;
        }
        assert(keys@.take(keys.len() as int) =~= keys@);
    }

    /// A store whose lists and entity positions are those of a well-formed
    /// store is well-formed, whatever the kinds of its entities.
    pub proof fn lemma_same_layout(old_s: Store, new_s: Store, grid: &Grid)
        requires
            old_s.wf(grid),
            new_s.cells@ == old_s.cells@,
            new_s.items().dom() == old_s.items().dom(),
            forall|x: u64| #[trigger] new_s.items().contains_key(x) ==> new_s.items()[x].pos == old_s.items()[x].pos
                && new_s.items()[x].cell == old_s.items()[x].cell,
        ensures
            new_s.wf(grid),
    {
        let n = grid.n_cells as int;
        assert(new_s.items().len() == old_s.items().len());
        assert forall|x: u64| #[trigger] new_s.items().contains_key(x) implies Self::placed(new_s.items()[x], grid)
            && new_s.items()[x].cell.0 < grid.n_cells && new_s.items()[x].cell.1 < grid.n_cells
            && 0 <= Self::home(new_s.items()[x], n) < new_s.cells.len() by {
            assert(old_s.items().contains_key(x));
        }
        assert forall|c2: int, x: u64| 0 <= c2 < new_s.cells.len() implies (#[trigger] new_s.list(c2).contains(x)
            <==> (new_s.items().contains_key(x) && Self::home(new_s.items()[x], n) == c2)) by {
            assert(old_s.list(c2).contains(x) <==> (old_s.items().contains_key(x)
                && Self::home(old_s.items()[x], n) == c2));
        }
        assert forall|c2: int| 0 <= c2 < new_s.cells.len() implies (#[trigger] new_s.list(c2)).no_duplicates() by {
            assert(old_s.list(c2).no_duplicates());
        }
    }

    /// The kind-specific part of an entity, to be changed in place; its
    /// position and cell stay as they are.
    pub fn kind_mut(&mut self, k: u64) -> (r: &mut Kind)
        requires
            old(self).items().contains_key(k),
        ensures
            *r == old(self).items()[k].kind,
            final(self).cells@ == old(self).cells@,
            final(self).items() == old(self).items().insert(
                k,
                Entity { pos: old(self).items()[k].pos, cell: old(self).items()[k].cell, kind: *final(r) },
            ),
    {
        let e = slots_get_mut(&mut self.slots, k);
        &mut e.kind
    }
} // impl Store

} // verus!

use neuralang::entity::{Kind, Obstruct};
use neuralang::grid::{Grid, Point};
use neuralang::store::{without, Store};

fn listed(s: &Store, k: u64) -> Vec<usize> {
    (0..s.cells.len()).filter(|c| s.cells[*c].contains(&k)).collect()
}

#[test]
fn without_drops_one_key_and_keeps_order() {
    assert_eq!(without(&vec![4, 7, 9, 7], 7), vec![4, 9]);
    assert_eq!(without(&vec![], 7), Vec::<u64>::new());
}

#[test]
fn store_lists_each_entity_in_its_cell_once() {
    let g = Grid::new(50, 10, 1);
    let mut s = Store::new(&g);
    assert_eq!(s.cells.len(), 100);
    let a = s.add(&g, Point { x: 12_000, y: 3_000 }, Kind::Obstruct(Obstruct { age: 1, id: 0 }));
    let b = s.add(&g, Point { x: 12_500, y: 3_500 }, Kind::Obstruct(Obstruct { age: 2, id: 1 }));
    assert_ne!(a, b);
    assert_eq!(listed(&s, a), vec![20]);
    assert_eq!(listed(&s, b), vec![20]);
    assert_eq!(s.get(a).cell, (2, 0));
    assert_eq!(s.len(), 2);
    assert!(s.contains(a));
    let mut keys = s.keys();
    keys.sort();
    let mut expected = vec![a, b];
    expected.sort();
    assert_eq!(keys, expected);
}

#[test]
fn relocation_moves_the_key_between_lists() {
    let g = Grid::new(50, 10, 1);
    let mut s = Store::new(&g);
    let a = s.add(&g, Point { x: 12_000, y: 3_000 }, Kind::Obstruct(Obstruct { age: 1, id: 0 }));
    s.relocate(&g, a, Point { x: 47_000, y: 49_999 });
    assert_eq!(listed(&s, a), vec![99]);
    assert_eq!(s.get(a).cell, (9, 9));
    assert_eq!(s.get(a).pos, Point { x: 47_000, y: 49_999 });
    s.relocate(&g, a, Point { x: 46_000, y: 45_000 });
    assert_eq!(listed(&s, a), vec![99]);
}

#[test]
fn removal_leaves_no_trace() {
    let g = Grid::new(50, 10, 1);
    let mut s = Store::new(&g);
    let a = s.add(&g, Point { x: 12_000, y: 3_000 }, Kind::Obstruct(Obstruct { age: 1, id: 0 }));
    let b = s.add(&g, Point { x: 22_000, y: 3_000 }, Kind::Obstruct(Obstruct { age: 2, id: 1 }));
    let e = s.remove(&g, a);
    assert_eq!(e.pos, Point { x: 12_000, y: 3_000 });
    assert!(listed(&s, a).is_empty());
    assert!(!s.contains(a));
    assert_eq!(s.len(), 1);
    s.remove_keys(&g, &vec![b]);
    assert_eq!(s.len(), 0);
    let c = s.add(&g, Point { x: 12_000, y: 3_000 }, Kind::Obstruct(Obstruct { age: 3, id: 2 }));
    assert_ne!(c, a);
    assert!(!s.contains(a));
}

#[test]
fn kind_mut_changes_the_entity_in_place() {
    let g = Grid::new(50, 10, 1);
    let mut s = Store::new(&g);
    let a = s.add(&g, Point { x: 12_000, y: 3_000 }, Kind::Obstruct(Obstruct { age: 1, id: 0 }));
    if let Kind::Obstruct(o) = s.kind_mut(a) {
        o.age = 42;
    }
    match &s.get(a).kind {
        Kind::Obstruct(o) => assert_eq!(o.age, 42),
        _ => panic!("kind changed"),
    }
}

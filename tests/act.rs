use neuralang::act::{rotate, sanitize};
use neuralang::entity::Action;
use neuralang::grid::Point;

#[test]
fn sanitize_clamps_and_fixes_payload_length() {
    let a = sanitize(Action {
        thrust: 5_000,
        turn: -5_000,
        turn_cos: 2_000,
        turn_sin: -2_000,
        spawn_obstruct: true,
        speak: false,
        payload: vec![9, 8, 7],
    });
    assert_eq!(a.thrust, 1_000);
    assert_eq!(a.turn, -1_000);
    assert_eq!(a.turn_cos, 1_000);
    assert_eq!(a.turn_sin, -1_000);
    assert_eq!(a.payload, vec![9, 8, 7, 0, 0, 0, 0, 0]);
    assert!(a.spawn_obstruct);
}

#[test]
fn rotate_turns_a_quarter() {
    assert_eq!(rotate(Point { x: 1_000, y: 0 }, 0, 1_000), Point { x: 0, y: 1_000 });
    assert_eq!(rotate(Point { x: 0, y: 1_000 }, 0, 1_000), Point { x: -1_000, y: 0 });
    assert_eq!(rotate(Point { x: 1_000, y: 0 }, 1_000, 0), Point { x: 1_000, y: 0 });
}

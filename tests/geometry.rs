use neuralang::geometry::{
    bearing, bot_border_trespass, clamp, contact, div_toward_zero, isqrt, lef_border_trespass, oob, push_apart,
    rig_border_trespass, top_border_trespass,
};
use neuralang::grid::Point;

#[test]
fn isqrt_rounds_down() {
    assert_eq!(isqrt(0), 0);
    assert_eq!(isqrt(17), 4);
    assert_eq!(isqrt(16), 4);
    assert_eq!(isqrt(1_000_000), 1_000);
}

#[test]
fn div_toward_zero_truncates() {
    assert_eq!(div_toward_zero(7, 2), 3);
    assert_eq!(div_toward_zero(-7, 2), -3);
    assert_eq!(div_toward_zero(0, 5), 0);
}

#[test]
fn clamp_limits_both_ways() {
    assert_eq!(clamp(5, 3), 3);
    assert_eq!(clamp(-5, 3), -3);
    assert_eq!(clamp(2, 3), 2);
}

#[test]
fn border_trespass_keeps_one_unit_margin() {
    assert!(lef_border_trespass(1_500, 500));
    assert!(!lef_border_trespass(1_501, 500));
    assert!(rig_border_trespass(98_500, 500, 100_000));
    assert!(!rig_border_trespass(98_499, 500, 100_000));
    assert!(top_border_trespass(1_000, 0));
    assert!(bot_border_trespass(99_000, 0, 100_000));
}

#[test]
fn oob_detects_each_wall() {
    assert!(!oob(Point { x: 50_000, y: 50_000 }, 3_500, 100_000));
    assert!(oob(Point { x: 4_000, y: 50_000 }, 3_500, 100_000));
    assert!(oob(Point { x: 50_000, y: 96_000 }, 3_500, 100_000));
}

#[test]
fn contact_measures_and_detects_overlap() {
    let c = contact(Point { x: 0, y: 0 }, Point { x: 3_000, y: 4_000 }, 6_000);
    assert_eq!(c.rel, Point { x: 3_000, y: 4_000 });
    assert_eq!(c.dist, 5_000);
    assert!(c.overlaps);
    let d = contact(Point { x: 0, y: 0 }, Point { x: 3_000, y: 4_000 }, 5_000);
    assert!(!d.overlaps);
}

#[test]
fn bearing_is_sine_and_cosine_along_heading() {
    assert_eq!(bearing(Point { x: 1_000, y: 0 }, Point { x: 0, y: 2_000 }, 2_000), (1_000, 0));
    assert_eq!(bearing(Point { x: 1_000, y: 0 }, Point { x: -2_000, y: 0 }, 2_000), (0, -1_000));
    assert_eq!(bearing(Point { x: 1_000, y: 0 }, Point { x: 0, y: 0 }, 0), (0, 0));
}

#[test]
fn push_apart_moves_two_thirds_of_overlap_away() {
    assert_eq!(push_apart(Point { x: 1_000, y: 0 }, 1_000, 600), Point { x: -400, y: 0 });
    assert_eq!(push_apart(Point { x: 0, y: 0 }, 0, 600), Point { x: 0, y: 0 });
}

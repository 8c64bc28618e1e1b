use chunkworld::controls::{all_pressed, any_pressed, move_direction};

#[test]
fn any_pressed_needs_one() {
    assert!(!any_pressed(&[]));
    assert!(!any_pressed(&[false, false, false, false]));
    assert!(any_pressed(&[false, false, true, false]));
}

#[test]
fn all_pressed_needs_every_one() {
    assert!(all_pressed(&[]));
    assert!(!all_pressed(&[true, false]));
    assert!(all_pressed(&[true, true, true]));
}

#[test]
fn move_direction_combines_keys() {
    assert_eq!(move_direction(false, false, false, false), (0, 0));
    assert_eq!(move_direction(true, false, false, false), (-1, 0));
    assert_eq!(move_direction(false, true, true, false), (1, 1));
    assert_eq!(move_direction(false, false, false, true), (0, -1));
    assert_eq!(move_direction(true, true, true, true), (0, 0));
}

use life_board::board::LifeBoard;
use life_board::rules::Cell;

#[test]
fn set_then_get() {
    let mut b = LifeBoard::new();
    assert!(!b.get(4, 5));
    b.set(4, 5, true);
    assert!(b.get(4, 5));
    b.set(4, 5, false);
    assert!(!b.get(4, 5));
}

#[test]
fn set_then_get_negative_coordinates() {
    let mut b = LifeBoard::new();
    b.set(-3, -9, true);
    assert!(b.get(-3, -9));
    assert!(!b.get(3, 9));
    b.set(-3, -9, false);
    assert!(!b.get(-3, -9));
}

#[test]
fn set_true_is_idempotent() {
    let mut b = LifeBoard::new();
    b.set(7, 7, true);
    b.set(7, 7, true);
    assert_eq!(b.iter_live_cells().len(), 1);
    assert!(b.get(7, 7));
}

#[test]
fn set_false_is_idempotent() {
    let mut b = LifeBoard::new();
    b.set(7, 7, true);
    b.set(7, 7, false);
    b.set(7, 7, false);
    assert_eq!(b.iter_live_cells().len(), 0);
    assert!(!b.get(7, 7));
}

#[test]
fn clear_empties_the_board() {
    let mut b = LifeBoard::new();
    b.set(0, 0, true);
    b.set(-1, 5, true);
    b.set(100, -200, true);
    b.clear();
    assert_eq!(b.iter_live_cells().len(), 0);
    assert!(!b.get(0, 0));
    assert!(!b.get(-1, 5));
    assert!(!b.get(100, -200));
    assert!(!b.get(42, 42));
}

#[test]
fn new_board_is_empty() {
    let b = LifeBoard::new();
    assert_eq!(b.iter_live_cells().len(), 0);
    assert!(!b.get(0, 0));
    assert!(!b.get(i64::MIN, i64::MAX));
}

#[test]
fn iter_lists_each_live_cell_once() {
    let mut b = LifeBoard::new();
    b.set(1, 1, true);
    b.set(2, 2, true);
    b.set(-8, 0, true);
    b.set(2, 2, true);
    let cells = b.iter_live_cells();
    assert_eq!(cells.len(), 3);
    assert!(cells.contains(&Cell::new(1, 1)));
    assert!(cells.contains(&Cell::new(2, 2)));
    assert!(cells.contains(&Cell::new(-8, 0)));
}

#[test]
fn cell_new_carries_coordinates() {
    let c = Cell::new(-12, 34);
    assert_eq!(c.x, -12);
    assert_eq!(c.y, 34);
    assert_eq!(c, Cell::new(-12, 34));
    assert_ne!(c, Cell::new(34, -12));
}

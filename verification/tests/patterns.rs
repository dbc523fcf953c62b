use life_board::board::LifeBoard;

fn board_of(cells: &[(i64, i64)]) -> LifeBoard {
    let mut b = LifeBoard::new();
    for &(x, y) in cells {
        b.set(x, y, true);
    }
    b
}

fn live_set(b: &LifeBoard) -> Vec<(i64, i64)> {
    let mut v: Vec<(i64, i64)> = b.iter_live_cells().iter().map(|c| (c.x, c.y)).collect();
    v.sort();
    v
}

#[test]
fn step_on_empty_board_yields_empty() {
    let mut b = LifeBoard::new();
    b.step();
    assert_eq!(b.iter_live_cells().len(), 0);
}

#[test]
fn lone_cell_dies() {
    let mut b = board_of(&[(5, 5)]);
    b.step();
    assert_eq!(b.iter_live_cells().len(), 0);
}

#[test]
fn domino_dies_without_births() {
    let mut b = board_of(&[(0, 0), (1, 0)]);
    b.step();
    assert_eq!(b.iter_live_cells().len(), 0);
}

#[test]
fn block_is_still_life() {
    let block = [(0, 0), (1, 0), (0, 1), (1, 1)];
    let mut b = board_of(&block);
    b.step();
    let mut expected: Vec<(i64, i64)> = block.to_vec();
    expected.sort();
    assert_eq!(live_set(&b), expected);
}

#[test]
fn blinker_oscillates_with_period_two() {
    let mut b = board_of(&[(1, 0), (1, 1), (1, 2)]);
    b.step();
    assert_eq!(live_set(&b), vec![(0, 1), (1, 1), (2, 1)]);
    b.step();
    assert_eq!(live_set(&b), vec![(1, 0), (1, 1), (1, 2)]);
}

#[test]
fn glider_translates_diagonally_in_four_steps() {
    let seed = [(1, 0), (2, 1), (0, 2), (1, 2), (2, 2)];
    let mut b = board_of(&seed);
    for _ in 0..4 {
        b.step();
    }
    let mut expected: Vec<(i64, i64)> = seed.iter().map(|&(x, y)| (x + 1, y + 1)).collect();
    expected.sort();
    assert_eq!(live_set(&b), expected);
}

#[test]
fn glider_crosses_negative_coordinates() {
    let seed = [(1, 0), (2, 1), (0, 2), (1, 2), (2, 2)];
    let moved: Vec<(i64, i64)> = seed.iter().map(|&(x, y)| (x - 40, y - 40)).collect();
    let mut b = board_of(&moved);
    for _ in 0..4 {
        b.step();
    }
    let mut expected: Vec<(i64, i64)> = moved.iter().map(|&(x, y)| (x + 1, y + 1)).collect();
    expected.sort();
    assert_eq!(live_set(&b), expected);
}

#[test]
fn block_in_extreme_corner_is_still_life() {
    let m = i64::MAX;
    let block = [(m - 1, m - 1), (m, m - 1), (m - 1, m), (m, m)];
    let mut b = board_of(&block);
    b.step();
    let mut expected: Vec<(i64, i64)> = block.to_vec();
    expected.sort();
    assert_eq!(live_set(&b), expected);
}

#[test]
fn lone_cell_in_extreme_corner_dies_cleanly() {
    let mut b = board_of(&[(i64::MIN, i64::MIN)]);
    b.step();
    assert_eq!(b.iter_live_cells().len(), 0);
}

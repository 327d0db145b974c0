use prob_life::board::{Board, LifeError};
use prob_life::probability::SCALE;

fn grid(rows: &[&[u64]]) -> Vec<Vec<u64>> {
    rows.iter().map(|r| r.to_vec()).collect()
}

#[test]
fn test_new_empty_error() {
    assert_eq!(
        Board::new(Vec::new()).err(),
        Some(LifeError::EmptyInput)
    );
}

#[test]
fn test_new_jagged_error() {
    let rows = grid(&[&[0, 0, 0], &[0, 0]]);
    assert_eq!(Board::new(rows).err(), Some(LifeError::JaggedInput));
}

#[test]
fn test_height_width_state() {
    let rows = grid(&[&[100, 200, 300], &[400, 500, 600]]);
    let board = Board::new(rows.clone()).unwrap();
    assert_eq!(board.height(), 2);
    assert_eq!(board.width(), 3);
    assert_eq!(board.get_state(), &rows);
}

#[test]
fn test_get_cell_wraps_negative_and_overflowing() {
    let rows = grid(&[&[10, 20, 30], &[40, 50, 60]]);
    let board = Board::new(rows).unwrap();
    // -1 wraps to the last row / column
    assert_eq!(board.get_cell((-1, -1)), 60);
    // coordinates beyond the far edge wrap back to the start
    assert_eq!(board.get_cell((2, 3)), 10);
    assert_eq!(board.get_cell((0, 0)), 10);
}

#[test]
fn test_trivial_rules_all_zero() {
    // survivals = {} and births = {}: every next probability is exactly 0
    let rows = grid(&[&[0, 137, 1000], &[999, 1, 500]]);
    let mut board = Board::new(rows).unwrap();
    board.change_rules(Vec::new(), Vec::new());
    board.next();
    assert_eq!(board.get_state(), &grid(&[&[0, 0, 0], &[0, 0, 0]]));
}

#[test]
fn test_determinism_two_boards() {
    let rows = grid(&[&[123, 456, 789], &[0, 1000, 314], &[271, 828, 182]]);
    let mut b1 = Board::new(rows.clone()).unwrap();
    let mut b2 = Board::new(rows).unwrap();
    b1.next();
    b2.next();
    assert_eq!(b1.get_state(), b2.get_state());
    b1.next();
    b2.next();
    assert_eq!(b1.get_state(), b2.get_state());
}

#[test]
fn test_single_cell_neighbours_are_itself() {
    // a 1x1 board: all 8 "neighbours" wrap around to the single cell
    let board = Board::new(grid(&[&[700]])).unwrap();
    let neighbours = board.get_neighbour_cells((0, 0));
    assert_eq!(neighbours, vec![700u64; 8]);
    // composition with the accumulator: all 8 alive has probability 0.7^8,
    // that is 700^8 over 1000^8
    let p8 = board.get_probability_of_n_alive(&neighbours, 8);
    assert_eq!(p8, 57_648_010_000_000_000_000_000u128);
}

#[test]
fn test_single_cell_step() {
    // 1x1 alive cell: its 8 wrapped neighbours are all alive, and 8 is not a
    // standard survival count, so the cell dies
    let mut board = Board::new(grid(&[&[SCALE]])).unwrap();
    board.next();
    assert_eq!(board.get_state(), &grid(&[&[0]]));
    // a dead 1x1 cell has 0 alive neighbours and stays dead
    let mut dead = Board::new(grid(&[&[0]])).unwrap();
    dead.next();
    assert_eq!(dead.get_state(), &grid(&[&[0]]));
}

#[test]
fn test_blinker_oscillates() {
    // deterministic (0/1) input: the classic blinker returns to its original
    // configuration after two generations
    let horizontal = grid(&[
        &[0, 0, 0, 0, 0],
        &[0, 0, 0, 0, 0],
        &[0, SCALE, SCALE, SCALE, 0],
        &[0, 0, 0, 0, 0],
        &[0, 0, 0, 0, 0],
    ]);
    let vertical = grid(&[
        &[0, 0, 0, 0, 0],
        &[0, 0, SCALE, 0, 0],
        &[0, 0, SCALE, 0, 0],
        &[0, 0, SCALE, 0, 0],
        &[0, 0, 0, 0, 0],
    ]);
    let mut board = Board::new(horizontal.clone()).unwrap();
    board.next();
    assert_eq!(board.get_state(), &vertical);
    board.next();
    assert_eq!(board.get_state(), &horizontal);
}

#[test]
fn test_history_length_and_first_entry() {
    let rows = grid(&[&[250, 750], &[1000, 0]]);
    let mut board = Board::new(rows.clone()).unwrap();
    let n = 3;
    for _ in 0..n {
        board.next();
    }
    let history = board.get_history();
    assert_eq!(history.len(), n + 1);
    assert_eq!(&history[0], &rows);
    assert_eq!(&history[n], board.get_state());
}

#[test]
fn test_rule_change_takes_effect_immediately() {
    // a 3x3 all-alive torus: every cell sees 8 alive neighbours and dies
    // under the standard rules; after that every cell sees 0 alive
    // neighbours, so births = {0} revives the whole grid while the standard
    // rules leave it dead
    let rows = grid(&[
        &[SCALE, SCALE, SCALE],
        &[SCALE, SCALE, SCALE],
        &[SCALE, SCALE, SCALE],
    ]);
    let all_dead = grid(&[&[0, 0, 0], &[0, 0, 0], &[0, 0, 0]]);
    let all_alive = rows.clone();

    let mut unchanged = Board::new(rows.clone()).unwrap();
    unchanged.next();
    assert_eq!(unchanged.get_state(), &all_dead);
    unchanged.next();
    assert_eq!(unchanged.get_state(), &all_dead);

    let mut changed = Board::new(rows).unwrap();
    changed.next();
    assert_eq!(changed.get_state(), &all_dead);
    changed.change_rules(Vec::new(), vec![0]);
    changed.next();
    assert_eq!(changed.get_state(), &all_alive);
}

#[test]
fn test_rules_outside_range_contribute_nothing() {
    // a survival or birth count above 8 never matches and changes nothing
    let rows = grid(&[&[300, 600], &[900, 100]]);
    let mut plain = Board::new(rows.clone()).unwrap();
    let mut extended = Board::new(rows).unwrap();
    extended.change_rules(vec![2, 3, 9, 100], vec![3, 42]);
    plain.next();
    extended.next();
    assert_eq!(plain.get_state(), extended.get_state());
}

use prob_life::board::Board;

fn helper_board() -> Board {
    Board::new(vec![vec![0u64]]).unwrap()
}

#[test]
fn test_accumulator_sums_to_one() {
    // the counts 0..=n partition the outcome space, so the probabilities sum
    // to exactly one: 1000^8 at denominator 1000^8
    let board = helper_board();
    let neighbours: Vec<u64> = vec![100, 250, 500, 777, 1000, 0, 333, 900];
    let mut total: u128 = 0;
    for k in 0..=neighbours.len() {
        total += board.get_probability_of_n_alive(&neighbours, k);
    }
    assert_eq!(total, 1_000_000_000_000_000_000_000_000u128);
}

#[test]
fn test_accumulator_two_coins() {
    // two fair coins: P(0 heads) = 1/4, P(1) = 1/2, P(2) = 1/4, over 1000^2
    let board = helper_board();
    let coins: Vec<u64> = vec![500, 500];
    assert_eq!(board.get_probability_of_n_alive(&coins, 0), 250_000);
    assert_eq!(board.get_probability_of_n_alive(&coins, 1), 500_000);
    assert_eq!(board.get_probability_of_n_alive(&coins, 2), 250_000);
    // a count above the number of events is unreachable
    assert_eq!(board.get_probability_of_n_alive(&coins, 3), 0);
}

#[test]
fn test_accumulator_degenerate_counts() {
    let board = helper_board();
    // k = 0 keeps only the all-dead assignment: the product of complements
    let ps: Vec<u64> = vec![200, 300];
    // (1 - 0.2) * (1 - 0.3) = 0.56 over 1000^2
    assert_eq!(board.get_probability_of_n_alive(&ps, 0), 560_000);
    // k = n keeps only the all-alive assignment: the product of probabilities
    assert_eq!(board.get_probability_of_n_alive(&ps, 2), 60_000);
    // the empty vector: probability one of zero alive, zero otherwise
    let empty: Vec<u64> = Vec::new();
    assert_eq!(board.get_probability_of_n_alive(&empty, 0), 1);
    assert_eq!(board.get_probability_of_n_alive(&empty, 1), 0);
}

#[test]
fn test_accumulator_binary_inputs() {
    // deterministic inputs: probability one exactly at the alive count
    let board = helper_board();
    let ps: Vec<u64> = vec![1000, 0, 1000, 1000, 0];
    let full: u128 = 1_000_000_000_000_000u128;  // 1000^5
    for k in 0..=ps.len() {
        let expected = if k == 3 { full } else { 0 };
        assert_eq!(board.get_probability_of_n_alive(&ps, k), expected);
    }
}

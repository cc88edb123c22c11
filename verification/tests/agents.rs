use connect_four::agent_mcts;
use connect_four::agent_mcts::{best_action, column_scores, credit, playout, score_action, SIMULATIONS};
use connect_four::agent_rand;
use connect_four::agent_rand::valid_columns;
use connect_four::connect4::{Action, Match, MatchResult, MatchState, Player, COLS, ROWS};

fn after(columns: &[usize]) -> Match {
    let mut mat = Match::default();
    for &column in columns {
        assert!(mat.apply_action(&Action { column }).is_ok());
    }
    mat
}

fn fill_column(mat: &mut Match, col: usize) {
    for row in 0..ROWS {
        let player = if (col / 2 + row) % 2 == 0 { Player::Blue } else { Player::Red };
        mat.set(col, row, Some(player));
    }
}

#[test]
fn valid_columns_of_a_fresh_match() {
    assert_eq!(valid_columns(&Match::default()), vec![0, 1, 2, 3, 4, 5, 6]);
}

#[test]
fn valid_columns_leave_out_full_ones() {
    let mut mat = Match::default();
    fill_column(&mut mat, 0);
    fill_column(&mut mat, 3);
    fill_column(&mut mat, 6);
    assert_eq!(valid_columns(&mat), vec![1, 2, 4, 5]);
}

#[test]
fn valid_columns_of_a_full_grid() {
    let mut mat = Match::default();
    for col in 0..COLS {
        fill_column(&mut mat, col);
    }
    assert_eq!(valid_columns(&mat), Vec::<usize>::new());
}

#[test]
fn random_agent_answers_with_a_valid_column() {
    let mut mat = Match::default();
    fill_column(&mut mat, 1);
    fill_column(&mut mat, 2);
    fill_column(&mut mat, 5);
    for _ in 0..500 {
        let action = agent_rand::agent(&mat);
        assert!(mat.valid_action(&action));
    }
}

#[test]
fn random_agent_finds_the_only_valid_column() {
    let mut mat = Match::default();
    for col in 0..COLS {
        if col != 4 {
            fill_column(&mut mat, col);
        }
    }
    for _ in 0..50 {
        assert_eq!(agent_rand::agent(&mat).column, 4);
    }
}

#[test]
fn random_agent_reaches_every_valid_column() {
    let mat = Match::default();
    let mut seen = [false; 7];
    for _ in 0..2000 {
        seen[agent_rand::agent(&mat).column] = true;
    }
    assert_eq!(seen, [true; 7]);
}

#[test]
fn random_agents_play_a_match_to_its_end() {
    for _ in 0..50 {
        let mut mat = Match::default();
        let result = mat.play(agent_rand::agent, agent_rand::agent);
        assert!(result.is_ok());
        assert!(matches!(mat.state(), MatchState::Over(_)));
    }
}

#[test]
fn credit_of_each_result() {
    assert_eq!(credit(Player::Blue, &MatchResult::Winner(Player::Blue)), 1);
    assert_eq!(credit(Player::Blue, &MatchResult::Winner(Player::Red)), -1);
    assert_eq!(credit(Player::Red, &MatchResult::Winner(Player::Red)), 1);
    assert_eq!(credit(Player::Red, &MatchResult::Winner(Player::Blue)), -1);
    assert_eq!(credit(Player::Blue, &MatchResult::Tie), 0);
    assert_eq!(credit(Player::Red, &MatchResult::Tie), 0);
}

#[test]
fn playout_of_a_finished_match_is_its_result() {
    let won = after(&[0, 1, 0, 1, 0, 1, 0]);
    for _ in 0..20 {
        assert!(matches!(playout(&won), MatchResult::Winner(Player::Blue)));
    }
    let mut tied = Match::default();
    for col in 0..COLS {
        fill_column(&mut tied, col);
    }
    assert!(matches!(playout(&tied), MatchResult::Tie));
}

#[test]
fn playout_leaves_the_match_alone() {
    let mat = after(&[3, 3]);
    let _ = playout(&mat);
    assert_eq!(valid_columns(&mat).len(), 7);
    assert_eq!(mat.get(3, 2), None);
    assert_eq!(mat.next_player(), Player::Blue);
}

#[test]
fn playout_ends_with_the_last_free_cell() {
    let mut mat = Match::default();
    for col in 0..COLS {
        fill_column(&mut mat, col);
    }
    mat.set(6, ROWS - 1, None);
    assert!(matches!(playout(&mat), MatchResult::Tie));
}

#[test]
fn simulations_per_column() {
    assert_eq!(SIMULATIONS, 1_000);
}

#[test]
fn winning_move_scores_every_simulation() {
    let mat = after(&[0, 0, 1, 1, 2, 2]);
    assert_eq!(score_action(&mat, &Action { column: 3 }), SIMULATIONS);
}

#[test]
fn move_that_ties_scores_nothing() {
    let mut mat = Match::default();
    for col in 0..COLS {
        fill_column(&mut mat, col);
    }
    mat.set(6, ROWS - 1, None);
    assert_eq!(score_action(&mat, &Action { column: 6 }), 0);
}

#[test]
fn move_into_a_lost_match_scores_the_least() {
    // Red holds four in a row already; whatever Blue does, every simulation
    // starts from a match that Red has won.
    let mut mat = Match::default();
    for col in 0..4 {
        mat.set(col, 0, Some(Player::Red));
    }
    assert_eq!(mat.next_player(), Player::Blue);
    assert_eq!(score_action(&mat, &Action { column: 5 }), -SIMULATIONS);
}

#[test]
fn scores_stay_within_the_number_of_simulations() {
    let mat = after(&[3, 3, 4]);
    let score = score_action(&mat, &Action { column: 2 });
    assert!(-SIMULATIONS <= score && score <= SIMULATIONS);
}

#[test]
fn column_scores_cover_the_valid_columns() {
    let mut mat = after(&[0, 0, 1, 1, 2, 2]);
    fill_column(&mut mat, 5);
    let table = column_scores(&mat);
    assert_eq!(table.len(), COLS);
    for col in 0..COLS {
        assert_eq!(table[col].is_some(), col != 5);
    }
    assert_eq!(table[3], Some(SIMULATIONS));
}

#[test]
fn best_action_takes_the_highest_score() {
    let table = vec![Some(-3), Some(10), None, Some(250), Some(-1000), None, Some(249)];
    assert_eq!(best_action(&table).column, 3);
}

#[test]
fn best_action_takes_the_lowest_of_equal_columns() {
    let table = vec![None, Some(7), Some(7), Some(-2), Some(7), None, None];
    assert_eq!(best_action(&table).column, 1);
    let level = vec![Some(0); 7];
    assert_eq!(best_action(&level).column, 0);
}

#[test]
fn best_action_takes_a_single_column_whatever_its_score() {
    let table = vec![None, None, None, None, None, Some(-1000), None];
    assert_eq!(best_action(&table).column, 5);
}

#[test]
fn best_action_without_scores_is_column_zero() {
    assert_eq!(best_action(&vec![None; 7]).column, 0);
    assert_eq!(best_action(&Vec::new()).column, 0);
}

#[test]
fn best_action_passes_over_the_least_number() {
    let table = vec![None, Some(i32::MIN), Some(i32::MIN + 1)];
    assert_eq!(best_action(&table).column, 2);
    assert_eq!(best_action(&vec![None, None, Some(i32::MIN)]).column, 0);
}

#[test]
fn agent_takes_the_winning_column() {
    // Blue holds the bottom of columns 0, 1 and 2.
    let mat = after(&[0, 0, 1, 1, 2, 2]);
    for _ in 0..5 {
        assert_eq!(agent_mcts::agent(&mat).column, 3);
    }
}

#[test]
fn agent_takes_the_winning_column_for_red() {
    // Red holds three in column 6.
    let mat = after(&[0, 6, 1, 6, 3, 6, 3]);
    assert_eq!(mat.next_player(), Player::Red);
    for _ in 0..5 {
        assert_eq!(agent_mcts::agent(&mat).column, 6);
    }
}

#[test]
fn agent_takes_the_lowest_winning_column() {
    // Blue holds the bottom of columns 1, 2 and 3: 0 and 4 both win.
    let mat = after(&[1, 1, 2, 2, 3, 3]);
    assert_eq!(agent_mcts::agent(&mat).column, 0);
}

#[test]
fn agent_answers_with_a_valid_column() {
    let mut mat = Match::default();
    fill_column(&mut mat, 0);
    fill_column(&mut mat, 1);
    let action = agent_mcts::agent(&mat);
    assert!(mat.valid_action(&action));
}

#[test]
fn agent_takes_the_only_valid_column() {
    let mut mat = Match::default();
    for col in 0..COLS {
        if col != 2 {
            fill_column(&mut mat, col);
        }
    }
    assert_eq!(agent_mcts::agent(&mat).column, 2);
}

#[test]
fn agent_on_a_full_grid_answers_column_zero() {
    let mut mat = Match::default();
    for col in 0..COLS {
        fill_column(&mut mat, col);
    }
    assert_eq!(agent_mcts::agent(&mat).column, 0);
}

#[test]
fn agent_does_not_touch_the_match() {
    let mat = after(&[3, 4]);
    let _ = agent_mcts::agent(&mat);
    assert_eq!(mat.next_player(), Player::Blue);
    assert_eq!(mat.get(3, 0), Some(Player::Blue));
    assert_eq!(mat.get(4, 0), Some(Player::Red));
    assert_eq!(mat.get(3, 1), None);
}

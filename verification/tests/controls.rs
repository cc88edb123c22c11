use connect_four::connect4::{Action, Match, Player};
use connect_four::controls::{human_request, menu_choice, Agent, MenuChoice, Request};

#[test]
fn menu_offers_three_opponents() {
    assert!(matches!(menu_choice('1'), MenuChoice::Play(Agent::Human, Agent::Human)));
    assert!(matches!(menu_choice('2'), MenuChoice::Play(Agent::Human, Agent::Random)));
    assert!(matches!(menu_choice('3'), MenuChoice::Play(Agent::Human, Agent::Mcts)));
}

#[test]
fn menu_quits_on_q() {
    assert!(matches!(menu_choice('q'), MenuChoice::Quit));
}

#[test]
fn menu_passes_over_other_keys() {
    for key in ['0', '4', 'Q', ' ', 'x', '\n'] {
        assert!(matches!(menu_choice(key), MenuChoice::Nothing));
    }
}

#[test]
fn keys_one_to_seven_name_the_columns() {
    let mat = Match::default();
    for (column, key) in ['1', '2', '3', '4', '5', '6', '7'].into_iter().enumerate() {
        match human_request(&mat, key) {
            Request::Move(action) => assert_eq!(action.column, column),
            other => panic!("unexpected request {:?}", other),
        }
    }
}

#[test]
fn human_quits_on_q() {
    assert!(matches!(human_request(&Match::default(), 'q'), Request::Quit));
}

#[test]
fn human_keys_without_a_column_are_passed_over() {
    let mat = Match::default();
    for key in ['0', '8', '9', 'a', 'Q', ' ', '\u{0661}'] {
        assert!(matches!(human_request(&mat, key), Request::Nothing));
    }
}

#[test]
fn human_key_of_a_full_column_is_passed_over() {
    let mut mat = Match::default();
    for _ in 0..6 {
        assert!(mat.apply_action(&Action { column: 2 }).is_ok());
    }
    assert!(matches!(human_request(&mat, '3'), Request::Nothing));
    assert!(matches!(human_request(&mat, '2'), Request::Move(Action { column: 1 })));
    assert_eq!(mat.next_player(), Player::Blue);
}

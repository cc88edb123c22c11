//! What the keys mean: the choice of an opponent in the menu, and a human
//! player's choice of a column during a match.

use vstd::prelude::*;
use crate::connect4::{Action, Match};

verus! {

/// Who plays a side: a human at the keyboard, the random mover, or the mover
/// that plays by simulation.
#[derive(Debug)]
pub enum Agent {
    Human,
    Random,
    Mcts,
}

/// What a key pressed in the menu asks for.
#[derive(Debug)]
pub enum MenuChoice {
    /// A match between the two agents, the first one playing `Blue`.
    Play(Agent, Agent),
    /// Leave the program.
    Quit,
    /// The key has no meaning in the menu.
    Nothing,
}

/// What a key pressed on a human player's turn asks for.
#[derive(Debug)]
pub enum Request {
    /// Drop a piece.
    Move(Action),
    /// Leave the match.
    Quit,
    /// The key names no column that the match offers.
    Nothing,
}

/// The column that a key names: the keys `1` to `7` name the columns from
/// left to right.
pub open spec fn key_column(key: char) -> Option<usize> {
    if '1' <= key <= '7' {
        Some((key as int - '1' as int) as usize)
    } else {
        None
    }
}

/// Reads a key pressed in the menu: `1` is a match against another human, `2`
/// against the random mover, `3` against the mover that plays by simulation;
/// `q` leaves.
pub fn menu_choice(key: char) -> (choice: MenuChoice)
    ensures
        choice == (match key {
            '1' => MenuChoice::Play(Agent::Human, Agent::Human),
            '2' => MenuChoice::Play(Agent::Human, Agent::Random),
            '3' => MenuChoice::Play(Agent::Human, Agent::Mcts),
            'q' => MenuChoice::Quit,
            _ => MenuChoice::Nothing,
        }),
{
    match key {
        '1' => MenuChoice::Play(Agent::Human, Agent::Human),
        '2' => MenuChoice::Play(Agent::Human, Agent::Random),
        '3' => MenuChoice::Play(Agent::Human, Agent::Mcts),
        'q' => MenuChoice::Quit,
        _ => MenuChoice::Nothing,
    }
}

/// Reads a key pressed on a human player's turn: `q` leaves the match, and a
/// key from `1` to `7` is a move into the column that it names if `mat`
/// offers that column. Every other key is passed over.
pub fn human_request(mat: &Match, key: char) -> (request: Request)
    ensures
        request == (if key == 'q' {
            Request::Quit
        } else {
            match key_column(key) {
                Some(column) => if mat@.valid_action(column as int) {
                    Request::Move(Action { column })
                } else {
                    Request::Nothing
                },
                None => Request::Nothing,
            }
        }),
{
    if key == 'q' {
        return Request::Quit;
    }
    let column: usize = match key {
        '1' => 0,
        '2' => 1,
        '3' => 2,
        '4' => 3,
        '5' => 4,
        '6' => 5,
        '7' => 6,
        _ => {
            return Request::Nothing;
        },
    };
    assert(key_column(key) == Some(column));
    let action = Action { column };
    if mat.valid_action(&action) {
        Request::Move(action)
    } else {
        Request::Nothing
    }
}

} // verus!

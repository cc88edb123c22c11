//! The mover that plays by simulation: for every column that the match offers
//! it plays a fixed number of matches at random from the position after the
//! move, and it picks the column whose matches went best.
//!
//! A column's score is the number of simulated matches that the player to
//! move won less the number that the other player won. Every column is scored
//! over the same number of matches, so the order of these numbers is the order
//! of the columns' rates of success.

use vstd::prelude::*;
use crate::agent_rand::agent as rand_agent;
use crate::connect4::{
    answers_accepted, may_ask, played, Action, ActionError, Match, MatchResult, MatchState, Player,
    Turn, COLS,
};
use crate::model::{lemma_in_progress_has_valid_action, lemma_valid_is_accepted, MatchView};

verus! {

/// Number of matches played at random for each column. More of them make a
/// stronger and slower mover.
pub const SIMULATIONS: i32 = 1_000;

/// What a finished match is worth to `player`: 1 if `player` won it, -1 if
/// the other player did, 0 for a tie.
pub open spec fn worth(player: Player, result: MatchResult) -> int {
    match result {
        MatchResult::Winner(winner) => if winner == player {
            1
        } else {
            -1
        },
        MatchResult::Tie => 0,
    }
}

/// The sum of what each of `results` is worth to `player`.
pub open spec fn net_wins(player: Player, results: Seq<MatchResult>) -> int
    decreases results.len(),
{
    if results.len() == 0 {
        0
    } else {
        net_wins(player, results.drop_last()) + worth(player, results.last())
    }
}

/// Whether `result` can be the end of a match played at random from `start`:
/// the result that `start` already shows, if it is over; else the outcome of
/// some play in which both sides answer as the random mover may.
pub open spec fn random_result(start: MatchView, result: MatchResult) -> bool {
    match start.state() {
        MatchState::Over(shown) => result == shown,
        MatchState::InProgress => exists|turns: Seq<Turn>, end: MatchView|
            played(
                rand_agent,
                rand_agent,
                start,
                turns,
                end,
                Ok::<MatchResult, ActionError>(result),
            ),
    }
}

/// Whether `score` can be the score of column `column` in the match `mat`:
/// the net wins of the player to move over `SIMULATIONS` matches, each played
/// at random from the position after the move.
pub open spec fn scores(mat: MatchView, column: int, score: int) -> bool {
    exists|results: Seq<MatchResult>|
        {
            &&& results.len() == SIMULATIONS
            &&& forall|i: int|
                0 <= i < results.len() ==> random_result(mat.dropped(column), #[trigger] results[i])
            &&& score == net_wins(mat.next_player, results)
        }
}

/// Whether column `c` has a score that can be picked: one above the least
/// number, which is where the search for the best one starts.
pub open spec fn candidate(scores: Seq<Option<i32>>, c: int) -> bool {
    0 <= c < scores.len() && scores[c] is Some && scores[c]->0 > i32::MIN
}

/// Whether `c` is the best of the candidates: its score is above that of
/// every candidate before it and not below that of any after it.
pub open spec fn best_candidate(scores: Seq<Option<i32>>, c: int) -> bool {
    &&& candidate(scores, c)
    &&& forall|j: int| 0 <= j < c && candidate(scores, j) ==> (#[trigger] scores[j])->0 < scores[c]->0
    &&& forall|j: int| c < j && candidate(scores, j) ==> (#[trigger] scores[j])->0 <= scores[c]->0
}

/// Whether `column` is what the search for the best score picks from `scores`:
/// the best candidate; column 0 if there is no candidate.
pub open spec fn picks(scores: Seq<Option<i32>>, column: int) -> bool {
    if exists|c: int| candidate(scores, c) {
        best_candidate(scores, column)
    } else {
        column == 0
    }
}

/// Whether `table` holds a score for each column that `mat` offers to the
/// player to move, and for no other.
pub open spec fn scored(mat: MatchView, table: Seq<Option<i32>>) -> bool {
    &&& table.len() == COLS
    &&& forall|c: int|
        0 <= c < COLS ==> match #[trigger] table[c] {
            Some(score) => mat.valid_action(c) && scores(mat, c, score as int),
            None => !mat.valid_action(c),
        }
}

/// What a finished match is worth to `player`.
pub fn credit(player: Player, result: &MatchResult) -> (value: i32)
    ensures
        value == worth(player, *result),
{
    match result {
        MatchResult::Winner(winner) => {
            if *winner == player {
                1
            } else {
                -1
            }
        },
        MatchResult::Tie => 0,
    }
}

/// Plays one match at random from `start` to its end, on a copy, and returns
/// how it ended. A match that is over already is not played on.
pub fn playout(start: &Match) -> (result: MatchResult)
    ensures
        random_result(start@, result),
{
    let mut mat = start.clone();
    match mat.state() {
        MatchState::Over(result) => result,
        MatchState::InProgress => {
            proof {
                lemma_random_mover_fits(mat@);
            }
            mat.play(rand_agent, rand_agent).unwrap()
        },
    }
}

/// Scores the column that `action` names: plays `SIMULATIONS` matches at
/// random from the position after the move and returns the net wins of the
/// player who makes the move.
///
/// The match must accept the action.
pub fn score_action(current_mat: &Match, action: &Action) -> (score: i32)
    requires
        current_mat@.accepts(action.column as int),
    ensures
        scores(current_mat@, action.column as int, score as int),
        -SIMULATIONS <= score <= SIMULATIONS,
        current_mat@.dropped(action.column as int).state() matches MatchState::Over(shown)
            ==> score == SIMULATIONS * worth(current_mat@.next_player, shown),
{
    let player = current_mat.next_player();

    // The match after the move.
    let mut next_mat = current_mat.clone();
    next_mat.apply_action(action).unwrap();

    // Matches played at random from there.
    let mut score: i32 = 0;
    let ghost mut results: Seq<MatchResult> = Seq::empty();
    for i in 0..SIMULATIONS
        invariant
            next_mat@ == current_mat@.dropped(action.column as int),
            player == current_mat@.next_player,
            results.len() == i,
            forall|j: int| 0 <= j < results.len() ==> random_result(next_mat@, #[trigger] results[j]),
            score == net_wins(player, results),
            -i <= score <= i,
    {
        let result = playout(&next_mat);
        proof {
            assert(results.push(result).drop_last() == results);
            results = results.push(result);
        }
        score += credit(player, &result);
    }
    proof {
        lemma_score_range(current_mat@, action.column as int, score as int);
    }
    score
}

/// Scores every column that `mat` offers to the player to move.
pub fn column_scores(mat: &Match) -> (table: Vec<Option<i32>>)
    ensures
        scored(mat@, table@),
{
    let mut table: Vec<Option<i32>> = Vec::new();
    for col in 0..COLS
        invariant
            table@.len() == col,
            forall|c: int|
                0 <= c < col ==> match #[trigger] table@[c] {
                    Some(score) => mat@.valid_action(c) && scores(mat@, c, score as int),
                    None => !mat@.valid_action(c),
                },
    {
        let action = Action { column: col };
        if mat.valid_action(&action) {
            proof {
                lemma_valid_is_accepted(mat@, col as int);
            }
            table.push(Some(score_action(mat, &action)));
        } else {
            table.push(None);
        }
    }
    table
}

/// Picks the column with the best score: the search starts from the least
/// number and takes a column only for a score above the best so far, so of
/// several columns with the best score the lowest one is picked, and column 0
/// if no column has a score.
pub fn best_action(scores: &Vec<Option<i32>>) -> (action: Action)
    ensures
        picks(scores@, action.column as int),
{
    let mut max_score: i32 = i32::MIN;
    let mut best_action = Action { column: 0 };
    for col in 0..scores.len()
        invariant
            forall|j: int| 0 <= j < col && candidate(scores@, j) ==> (#[trigger] scores@[j])->0 <= max_score,
            max_score == i32::MIN ==> best_action.column == 0 && forall|j: int|
                0 <= j < col ==> !candidate(scores@, j),
            max_score > i32::MIN ==> {
                &&& best_action.column < col
                &&& candidate(scores@, best_action.column as int)
                &&& scores@[best_action.column as int]->0 == max_score
                &&& forall|j: int|
                    0 <= j < best_action.column && candidate(scores@, j) ==> (#[trigger] scores@[j])->0
                        < max_score
            },
    {
        if let Some(score) = scores[col] {
            if score > max_score {
                max_score = score;
                best_action = Action { column: col };
            }
        }
    }
    best_action
}

/// Picks a column for the player to move by simulation: scores every column
/// that `mat` offers and returns the one with the best score, the lowest of
/// them if several have it.
///
/// A column that wins the match at once has the highest score there is, so
/// no column above the lowest such column is picked. On a match that offers
/// no column the answer is column 0, which the match will refuse.
pub fn agent(mat: &Match) -> (action: Action)
    ensures
        exists|table: Seq<Option<i32>>| scored(mat@, table) && picks(table, action.column as int),
        mat@.has_valid_action() ==> mat@.valid_action(action.column as int),
        !mat@.has_valid_action() ==> action.column == 0,
        forall|w: int|
            mat@.valid_action(w) && mat@.dropped(w).state() == MatchState::Over(
                MatchResult::Winner(mat@.next_player),
            ) ==> action.column <= w,
{
    let table = column_scores(mat);
    let action = best_action(&table);
    proof {
        lemma_pick_of_scored(mat@, table@, action.column as int);
    }
    action
}

/// A score lies between `-SIMULATIONS` and `SIMULATIONS`, and a move that
/// ends the match is scored by how it ended alone: `SIMULATIONS` if the player
/// who made it won, `-SIMULATIONS` if the other player did, 0 for a tie.
pub proof fn lemma_score_range(mat: MatchView, column: int, score: int)
    requires
        scores(mat, column, score),
    ensures
        -SIMULATIONS <= score <= SIMULATIONS,
        mat.dropped(column).state() matches MatchState::Over(shown) ==> score == SIMULATIONS
            * worth(mat.next_player, shown),
{
    let results = choose|results: Seq<MatchResult>|
        {
            &&& results.len() == SIMULATIONS
            &&& forall|i: int|
                0 <= i < results.len() ==> random_result(mat.dropped(column), #[trigger] results[i])
            &&& score == net_wins(mat.next_player, results)
        };
    lemma_net_wins(mat.next_player, mat.dropped(column), results);
}

proof fn lemma_net_wins(player: Player, start: MatchView, results: Seq<MatchResult>)
    requires
        forall|i: int| 0 <= i < results.len() ==> random_result(start, #[trigger] results[i]),
    ensures
        -results.len() <= net_wins(player, results) <= results.len(),
        start.state() matches MatchState::Over(shown) ==> net_wins(player, results) == results.len()
            * worth(player, shown),
    decreases results.len(),
{
    if results.len() > 0 {
        let earlier = results.drop_last();
        assert forall|i: int| 0 <= i < earlier.len() implies random_result(
            start,
            #[trigger] earlier[i],
        ) by {
            assert(earlier[i] == results[i]);
        }
        lemma_net_wins(player, start, earlier);
        assert(random_result(start, results.last()));
        if start.state() is Over {
            let w = worth(player, start.state()->Over_0);
            let n = results.len() as int;
            assert((n - 1) * w + w == n * w) by (nonlinear_arith);
        }
    }
}

/// What the pick from a table of scores says of the match that was scored.
proof fn lemma_pick_of_scored(mat: MatchView, table: Seq<Option<i32>>, column: int)
    requires
        scored(mat, table),
        picks(table, column),
    ensures
        mat.has_valid_action() ==> mat.valid_action(column),
        !mat.has_valid_action() ==> column == 0,
        forall|w: int|
            mat.valid_action(w) && mat.dropped(w).state() == MatchState::Over(
                MatchResult::Winner(mat.next_player),
            ) ==> column <= w,
{
    assert forall|c: int| mat.valid_action(c) implies candidate(table, c) && (mat.dropped(
        c,
    ).state() == MatchState::Over(MatchResult::Winner(mat.next_player)) ==> table[c]->0
        == SIMULATIONS) by {
        assert(table[c] is Some);
        lemma_score_range(mat, c, table[c]->0 as int);
    }
    if exists|c: int| candidate(table, c) {
        let c = choose|c: int| candidate(table, c);
        assert(table[c] is Some);
        assert(mat.valid_action(c));
        assert(table[column] is Some);
        assert forall|w: int|
            mat.valid_action(w) && mat.dropped(w).state() == MatchState::Over(
                MatchResult::Winner(mat.next_player),
            ) implies column <= w by {
            assert(candidate(table, w));
            assert(table[w]->0 == SIMULATIONS);
            assert(table[column] is Some);
            lemma_score_range(mat, column, table[column]->0 as int);
        }
    }
}

/// The random mover can be asked all through a match in progress, and what it
/// answers is accepted.
proof fn lemma_random_mover_fits(start: MatchView)
    requires
        start.state() is InProgress,
    ensures
        may_ask(rand_agent, Player::Blue, start),
        may_ask(rand_agent, Player::Red, start),
        answers_accepted(rand_agent),
{
    assert forall|m: Match| m.inv() && (#[trigger] m@.state()) is InProgress implies m@.has_valid_action() by {
        lemma_in_progress_has_valid_action(m@);
    }
    assert forall|m: Match, a: Action|
        m.inv() && #[trigger] call_ensures(rand_agent, (&m,), a) implies m@.accepts(
        a.column as int,
    ) by {
        lemma_valid_is_accepted(m@, a.column as int);
    }
}

} // verus!

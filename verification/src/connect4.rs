//! The match: a grid of `COLS` columns and `ROWS` rows, the player to move,
//! the placement rule and the detection of a finished match.
//!
//! Contracts are stated over [`Board`], the mathematical model of the grid,
//! and [`MatchView`], the model of a whole match.

use vstd::prelude::*;
use crate::model::{lemma_occupied_bound, lemma_occupied_with, Board, Line, MatchView};

verus! {

/// Number of rows of the grid.
pub const ROWS: usize = 6;

/// Number of columns of the grid.
pub const COLS: usize = 7;

/// One of the two sides. `Blue` moves first.
#[derive(Debug, Clone, Copy, PartialEq, Eq, Structural)]
pub enum Player {
    Blue,
    Red,
}

impl Player {
    /// The other side.
    pub open spec fn opponent(self) -> Player {
        match self {
            Player::Blue => Player::Red,
            Player::Red => Player::Blue,
        }
    }

    /// The side that moves after `self`.
    pub fn next(&self) -> (p: Player)
        ensures
            p == self.opponent(),
            p != *self,
    {
        match self {
            Player::Blue => Player::Red,
            Player::Red => Player::Blue,
        }
    }
}

/// Why a move was refused.
#[derive(Debug)]
pub enum ActionError {
    /// The column lies outside `0..COLS`.
    UnknownColumn(usize),
    /// The column has no empty cell left.
    FullColumn(usize),
}

/// A move: the column into which the player to move drops a piece.
#[derive(Debug)]
pub struct Action {
    pub column: usize,
}

/// How a finished match ended.
#[derive(Debug)]
pub enum MatchResult {
    Winner(Player),
    Tie,
}

/// Whether a match is still running.
#[derive(Debug)]
pub enum MatchState {
    InProgress,
    Over(MatchResult),
}

/// A match: the grid and the player to move.
#[derive(Debug)]
pub struct Match {
    board: Vec<Option<Player>>,
    next_player: Player,
}

impl View for Match {
    type V = MatchView;

    closed spec fn view(&self) -> MatchView {
        MatchView { board: Board { cells: self.board@ }, next_player: self.next_player }
    }
}

impl Clone for Match {
    /// An independent copy: same grid, same player to move.
    fn clone(&self) -> (copy: Match)
        ensures
            copy@ == self@,
    {
        proof {
            use_type_invariant(self);
        }
        let board = self.board.clone();
        assert(board@ =~= self.board@);
        Match { board, next_player: self.next_player }
    }
}

impl Default for Match {
    /// A fresh match: no piece on the grid, `Blue` to move.
    fn default() -> (m: Match)
        ensures
            m@ == MatchView::fresh(),
    {
        let board: Vec<Option<Player>> = vec![None; ROWS * COLS];
        assert(board@ =~= Board::empty().cells);
        Match { board, next_player: Player::Blue }
    }
}

/// One turn of a played match: the match as a mover was asked, and the action
/// that the mover answered with.
pub struct Turn {
    pub asked: Match,
    pub answer: Action,
}

/// Whether `mover` can be asked for every action that `side` may owe in a
/// match played from `start`: on `start` itself and on every match in
/// progress.
pub open spec fn may_ask<F: Fn(&Match) -> Action>(mover: F, side: Player, start: MatchView) -> bool {
    forall|m: Match|
        m.inv() && m@.next_player == side && (m@ == start || m@.state() is InProgress)
            ==> #[trigger] call_requires(mover, (&m,))
}

/// Whether every action that `mover` can answer with is one that the match it
/// was asked on accepts.
pub open spec fn answers_accepted<F: Fn(&Match) -> Action>(mover: F) -> bool {
    forall|m: Match, a: Action|
        m.inv() && #[trigger] call_ensures(mover, (&m,), a) ==> m@.accepts(a.column as int)
}

/// Whether the answer of `turn` came from the mover whose turn it was.
pub open spec fn answered<F: Fn(&Match) -> Action, G: Fn(&Match) -> Action>(
    blue_player: F,
    red_player: G,
    turn: Turn,
) -> bool {
    &&& turn.asked.inv()
    &&& match turn.asked@.next_player {
        Player::Blue => call_ensures(blue_player, (&turn.asked,), turn.answer),
        Player::Red => call_ensures(red_player, (&turn.asked,), turn.answer),
    }
}

/// Whether `next` is the turn that comes after `turn`: the answer of `turn`
/// was accepted, left the match in progress, and `next` was asked on the match
/// that it led to.
pub open spec fn follows(turn: Turn, next: Turn) -> bool {
    &&& turn.asked@.outcome(turn.answer.column) == Ok::<MatchState, ActionError>(
        MatchState::InProgress,
    )
    &&& next.asked@ == turn.asked@.after(turn.answer.column)
}

/// Whether `turns` is a play of the match `start` by the two movers that ends
/// with the match `end` and with `outcome`: the movers answered in turn, each
/// answer but the last left the match in progress, and the last one finished
/// the match or was refused.
pub open spec fn played<F: Fn(&Match) -> Action, G: Fn(&Match) -> Action>(
    blue_player: F,
    red_player: G,
    start: MatchView,
    turns: Seq<Turn>,
    end: MatchView,
    outcome: Result<MatchResult, ActionError>,
) -> bool {
    &&& turns.len() >= 1
    &&& turns[0].asked@ == start
    &&& forall|i: int| 0 <= i < turns.len() ==> answered(blue_player, red_player, #[trigger] turns[i])
    &&& forall|i: int| 0 <= i < turns.len() - 1 ==> follows(#[trigger] turns[i], turns[i + 1])
    &&& end == turns.last().asked@.after(turns.last().answer.column)
    &&& match turns.last().asked@.outcome(turns.last().answer.column) {
        Ok(MatchState::InProgress) => false,
        Ok(MatchState::Over(result)) => outcome == Ok::<MatchResult, ActionError>(result),
        Err(e) => outcome == Err::<MatchResult, ActionError>(e),
    }
}

/// The state of a match is a function of its grid: whatever `state` returns
/// for two matches with the same cells is the same, whoever is to move in
/// them and however they were reached.
pub proof fn lemma_state_by_board(a: Match, b: Match, state_a: MatchState, state_b: MatchState)
    requires
        a@.board == b@.board,
        call_ensures(Match::state, (&a,), state_a),
        call_ensures(Match::state, (&b,), state_b),
    ensures
        state_a == state_b,
{
}

/// Asking a match for its state twice, with no move in between, gives the
/// same answer twice.
pub proof fn lemma_state_repeats(mat: Match, first: MatchState, second: MatchState)
    requires
        call_ensures(Match::state, (&mat,), first),
        call_ensures(Match::state, (&mat,), second),
    ensures
        first == second,
{
}

impl Match {
    /// Every match holds a full grid of cells.
    #[verifier::type_invariant]
    pub open spec fn inv(&self) -> bool {
        self@.board.wf()
    }

    /// The player to move.
    pub fn next_player(&self) -> (p: Player)
        ensures
            p == self@.next_player,
    {
        self.next_player
    }

    /// Reads the cell in column `col`, `row` rows above the bottom.
    ///
    /// The cells lie column after column, so a `row` of `ROWS` or more counts
    /// on into the columns that follow. The cell must be one of the grid.
    pub fn get(&self, col: usize, row: usize) -> (cell: Option<Player>)
        requires
            col * ROWS + row < ROWS * COLS,
        ensures
            cell == self@.board.at(col as int, row as int),
    {
        proof {
            use_type_invariant(self);
        }
        self.board[col * ROWS + row]
    }

    /// Overwrites the cell in column `col`, `row` rows above the bottom, and
    /// leaves the turn where it is. The cell is found as in [`Match::get`].
    ///
    /// This sets up a position; it is no move, and it can leave pieces
    /// hanging in the air.
    pub fn set(&mut self, col: usize, row: usize, val: Option<Player>)
        requires
            col * ROWS + row < ROWS * COLS,
        ensures
            final(self)@.board == old(self)@.board.with(col as int, row as int, val),
            final(self)@.next_player == old(self)@.next_player,
    {
        proof {
            use_type_invariant(&*self);
        }
        self.board[col * ROWS + row] = val;
    }

    /// Whether `action` names a column of the grid whose top cell is empty.
    pub fn valid_action(&self, action: &Action) -> (valid: bool)
        ensures
            valid == self@.valid_action(action.column as int),
            action.column >= COLS ==> !valid,
            self@.board.column_full(action.column as int) ==> !valid,
    {
        if action.column >= COLS {
            return false;
        }
        self.get(action.column, ROWS - 1).is_none()
    }

    /// Drops a piece of the player to move into the column that `action`
    /// names, and hands the turn to the other player.
    ///
    /// The piece comes to rest in the lowest empty cell of the column. A
    /// column off the grid or without an empty cell is refused, and the match
    /// stays as it was.
    pub fn apply_action(&mut self, action: &Action) -> (outcome: Result<MatchState, ActionError>)
        ensures
            outcome == old(self)@.outcome(action.column),
            final(self)@ == old(self)@.after(action.column),
            outcome is Ok ==> outcome == Ok::<MatchState, ActionError>(final(self)@.state()),
            action.column >= COLS ==> outcome == Err::<MatchState, ActionError>(
                ActionError::UnknownColumn(action.column),
            ),
            action.column < COLS && old(self)@.board.column_full(action.column as int) ==> outcome
                == Err::<MatchState, ActionError>(ActionError::FullColumn(action.column)),
            old(self)@.valid_action(action.column as int) ==> outcome is Ok,
            outcome is Ok ==> final(self)@.next_player != old(self)@.next_player,
            outcome is Ok ==> final(self)@.board.occupied() == old(self)@.board.occupied() + 1,
    {
        proof {
            use_type_invariant(&*self);
        }
        if action.column >= COLS {
            return Err(ActionError::UnknownColumn(action.column));
        }
        let column = action.column;
        for row in 0..ROWS
            invariant
                column == action.column,
                column < COLS,
                self@ == old(self)@,
                self@.board.wf(),
                self@.board.landing_row(column as int) == self@.board.landing_row_from(
                    column as int,
                    row as int,
                ),
                forall|r: int| 0 <= r < row ==> (#[trigger] self@.board.at(column as int, r)) is Some,
        {
            if self.get(column, row).is_none() {
                proof {
                    lemma_occupied_with(
                        self@.board,
                        column as int,
                        row as int,
                        self@.next_player,
                    );
                }
                self.set(column, row, Some(self.next_player));
                self.next_player = self.next_player.next();
                return Ok(self.state());
            }
        }
        Err(ActionError::FullColumn(column))
    }

    /// Plays the match to its end: asks `blue_player` or `red_player`,
    /// whoever is to move, for an action, applies it, and goes on until the
    /// match is over or an action is refused.
    ///
    /// The first action is asked for whatever the state of the match; each
    /// later one only while the match is in progress. A refused action ends
    /// the play with its error and leaves the match as it stood before it.
    pub fn play<F: Fn(&Match) -> Action, G: Fn(&Match) -> Action>(
        &mut self,
        blue_player: F,
        red_player: G,
    ) -> (outcome: Result<MatchResult, ActionError>)
        requires
            may_ask(blue_player, Player::Blue, old(self)@),
            may_ask(red_player, Player::Red, old(self)@),
        ensures
            exists|turns: Seq<Turn>|
                played(blue_player, red_player, old(self)@, turns, final(self)@, outcome),
            outcome matches Ok(result) ==> final(self)@.state() == MatchState::Over(result),
            answers_accepted(blue_player) && answers_accepted(red_player) ==> outcome is Ok,
    {
        proof {
            use_type_invariant(&*self);
        }
        let ghost start = self@;
        let ghost mut turns: Seq<Turn> = Seq::empty();
        loop
            invariant
                start == old(self)@,
                may_ask(blue_player, Player::Blue, start),
                may_ask(red_player, Player::Red, start),
                self.inv(),
                turns.len() == 0 ==> self@ == start,
                turns.len() > 0 ==> {
                    &&& turns[0].asked@ == start
                    &&& turns.last().asked@.outcome(turns.last().answer.column) == Ok::<
                        MatchState,
                        ActionError,
                    >(MatchState::InProgress)
                    &&& self@ == turns.last().asked@.after(turns.last().answer.column)
                },
                forall|i: int| 0 <= i < turns.len() ==> answered(blue_player, red_player, #[trigger] turns[i]),
                forall|i: int| 0 <= i < turns.len() - 1 ==> follows(#[trigger] turns[i], turns[i + 1]),
            decreases ROWS * COLS - self@.board.occupied(),
        {
            proof {
                lemma_occupied_bound(self@.board);
                if turns.len() > 0 {
                    assert(self@.state() is InProgress);
                }
            }
            let ghost asked = *self;
            let action = match self.next_player {
                Player::Blue => blue_player(self),
                Player::Red => red_player(self),
            };
            let ghost turn = Turn { asked, answer: action };
            proof {
                let earlier = turns;
                turns = turns.push(turn);
                assert forall|i: int| 0 <= i < turns.len() - 1 implies follows(
                    #[trigger] turns[i],
                    turns[i + 1],
                ) by {
                    if i < earlier.len() - 1 {
                        assert(follows(earlier[i], earlier[i + 1]));
                    }
                }
            }
            match self.apply_action(&action) {
                Err(e) => {
                    assert(played(blue_player, red_player, start, turns, self@, Err(e)));
                    return Err(e);
                },
                Ok(state) => {
                    proof {
                        use_type_invariant(&*self);
                        lemma_occupied_bound(self@.board);
                    }
                    if let MatchState::Over(result) = state {
                        assert(played(blue_player, red_player, start, turns, self@, Ok(result)));
                        return Ok(result);
                    }
                },
            }
        }
    }

    /// The owner of four cells, if all four hold a piece of one player.
    fn same_owner(
        a: Option<Player>,
        b: Option<Player>,
        c: Option<Player>,
        d: Option<Player>,
    ) -> (p: Option<Player>)
        ensures
            p == (if a is Some && b == a && c == a && d == a {
                a
            } else {
                None
            }),
    {
        match (a, b, c, d) {
            (Some(i), Some(j), Some(k), Some(l)) => {
                if i == j && j == k && k == l {
                    Some(i)
                } else {
                    None
                }
            },
            _ => None,
        }
    }

    /// Whether the match is over, and how: computed from the grid alone.
    pub fn state(&self) -> (state: MatchState)
        ensures
            state == self@.board.state(),
    {
        proof {
            use_type_invariant(self);
        }
        let ghost board = self@.board;
        // Vertical lines.
        for col in 0..COLS
            invariant
                board == self@.board,
                board.wf(),
                board.first_winner() == board.first_winner_from(3 * col),
        {
            for row in 0..3usize
                invariant
                    0 <= col < COLS,
                    board == self@.board,
                    board.wf(),
                    board.first_winner() == board.first_winner_from(3 * col + row),
            {
                let ghost k = 3 * col + row;
                assert(Line::nth(k) == Line { col: col as int, row: row as int, dc: 0, dr: 1 });
                let owner = Self::same_owner(
                    self.get(col, row),
                    self.get(col, row + 1),
                    self.get(col, row + 2),
                    self.get(col, row + 3),
                );
                assert(owner == board.owner(Line::nth(k)));
                if let Some(p) = owner {
                    return MatchState::Over(MatchResult::Winner(p));
                }
            }
        }
        // Horizontal lines.
        for row in 0..ROWS
            invariant
                board == self@.board,
                board.wf(),
                board.first_winner() == board.first_winner_from(21 + 4 * row),
        {
            for col in 0..4usize
                invariant
                    0 <= row < ROWS,
                    board == self@.board,
                    board.wf(),
                    board.first_winner() == board.first_winner_from(21 + 4 * row + col),
            {
                let ghost k = 21 + 4 * row + col;
                assert(Line::nth(k) == Line { col: col as int, row: row as int, dc: 1, dr: 0 });
                let owner = Self::same_owner(
                    self.get(col, row),
                    self.get(col + 1, row),
                    self.get(col + 2, row),
                    self.get(col + 3, row),
                );
                assert(owner == board.owner(Line::nth(k)));
                if let Some(p) = owner {
                    return MatchState::Over(MatchResult::Winner(p));
                }
            }
        }
        // Rising diagonals.
        for col in 0..4usize
            invariant
                board == self@.board,
                board.wf(),
                board.first_winner() == board.first_winner_from(45 + 3 * col),
        {
            for row in 0..3usize
                invariant
                    0 <= col < 4,
                    board == self@.board,
                    board.wf(),
                    board.first_winner() == board.first_winner_from(45 + 3 * col + row),
            {
                let ghost k = 45 + 3 * col + row;
                assert(Line::nth(k) == Line { col: col as int, row: row as int, dc: 1, dr: 1 });
                let owner = Self::same_owner(
                    self.get(col, row),
                    self.get(col + 1, row + 1),
                    self.get(col + 2, row + 2),
                    self.get(col + 3, row + 3),
                );
                assert(owner == board.owner(Line::nth(k)));
                if let Some(p) = owner {
                    return MatchState::Over(MatchResult::Winner(p));
                }
            }
        }
        // Falling diagonals.
        for col in 0..4usize
            invariant
                board == self@.board,
                board.wf(),
                board.first_winner() == board.first_winner_from(57 + 3 * col),
        {
            for row in 3..6usize
                invariant
                    0 <= col < 4,
                    board == self@.board,
                    board.wf(),
                    board.first_winner() == board.first_winner_from(57 + 3 * col + (row - 3)),
            {
                let ghost k = 57 + 3 * col + (row - 3);
                assert(Line::nth(k) == Line { col: col as int, row: row as int, dc: 1, dr: -1 });
                let owner = Self::same_owner(
                    self.get(col, row),
                    self.get(col + 1, row - 1),
                    self.get(col + 2, row - 2),
                    self.get(col + 3, row - 3),
                );
                assert(owner == board.owner(Line::nth(k)));
                if let Some(p) = owner {
                    return MatchState::Over(MatchResult::Winner(p));
                }
            }
        }
        assert(board.first_winner() is None);
        // No line is owned: the match goes on while a column has room.
        for col in 0..COLS
            invariant
                board == self@.board,
                board.wf(),
                board.first_winner() is None,
                forall|c: int| 0 <= c < col ==> (#[trigger] board.at(c, ROWS - 1)) is Some,
        {
            if self.get(col, ROWS - 1).is_none() {
                return MatchState::InProgress;
            }
        }
        MatchState::Over(MatchResult::Tie)
    }
}

} // verus!

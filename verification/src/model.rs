//! The mathematical model of a match: the grid as a sequence of cells, the
//! lines of four cells, and what the rules say of them.

use vstd::prelude::*;
use crate::connect4::{ActionError, MatchResult, MatchState, Player, COLS, ROWS};

verus! {

/// The grid as a sequence of cells, column after column, each column from the
/// bottom row upward.
pub struct Board {
    pub cells: Seq<Option<Player>>,
}

impl Board {
    /// The grid has one cell for each column and row.
    pub open spec fn wf(self) -> bool {
        self.cells.len() == ROWS * COLS
    }

    /// The grid without any piece.
    pub open spec fn empty() -> Board {
        Board { cells: Seq::new((ROWS * COLS) as nat, |i: int| None::<Player>) }
    }

    /// The cell in column `col`, `row` rows above the bottom.
    pub open spec fn at(self, col: int, row: int) -> Option<Player> {
        self.cells[col * ROWS + row]
    }

    /// The grid with the cell at (`col`, `row`) replaced by `val`.
    pub open spec fn with(self, col: int, row: int, val: Option<Player>) -> Board {
        Board { cells: self.cells.update(col * ROWS + row, val) }
    }

    /// Whether no cell is empty that a piece could still reach: the top cell
    /// of every column is taken.
    pub open spec fn full(self) -> bool {
        forall|col: int| 0 <= col < COLS ==> (#[trigger] self.at(col, ROWS - 1)) is Some
    }

    /// The player who holds all four cells of `line`, if one does.
    pub open spec fn owner(self, line: Line) -> Option<Player> {
        let first = self.at(line.col, line.row);
        if first is Some
            && self.at(line.col + line.dc, line.row + line.dr) == first
            && self.at(line.col + 2 * line.dc, line.row + 2 * line.dr) == first
            && self.at(line.col + 3 * line.dc, line.row + 3 * line.dr) == first {
            first
        } else {
            None
        }
    }

    /// The owner of the first owned line among those numbered `k` and above.
    pub open spec fn first_winner_from(self, k: int) -> Option<Player>
        decreases LINES - k,
    {
        if k < 0 || k >= LINES {
            None
        } else if self.owner(Line::nth(k)) is Some {
            self.owner(Line::nth(k))
        } else {
            self.first_winner_from(k + 1)
        }
    }

    /// The owner of the first owned line, in the order of [`Line::nth`].
    pub open spec fn first_winner(self) -> Option<Player> {
        self.first_winner_from(0)
    }

    /// Whether every cell of column `col` holds a piece.
    pub open spec fn column_full(self, col: int) -> bool {
        forall|row: int| 0 <= row < ROWS ==> (#[trigger] self.at(col, row)) is Some
    }

    /// The lowest empty row of column `col` at or above `row`; `ROWS` if
    /// there is none.
    pub open spec fn landing_row_from(self, col: int, row: int) -> int
        decreases ROWS - row,
    {
        if row < 0 || row >= ROWS {
            ROWS as int
        } else if self.at(col, row) is None {
            row
        } else {
            self.landing_row_from(col, row + 1)
        }
    }

    /// The row in which a piece dropped into column `col` comes to rest: the
    /// lowest empty one; `ROWS` if the column is full.
    pub open spec fn landing_row(self, col: int) -> int {
        self.landing_row_from(col, 0)
    }

    /// Number of pieces among the first `n` cells.
    pub open spec fn occupied_below(self, n: int) -> nat
        decreases n,
    {
        if n <= 0 {
            0
        } else {
            self.occupied_below(n - 1) + if self.cells[n - 1] is Some {
                1nat
            } else {
                0nat
            }
        }
    }

    /// Number of pieces on the grid.
    pub open spec fn occupied(self) -> nat {
        self.occupied_below(self.cells.len() as int)
    }

    /// No piece hangs in the air: below every piece lies another piece or the
    /// bottom of the grid.
    pub open spec fn stacked(self) -> bool {
        forall|col: int, row: int|
            0 <= col < COLS && 0 <= row < ROWS - 1 && (#[trigger] self.at(col, row)) is None
                ==> self.at(col, row + 1) is None
    }

    /// Whether `p` holds four cells in a row somewhere on the grid.
    pub open spec fn won_by(self, p: Player) -> bool {
        exists|line: Line| line.straight() && line.on_grid() && self.owner(line) == Some(p)
    }

    /// The state of a match played on this grid: won by the owner of the first
    /// owned line; else tied if the grid is full; else in progress.
    pub open spec fn state(self) -> MatchState {
        match self.first_winner() {
            Some(p) => MatchState::Over(MatchResult::Winner(p)),
            None => if self.full() {
                MatchState::Over(MatchResult::Tie)
            } else {
                MatchState::InProgress
            },
        }
    }
}

/// Number of lines of four cells on the grid.
pub const LINES: usize = 69;

/// Four cells in a row: the first one and the step to the next.
pub struct Line {
    pub col: int,
    pub row: int,
    pub dc: int,
    pub dr: int,
}

impl Line {
    /// The lines in the order in which a match is searched for a winner: the
    /// vertical ones column by column, the horizontal ones row by row, the
    /// rising diagonals, then the falling ones, each column by column.
    pub open spec fn nth(k: int) -> Line {
        if k < 21 {
            Line { col: k / 3, row: k % 3, dc: 0, dr: 1 }
        } else if k < 45 {
            Line { col: (k - 21) % 4, row: (k - 21) / 4, dc: 1, dr: 0 }
        } else if k < 57 {
            Line { col: (k - 45) / 3, row: (k - 45) % 3, dc: 1, dr: 1 }
        } else {
            Line { col: (k - 57) / 3, row: 3 + (k - 57) % 3, dc: 1, dr: -1 }
        }
    }

    /// The line runs in one of the four directions of the game: up a column,
    /// along a row, or along a rising or a falling diagonal.
    pub open spec fn straight(self) -> bool {
        ||| self.dc == 0 && self.dr == 1
        ||| self.dc == 1 && self.dr == 0
        ||| self.dc == 1 && self.dr == 1
        ||| self.dc == 1 && self.dr == -1
    }

    /// All four cells of the line lie on the grid.
    pub open spec fn on_grid(self) -> bool {
        &&& 0 <= self.col < COLS
        &&& 0 <= self.row < ROWS
        &&& 0 <= self.col + 3 * self.dc < COLS
        &&& 0 <= self.row + 3 * self.dr < ROWS
    }
}

/// The model of a match: the grid and the player to move.
pub struct MatchView {
    pub board: Board,
    pub next_player: Player,
}

impl MatchView {
    /// A match before the first move.
    pub open spec fn fresh() -> MatchView {
        MatchView { board: Board::empty(), next_player: Player::Blue }
    }

    /// Whether column `col` is offered to the player to move: it is on the
    /// grid and its top cell is empty.
    pub open spec fn valid_action(self, col: int) -> bool {
        0 <= col < COLS && self.board.at(col, ROWS - 1) is None
    }

    /// Whether some column is offered to the player to move.
    pub open spec fn has_valid_action(self) -> bool {
        exists|col: int| self.valid_action(col)
    }

    /// Whether a piece dropped into column `col` finds an empty cell.
    pub open spec fn accepts(self, col: int) -> bool {
        0 <= col < COLS && !self.board.column_full(col)
    }

    /// The match after the player to move has dropped a piece into `col`.
    pub open spec fn dropped(self, col: int) -> MatchView {
        MatchView {
            board: self.board.with(col, self.board.landing_row(col), Some(self.next_player)),
            next_player: self.next_player.opponent(),
        }
    }

    /// The match after the player to move has asked for column `column`: a
    /// piece is dropped where the column takes one, and nothing changes where
    /// it does not.
    pub open spec fn after(self, column: usize) -> MatchView {
        if self.accepts(column as int) {
            self.dropped(column as int)
        } else {
            self
        }
    }

    /// What the player to move is told on asking for column `column`: the
    /// state of the match after the drop, or why the column was refused.
    pub open spec fn outcome(self, column: usize) -> Result<MatchState, ActionError> {
        if column >= COLS {
            Err(ActionError::UnknownColumn(column))
        } else if self.board.column_full(column as int) {
            Err(ActionError::FullColumn(column))
        } else {
            Ok(self.dropped(column as int).state())
        }
    }

    /// The state of the match; the player to move has no part in it.
    pub open spec fn state(self) -> MatchState {
        self.board.state()
    }
}

/// Where a dropped piece lands: `landing_row` is at most `ROWS`, the cell
/// there is empty, every cell below it is taken, and it is `ROWS` exactly for
/// a full column.
pub proof fn lemma_landing_row(board: Board, col: int)
    ensures
        0 <= board.landing_row(col) <= ROWS,
        board.landing_row(col) < ROWS ==> board.at(col, board.landing_row(col)) is None,
        forall|row: int| 0 <= row < board.landing_row(col) ==> (#[trigger] board.at(col, row)) is Some,
        board.landing_row(col) == ROWS <==> board.column_full(col),
{
    lemma_landing_row_from(board, col, 0);
}

proof fn lemma_landing_row_from(board: Board, col: int, from: int)
    requires
        0 <= from <= ROWS,
    ensures
        from <= board.landing_row_from(col, from) <= ROWS,
        board.landing_row_from(col, from) < ROWS ==> board.at(
            col,
            board.landing_row_from(col, from),
        ) is None,
        forall|row: int|
            from <= row < board.landing_row_from(col, from) ==> (#[trigger] board.at(col, row)) is Some,
    decreases ROWS - from,
{
    if from < ROWS && board.at(col, from) is Some {
        lemma_landing_row_from(board, col, from + 1);
    }
}

/// Every numbered line is a line of the game: it runs in one of the four
/// directions and lies on the grid.
pub proof fn lemma_nth_line(k: int)
    requires
        0 <= k < LINES,
    ensures
        Line::nth(k).straight(),
        Line::nth(k).on_grid(),
{
}

/// Every line of the game has a number.
pub proof fn lemma_line_number(line: Line)
    requires
        line.straight(),
        line.on_grid(),
    ensures
        exists|k: int| 0 <= k < LINES && Line::nth(k) == line,
{
    let k = if line.dc == 0 {
        3 * line.col + line.row
    } else if line.dr == 0 {
        21 + 4 * line.row + line.col
    } else if line.dr == 1 {
        45 + 3 * line.col + line.row
    } else {
        57 + 3 * line.col + (line.row - 3)
    };
    assert(0 <= k < LINES && Line::nth(k) == line);
}

/// The search for a winner finds the owner of the owned line with the lowest
/// number, and finds nobody exactly if no line is owned.
pub proof fn lemma_first_winner(board: Board)
    ensures
        board.first_winner() matches Some(p) ==> exists|k: int|
            {
                &&& 0 <= k < LINES
                &&& board.owner(Line::nth(k)) == Some(p)
                &&& forall|j: int| 0 <= j < k ==> board.owner(#[trigger] Line::nth(j)) is None
            },
        board.first_winner() is None <==> forall|k: int|
            0 <= k < LINES ==> board.owner(#[trigger] Line::nth(k)) is None,
{
    lemma_first_winner_from(board, 0);
}

proof fn lemma_first_winner_from(board: Board, from: int)
    requires
        0 <= from <= LINES,
    ensures
        board.first_winner_from(from) matches Some(p) ==> exists|k: int|
            {
                &&& from <= k < LINES
                &&& board.owner(Line::nth(k)) == Some(p)
                &&& forall|j: int| from <= j < k ==> board.owner(#[trigger] Line::nth(j)) is None
            },
        board.first_winner_from(from) is None <==> forall|k: int|
            from <= k < LINES ==> board.owner(#[trigger] Line::nth(k)) is None,
    decreases LINES - from,
{
    if from < LINES {
        if board.owner(Line::nth(from)) is Some {
            let p = board.owner(Line::nth(from))->0;
            assert(from <= from < LINES && board.owner(Line::nth(from)) == Some(p));
        } else {
            lemma_first_winner_from(board, from + 1);
            if board.first_winner_from(from) is Some {
                let p = board.first_winner_from(from)->0;
                let k = choose|k: int|
                    {
                        &&& from + 1 <= k < LINES
                        &&& board.owner(Line::nth(k)) == Some(p)
                        &&& forall|j: int| from + 1 <= j < k ==> board.owner(#[trigger] Line::nth(j)) is None
                    };
                assert(forall|j: int| from <= j < k ==> board.owner(#[trigger] Line::nth(j)) is None);
            }
        }
    }
}

/// What the state of a match says of the grid: a winner holds four cells in
/// a row; a player who alone holds four in a row is the winner; and with no
/// four in a row the match is tied on a full grid and in progress otherwise.
pub proof fn lemma_state_meaning(board: Board, p: Player)
    ensures
        board.state() == MatchState::Over(MatchResult::Winner(p)) ==> board.won_by(p),
        board.won_by(p) && !board.won_by(p.opponent()) ==> board.state() == MatchState::Over(
            MatchResult::Winner(p),
        ),
        board.won_by(p) || board.won_by(p.opponent()) <==> board.state() matches MatchState::Over(
            MatchResult::Winner(_),
        ),
        !board.won_by(p) && !board.won_by(p.opponent()) ==> board.state() == (if board.full() {
            MatchState::Over(MatchResult::Tie)
        } else {
            MatchState::InProgress
        }),
{
    lemma_first_winner(board);
    if board.first_winner() is Some {
        let q = board.first_winner()->0;
        let k = choose|k: int| 0 <= k < LINES && board.owner(Line::nth(k)) == Some(q);
        lemma_nth_line(k);
        assert(board.won_by(q));
        assert(q == p || q == p.opponent());
    }
    if board.won_by(p) {
        let line = choose|line: Line| line.straight() && line.on_grid() && board.owner(line) == Some(p);
        lemma_line_number(line);
    }
    if board.won_by(p.opponent()) {
        let line = choose|line: Line|
            line.straight() && line.on_grid() && board.owner(line) == Some(p.opponent());
        lemma_line_number(line);
    }
}

/// The empty grid is well formed, holds no piece, has nothing hanging in the
/// air, and a match on it is in progress.
pub proof fn lemma_empty_board()
    ensures
        Board::empty().wf(),
        Board::empty().occupied() == 0,
        Board::empty().stacked(),
        Board::empty().state() == MatchState::InProgress,
        forall|col: int| 0 <= col < COLS ==> MatchView::fresh().valid_action(col),
{
    let board = Board::empty();
    lemma_empty_occupied_below((ROWS * COLS) as int);
    assert forall|k: int| 0 <= k < LINES implies board.owner(#[trigger] Line::nth(k)) is None by {
        lemma_nth_line(k);
    }
    lemma_first_winner(board);
    assert(board.at(0, ROWS - 1) is None);
}

proof fn lemma_empty_occupied_below(n: int)
    requires
        0 <= n <= ROWS * COLS,
    ensures
        Board::empty().occupied_below(n) == 0,
    decreases n,
{
    if n > 0 {
        lemma_empty_occupied_below(n - 1);
    }
}

/// A drop that the match accepts changes one cell: the landing cell, empty
/// before, now holds a piece of the player who moved. Every other cell is as
/// it was, so no piece ever leaves the grid.
pub proof fn lemma_dropped_cells(mat: MatchView, col: int)
    requires
        mat.board.wf(),
        mat.accepts(col),
    ensures
        mat.dropped(col).board.wf(),
        0 <= mat.board.landing_row(col) < ROWS,
        mat.board.at(col, mat.board.landing_row(col)) is None,
        mat.dropped(col).board.at(col, mat.board.landing_row(col)) == Some(mat.next_player),
        forall|c: int, r: int|
            0 <= c < COLS && 0 <= r < ROWS && !(c == col && r == mat.board.landing_row(col))
                ==> #[trigger] mat.dropped(col).board.at(c, r) == mat.board.at(c, r),
        mat.dropped(col).board.occupied() == mat.board.occupied() + 1,
        mat.dropped(col).next_player == mat.next_player.opponent(),
{
    lemma_landing_row(mat.board, col);
    lemma_occupied_with(mat.board, col, mat.board.landing_row(col), mat.next_player);
}

/// A drop gives a line to nobody but the player who moved: whoever holds
/// four in a row after it and did not before is that player.
pub proof fn lemma_only_mover_wins(mat: MatchView, col: int, p: Player)
    requires
        mat.board.wf(),
        mat.accepts(col),
        mat.dropped(col).board.won_by(p),
        !mat.board.won_by(p),
    ensures
        p == mat.next_player,
{
    lemma_dropped_cells(mat, col);
    let after = mat.dropped(col).board;
    let line = choose|line: Line| line.straight() && line.on_grid() && after.owner(line) == Some(p);
    if p != mat.next_player {
        // None of the four cells is the landing cell, so the line was held before.
        assert(mat.board.owner(line) == Some(p));
    }
}

/// Pieces stay stacked: a drop into a grid on which nothing hangs in the air
/// leaves nothing hanging in the air.
pub proof fn lemma_dropped_stays_stacked(mat: MatchView, col: int)
    requires
        mat.board.wf(),
        mat.board.stacked(),
        mat.accepts(col),
    ensures
        mat.dropped(col).board.stacked(),
{
    lemma_dropped_cells(mat, col);
    let after = mat.dropped(col).board;
    let landing = mat.board.landing_row(col);
    assert forall|c: int, r: int|
        0 <= c < COLS && 0 <= r < ROWS - 1 && (#[trigger] after.at(c, r)) is None implies after.at(
        c,
        r + 1,
    ) is None by {
        assert(mat.board.at(c, r) is None);
        assert(mat.board.at(c, r + 1) is None);
        if c == col && r + 1 == landing {
            lemma_landing_row(mat.board, col);
        }
    }
}

/// On a grid on which nothing hangs in the air, the columns offered to the
/// player to move are exactly those that take a piece.
pub proof fn lemma_stacked_valid_iff_accepted(mat: MatchView, col: int)
    requires
        mat.board.stacked(),
    ensures
        mat.valid_action(col) <==> mat.accepts(col),
{
    if mat.accepts(col) {
        let row = choose|row: int| 0 <= row < ROWS && !((#[trigger] mat.board.at(col, row)) is Some);
        lemma_stacked_empty_above(mat.board, col, row, ROWS - 1);
    }
    if mat.valid_action(col) {
        lemma_valid_is_accepted(mat, col);
    }
}

proof fn lemma_stacked_empty_above(board: Board, col: int, row: int, above: int)
    requires
        board.stacked(),
        0 <= col < COLS,
        0 <= row <= above < ROWS,
        board.at(col, row) is None,
    ensures
        board.at(col, above) is None,
    decreases above - row,
{
    if row < above {
        lemma_stacked_empty_above(board, col, row + 1, above);
    }
}

/// A match in progress offers a column to the player to move.
pub proof fn lemma_in_progress_has_valid_action(mat: MatchView)
    requires
        mat.state() is InProgress,
    ensures
        mat.has_valid_action(),
{
    let col = choose|col: int| 0 <= col < COLS && !((#[trigger] mat.board.at(col, ROWS - 1)) is Some);
    assert(mat.valid_action(col));
}

/// A column that is offered to the player to move takes a piece.
pub proof fn lemma_valid_is_accepted(mat: MatchView, col: int)
    requires
        mat.valid_action(col),
    ensures
        mat.accepts(col),
{
    assert(mat.board.at(col, ROWS - 1) is None);
}

/// A grid holds no more pieces than it has cells.
pub proof fn lemma_occupied_bound(board: Board)
    ensures
        board.occupied() <= board.cells.len(),
{
    lemma_occupied_below_bound(board, board.cells.len() as int);
}

proof fn lemma_occupied_below_bound(board: Board, n: int)
    requires
        0 <= n,
    ensures
        board.occupied_below(n) <= n,
    decreases n,
{
    if n > 0 {
        lemma_occupied_below_bound(board, n - 1);
    }
}

/// Filling an empty cell adds one piece to the grid.
pub proof fn lemma_occupied_with(board: Board, col: int, row: int, p: Player)
    requires
        0 <= col * ROWS + row < board.cells.len(),
        board.at(col, row) is None,
    ensures
        board.with(col, row, Some(p)).occupied() == board.occupied() + 1,
{
    lemma_occupied_below_with(board, col, row, p, board.cells.len() as int);
}

proof fn lemma_occupied_below_with(board: Board, col: int, row: int, p: Player, n: int)
    requires
        0 <= col * ROWS + row < board.cells.len(),
        board.at(col, row) is None,
        0 <= n <= board.cells.len(),
    ensures
        board.with(col, row, Some(p)).occupied_below(n) == board.occupied_below(n) + if n > col
            * ROWS + row {
            1nat
        } else {
            0nat
        },
    decreases n,
{
    if n > 0 {
        lemma_occupied_below_with(board, col, row, p, n - 1);
    }
}

} // verus!

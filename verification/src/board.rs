//! The board: two nine-bit occupancy sets and the player who moves next.

use crate::chance::choose_one;
use vstd::prelude::*;

verus! {

/// One of the two players.
#[derive(Clone, Copy, PartialEq, Eq, Structural, Debug)]
pub enum PlayerToken {
    X,
    O,
}

impl PlayerToken {
    /// Gives the opponent for a given player token
    pub fn opponent(&self) -> (other: PlayerToken)
        ensures
            other == self.other(),
    {
        match self {
            PlayerToken::X => PlayerToken::O,
            PlayerToken::O => PlayerToken::X,
        }
    }

    /// Gives string value of a given token.
    pub fn value(&self) -> (name: &'static str)
        ensures
            name@ == self.name(),
    {
        match self {
            PlayerToken::X => "X",
            PlayerToken::O => "O",
        }
    }

    /// The letter that stands for the player.
    pub open spec fn name(self) -> Seq<char> {
        match self {
            PlayerToken::X => "X"@,
            PlayerToken::O => "O"@,
        }
    }

    /// The other player.
    pub open spec fn other(self) -> PlayerToken {
        match self {
            PlayerToken::X => PlayerToken::O,
            PlayerToken::O => PlayerToken::X,
        }
    }
}

/// Whether bit `pos` of `value` is set.
pub open spec fn bit_at(value: u16, pos: int) -> bool {
    (value >> (pos as u16)) & 1 == 1
}

/// Whether the cells `a`, `b` and `c` are all set in `value`.
pub open spec fn holds_three(value: u16, a: int, b: int, c: int) -> bool {
    bit_at(value, a) && bit_at(value, b) && bit_at(value, c)
}

/// Whether `value` holds a full row, column or diagonal.
pub open spec fn holds_line(value: u16) -> bool {
    ||| holds_three(value, 0, 1, 2)
    ||| holds_three(value, 3, 4, 5)
    ||| holds_three(value, 6, 7, 8)
    ||| holds_three(value, 0, 3, 6)
    ||| holds_three(value, 1, 4, 7)
    ||| holds_three(value, 2, 5, 8)
    ||| holds_three(value, 0, 4, 8)
    ||| holds_three(value, 2, 4, 6)
}

/// Checks if the given representation is winning
pub fn check_if_win(winner_value: u16) -> (won: bool)
    ensures
        won == holds_line(winner_value),
{
    let three_in_a_row: u16 = 0b111;
    let row_condition = (winner_value & three_in_a_row == three_in_a_row) || ((winner_value >> 3)
        & three_in_a_row == three_in_a_row) || ((winner_value >> 6) & three_in_a_row
        == three_in_a_row);
    let column_condition = (winner_value & (winner_value >> 3) & (winner_value >> 6)
        & three_in_a_row) > 0;
    let left_diagonal_condition = ((winner_value & (winner_value >> 4) & (winner_value >> 8)) & 1)
        > 0;
    let right_diagonal_condition = (((winner_value >> 2) & (winner_value >> 4) & (winner_value
        >> 6)) & 1) > 0;
    proof {
        lemma_line_masks(winner_value);
    }
    row_condition || column_condition || left_diagonal_condition || right_diagonal_condition
}

/// The mask tests of `check_if_win`, read cell by cell.
proof fn lemma_line_masks(w: u16)
    by (bit_vector)
    ensures
        (w & 0b111 == 0b111) == ((w >> 0u16) & 1 == 1 && (w >> 1u16) & 1 == 1 && (w >> 2u16) & 1
            == 1),
        ((w >> 3) & 0b111 == 0b111) == ((w >> 3u16) & 1 == 1 && (w >> 4u16) & 1 == 1 && (w
            >> 5u16) & 1 == 1),
        ((w >> 6) & 0b111 == 0b111) == ((w >> 6u16) & 1 == 1 && (w >> 7u16) & 1 == 1 && (w
            >> 8u16) & 1 == 1),
        ((w & (w >> 3) & (w >> 6) & 0b111) > 0) == (((w >> 0u16) & 1 == 1 && (w >> 3u16) & 1 == 1
            && (w >> 6u16) & 1 == 1) || ((w >> 1u16) & 1 == 1 && (w >> 4u16) & 1 == 1 && (w
            >> 7u16) & 1 == 1) || ((w >> 2u16) & 1 == 1 && (w >> 5u16) & 1 == 1 && (w >> 8u16) & 1
            == 1)),
        (((w & (w >> 4) & (w >> 8)) & 1) > 0) == ((w >> 0u16) & 1 == 1 && (w >> 4u16) & 1 == 1
            && (w >> 8u16) & 1 == 1),
        ((((w >> 2) & (w >> 4) & (w >> 6)) & 1) > 0) == ((w >> 2u16) & 1 == 1 && (w >> 4u16) & 1
            == 1 && (w >> 6u16) & 1 == 1),
{
}

/// The row-major index of the cell at `(row, column)`.
pub open spec fn cell_index(action: (u8, u8)) -> int {
    3 * action.0 + action.1
}

/// Whether `(row, column)` names a cell of the grid.
pub open spec fn in_grid(action: (u8, u8)) -> bool {
    action.0 < 3 && action.1 < 3
}

/// The `(row, column)` of the cell with row-major index `pos`.
pub open spec fn cell_coord(pos: int) -> (u8, u8) {
    ((pos / 3) as u8, (pos % 3) as u8)
}

/// A position of the game: who holds each of the nine cells, in row-major
/// order, and who moves next.
pub struct BoardView {
    pub cells: Seq<Option<PlayerToken>>,
    pub mover: PlayerToken,
}

impl BoardView {
    /// A position has nine cells.
    pub open spec fn wf(self) -> bool {
        self.cells.len() == 9
    }

    /// The cell with index `pos` is empty.
    pub open spec fn blank(self, pos: int) -> bool {
        self.cells[pos] is None
    }

    /// `action` names an empty cell of the grid.
    pub open spec fn legal(self, action: (u8, u8)) -> bool {
        in_grid(action) && self.blank(cell_index(action))
    }

    /// `player` holds the cells `a`, `b` and `c`.
    pub open spec fn owns_three(self, player: PlayerToken, a: int, b: int, c: int) -> bool {
        self.cells[a] == Some(player) && self.cells[b] == Some(player) && self.cells[c] == Some(
            player,
        )
    }

    /// `player` holds a full row, column or diagonal.
    pub open spec fn has_line(self, player: PlayerToken) -> bool {
        ||| self.owns_three(player, 0, 1, 2)
        ||| self.owns_three(player, 3, 4, 5)
        ||| self.owns_three(player, 6, 7, 8)
        ||| self.owns_three(player, 0, 3, 6)
        ||| self.owns_three(player, 1, 4, 7)
        ||| self.owns_three(player, 2, 5, 8)
        ||| self.owns_three(player, 0, 4, 8)
        ||| self.owns_three(player, 2, 4, 6)
    }

    /// No cell is empty.
    pub open spec fn full(self) -> bool {
        forall|pos: int| 0 <= pos < 9 ==> !self.blank(pos)
    }

    /// The player who holds a line. The player who moved last is asked first,
    /// so that a position in which both hold one goes to that player.
    pub open spec fn winner(self) -> Option<PlayerToken> {
        if self.has_line(self.mover.other()) {
            Some(self.mover.other())
        } else if self.has_line(self.mover) {
            Some(self.mover)
        } else {
            None
        }
    }

    /// The game has ended: a player holds a line, or no cell is empty.
    pub open spec fn game_over(self) -> bool {
        self.winner() is Some || self.full()
    }

    /// The value of the position to X: 1 where X has won, -1 where O has
    /// won, 0 otherwise.
    pub open spec fn reward(self) -> int {
        match self.winner() {
            Some(PlayerToken::X) => 1,
            Some(PlayerToken::O) => -1,
            None => 0,
        }
    }

    /// The empty cells among the first `n`, in row-major order.
    pub open spec fn blank_below(self, n: nat) -> Seq<(u8, u8)>
        decreases n,
    {
        if n == 0 {
            Seq::empty()
        } else {
            let rest = self.blank_below((n - 1) as nat);
            if self.blank(n - 1) {
                rest.push(cell_coord(n - 1))
            } else {
                rest
            }
        }
    }

    /// The legal moves: the empty cells, in row-major order.
    pub open spec fn legal_moves(self) -> Seq<(u8, u8)> {
        self.blank_below(9)
    }

    /// The number of cells among the first `n` that a player holds.
    pub open spec fn taken_below(self, n: nat) -> nat
        decreases n,
    {
        if n == 0 {
            0
        } else if self.blank(n - 1) {
            self.taken_below((n - 1) as nat)
        } else {
            self.taken_below((n - 1) as nat) + 1
        }
    }

    /// The number of cells that a player holds.
    pub open spec fn taken(self) -> nat {
        self.taken_below(9)
    }

    /// `player` would hold a line with the cell at `action` added.
    pub open spec fn completes_line(self, player: PlayerToken, action: (u8, u8)) -> bool {
        (BoardView { cells: self.cells.update(cell_index(action), Some(player)), mover: self.mover })
            .has_line(player)
    }

    /// `action` is the first legal move, in row-major order, with which
    /// `player` would hold a line.
    pub open spec fn first_completing(self, player: PlayerToken, action: (u8, u8)) -> bool {
        &&& self.legal(action)
        &&& self.completes_line(player, action)
        &&& forall|earlier: (u8, u8)|
            self.legal(earlier) && cell_index(earlier) < cell_index(action)
                ==> !self.completes_line(player, earlier)
    }

    /// Some legal move gives `player` a line.
    pub open spec fn can_complete(self, player: PlayerToken) -> bool {
        exists|action: (u8, u8)| self.legal(action) && self.completes_line(player, action)
    }

    /// One row of the drawn board, between bars.
    pub open spec fn row_text(self, row: int) -> Seq<char> {
        "|"@ + mark_text(self.cells[3 * row]) + "|"@ + mark_text(self.cells[3 * row + 1]) + "|"@
            + mark_text(self.cells[3 * row + 2]) + "|"@
    }

    /// The line that says how the game stands.
    pub open spec fn status_text(self) -> Seq<char> {
        match self.winner() {
            Some(player) => player.name() + " has won"@,
            None => if self.full() {
                "Game has ended in a draw"@
            } else {
                self.mover.name() + " to play"@
            },
        }
    }

    /// The lines that show the position: the drawn board, where it is asked
    /// for, and the line that says how the game stands.
    pub open spec fn stage_text(self, human_output: bool) -> Seq<Seq<char>> {
        if human_output {
            seq![
                " _ _ _ "@,
                self.row_text(0),
                self.row_text(1),
                self.row_text(2),
                " \u{203e} \u{203e} \u{203e} "@,
                self.status_text(),
            ]
        } else {
            seq![self.status_text()]
        }
    }

    /// Whether the game has ended, and whether it ended in a draw.
    pub open spec fn stage_end(self) -> (bool, bool) {
        if self.winner() is Some {
            (true, false)
        } else if self.full() {
            (true, true)
        } else {
            (false, false)
        }
    }

    /// Playing `moves` in turn from this position, each of them legal and
    /// made while the game has not ended, leads to `end`.
    pub open spec fn plays_to(self, moves: Seq<(u8, u8)>, end: BoardView) -> bool
        decreases moves.len(),
    {
        if moves.len() == 0 {
            self == end
        } else {
            !self.game_over() && self.legal(moves[0]) && self.play(moves[0]).plays_to(
                moves.drop_first(),
                end,
            )
        }
    }

    /// The position after the mover takes the cell at `action`.
    pub open spec fn play(self, action: (u8, u8)) -> BoardView {
        BoardView {
            cells: self.cells.update(cell_index(action), Some(self.mover)),
            mover: self.mover.other(),
        }
    }
}

/// An action is among the empty cells below `n` exactly if it names an
/// empty cell with an index below `n`.
pub proof fn lemma_blank_below_contains(view: BoardView, n: nat, action: (u8, u8))
    requires
        n <= 9,
    ensures
        view.blank_below(n).contains(action) <==> view.legal(action) && cell_index(action) < n,
    decreases n,
{
    if n > 0 {
        let rest = view.blank_below((n - 1) as nat);
        lemma_blank_below_contains(view, (n - 1) as nat, action);
        assert(cell_index(cell_coord(n - 1)) == n - 1);
        assert(in_grid(action) && cell_index(action) == n - 1 ==> cell_coord(n - 1) == action);
        if view.blank(n - 1) {
            let grown = rest.push(cell_coord(n - 1));
            assert(grown[rest.len() as int] == cell_coord(n - 1));
            assert forall|k: int| 0 <= k < rest.len() implies grown[k] == rest[k] by {}
            if rest.contains(action) {
                let k = choose|k: int| 0 <= k < rest.len() && rest[k] == action;
                assert(grown[k] == action);
            }
        }
    }
}

/// The empty cells below `n` are in grid, come in strictly rising order of
/// their index, and together with the cells taken below `n` they are `n`.
pub proof fn lemma_blank_below_order(view: BoardView, n: nat)
    requires
        n <= 9,
    ensures
        view.blank_below(n).len() + view.taken_below(n) == n,
        forall|k: int|
            0 <= k < view.blank_below(n).len() ==> in_grid(#[trigger] view.blank_below(n)[k])
                && cell_index(view.blank_below(n)[k]) < n && view.blank(
                cell_index(view.blank_below(n)[k]),
            ),
        forall|j: int, k: int|
            0 <= j < k < view.blank_below(n).len() ==> cell_index(
                #[trigger] view.blank_below(n)[j],
            ) < cell_index(#[trigger] view.blank_below(n)[k]),
    decreases n,
{
    if n > 0 {
        lemma_blank_below_order(view, (n - 1) as nat);
        assert(cell_index(cell_coord(n - 1)) == n - 1);
        assert(in_grid(cell_coord(n - 1)));
    }
}

/// Below `n`, as many cells are taken as there are cells exactly if none
/// of them is empty.
pub proof fn lemma_taken_below(view: BoardView, n: nat)
    ensures
        view.taken_below(n) <= n,
        view.taken_below(n) == n <==> (forall|pos: int| 0 <= pos < n ==> !view.blank(pos)),
    decreases n,
{
    if n > 0 {
        lemma_taken_below(view, (n - 1) as nat);
        if view.taken_below(n) == n {
            assert forall|pos: int| 0 <= pos < n implies !view.blank(pos) by {
                if pos < n - 1 {
                    assert(!view.blank(pos));
                }
            }
        }
    }
}

/// A position is full exactly if all nine cells are taken, and exactly if
/// it has no legal move.
pub proof fn lemma_full(view: BoardView)
    ensures
        view.full() <==> view.taken() == 9,
        view.full() <==> view.legal_moves().len() == 0,
        view.taken() <= 9,
{
    lemma_taken_below(view, 9);
    lemma_blank_below_order(view, 9);
}

/// A move into one of the first `n` cells adds one to the cells taken
/// among them, and a move into a later cell adds none.
pub proof fn lemma_play_taken_below(view: BoardView, action: (u8, u8), n: nat)
    requires
        view.wf(),
        view.legal(action),
        n <= 9,
    ensures
        view.play(action).taken_below(n) == view.taken_below(n) + (if cell_index(action) < n {
            1nat
        } else {
            0nat
        }),
    decreases n,
{
    if n > 0 {
        lemma_play_taken_below(view, action, (n - 1) as nat);
    }
}

/// A legal move takes one more cell and hands the turn over.
pub proof fn lemma_play(view: BoardView, action: (u8, u8))
    requires
        view.wf(),
        view.legal(action),
    ensures
        view.play(action).wf(),
        view.play(action).taken() == view.taken() + 1,
        view.play(action).mover == view.mover.other(),
{
    lemma_play_taken_below(view, action, 9);
}

/// A line of play goes on by one more legal move from where it led.
pub proof fn lemma_plays_on(start: BoardView, moves: Seq<(u8, u8)>, end: BoardView, action: (u8, u8))
    requires
        start.plays_to(moves, end),
        !end.game_over(),
        end.legal(action),
    ensures
        start.plays_to(moves.push(action), end.play(action)),
    decreases moves.len(),
{
    let longer = moves.push(action);
    if moves.len() == 0 {
        assert(longer.drop_first() =~= Seq::empty());
        assert(end.play(action).plays_to(Seq::empty(), end.play(action)));
    } else {
        lemma_plays_on(start.play(moves[0]), moves.drop_first(), end, action);
        assert(longer.drop_first() =~= moves.drop_first().push(action));
    }
}

/// The legal moves of a position are exactly its empty cells, each once
/// and in row-major order, and their number is nine less the cells taken.
pub proof fn law_legal_moves_are_the_empty_cells(view: BoardView)
    ensures
        forall|action: (u8, u8)| view.legal_moves().contains(action) <==> view.legal(action),
        view.legal_moves().len() == 9 - view.taken(),
        forall|j: int, k: int|
            0 <= j < k < view.legal_moves().len() ==> cell_index(#[trigger] view.legal_moves()[j])
                < cell_index(#[trigger] view.legal_moves()[k]),
{
    lemma_blank_below_order(view, 9);
    assert forall|action: (u8, u8)| view.legal_moves().contains(action) <==> view.legal(
        action,
    ) by {
        lemma_blank_below_contains(view, 9, action);
    }
}

/// A move changes the cell that it names, which goes to the mover, and the
/// turn, which goes to the other player, and nothing else.
pub proof fn law_move_changes_one_cell(view: BoardView, action: (u8, u8))
    requires
        view.wf(),
        view.legal(action),
    ensures
        view.play(action).cells.len() == 9,
        view.play(action).cells[cell_index(action)] == Some(view.mover),
        forall|pos: int|
            0 <= pos < 9 && pos != cell_index(action) ==> view.play(action).cells[pos]
                == view.cells[pos],
        view.play(action).mover == view.mover.other(),
        view.play(action).mover != view.mover,
{
}

/// A position in which only X holds a line is worth 1, one in which only O
/// holds a line is worth -1, and one in which nobody holds a line is worth 0.
pub proof fn law_reward_follows_the_line(view: BoardView)
    ensures
        view.has_line(PlayerToken::X) && !view.has_line(PlayerToken::O) ==> view.reward() == 1,
        view.has_line(PlayerToken::O) && !view.has_line(PlayerToken::X) ==> view.reward() == -1,
        !view.has_line(PlayerToken::X) && !view.has_line(PlayerToken::O) ==> view.reward() == 0,
        -1 <= view.reward() <= 1,
{
}

/// From a position in which the game has ended no move is played: a line
/// of play from it ends where it began.
pub proof fn law_ended_game_stays(start: BoardView, moves: Seq<(u8, u8)>, end: BoardView)
    requires
        start.game_over(),
        start.plays_to(moves, end),
    ensures
        moves.len() == 0,
        end == start,
{
}

/// The number of bits of `value` that are set among the first `n`.
pub open spec fn bits_set(value: u16, n: nat) -> nat
    decreases n,
{
    if n == 0 {
        0
    } else if bit_at(value, n - 1) {
        bits_set(value, (n - 1) as nat) + 1
    } else {
        bits_set(value, (n - 1) as nat)
    }
}

/// How a cell is drawn.
pub open spec fn mark_text(cell: Option<PlayerToken>) -> Seq<char> {
    match cell {
        Some(player) => player.name(),
        None => " "@,
    }
}

/// What the two occupancy sets say of the cell with index `pos`.
pub open spec fn cell_of(x_value: u16, o_value: u16, pos: int) -> Option<PlayerToken> {
    if bit_at(x_value, pos) {
        Some(PlayerToken::X)
    } else if bit_at(o_value, pos) {
        Some(PlayerToken::O)
    } else {
        None
    }
}

/// A tic-tac-toe position: bit `3 * row + column` of `x_value` is set where X
/// holds the cell, of `o_value` where O does.
#[derive(Clone, Copy, Debug)]
pub struct TicTacToeBoard {
    x_value: u16,
    o_value: u16,
    x_is_player: PlayerToken,
}

impl View for TicTacToeBoard {
    type V = BoardView;

    closed spec fn view(&self) -> BoardView {
        BoardView {
            cells: Seq::new(9, |pos: int| cell_of(self.x_value, self.o_value, pos)),
            mover: self.x_is_player,
        }
    }
}

impl TicTacToeBoard {
    /// No cell is held by both players, and no bit beyond the ninth is set.
    #[verifier::type_invariant]
    pub closed spec fn wf(self) -> bool {
        self.x_value & self.o_value == 0 && self.x_value < 512 && self.o_value < 512
    }

    /// The occupancy set of X.
    pub closed spec fn x_bits(self) -> u16 {
        self.x_value
    }

    /// The occupancy set of O.
    pub closed spec fn o_bits(self) -> u16 {
        self.o_value
    }

    /// Creates  a new tic tac toe board
    pub fn new() -> (board: TicTacToeBoard)
        ensures
            board.wf(),
            board@.wf(),
            board@.mover == PlayerToken::X,
            forall|pos: int| 0 <= pos < 9 ==> board@.blank(pos),
    {
        proof {
            lemma_no_bits();
        }
        TicTacToeBoard { x_value: 0, o_value: 0, x_is_player: PlayerToken::X }
    }

    /// The occupancy set of X.
    pub fn x_value(&self) -> (value: u16)
        ensures
            value == self.x_bits(),
    {
        self.x_value
    }

    /// The occupancy set of O.
    pub fn o_value(&self) -> (value: u16)
        ensures
            value == self.o_bits(),
    {
        self.o_value
    }

    pub fn x_plays(&self) -> (x_next: bool)
        ensures
            x_next == (self@.mover == PlayerToken::X),
    {
        matches!(self.x_is_player, PlayerToken::X)
    }

    /// Generates the list of possible moves
    pub fn possible_moves(&self) -> (points: Vec<(u8, u8)>)
        ensures
            points@ == self@.legal_moves(),
    {
        let combined_fill = self.x_value | self.o_value;
        let mut points: Vec<(u8, u8)> = Vec::new();
        let mut i: u8 = 0;
        while i < 3
            invariant
                i <= 3,
                combined_fill == self.x_value | self.o_value,
                points@ == self@.blank_below((3 * i) as nat),
            decreases 3 - i,
        {
            let mut j: u8 = 0;
            while j < 3
                invariant
                    i < 3,
                    j <= 3,
                    combined_fill == self.x_value | self.o_value,
                    points@ == self@.blank_below((3 * i + j) as nat),
                decreases 3 - j,
            {
                let position: u16 = 3 * (i as u16) + (j as u16);
                proof {
                    lemma_union_bit(self.x_value, self.o_value, position);
                    assert(cell_coord(position as int) == (i, j));
                }
                if (combined_fill >> position) & 1 == 0 {
                    points.push((i, j))
                }
                j += 1;
            }
            i += 1;
        }
        points
    }

    /// Gives a new board when given an action.
    /// Can err when user gives wrong move
    pub fn get_move(&self, action: (u8, u8)) -> (result: Result<TicTacToeBoard, String>)
        ensures
            match result {
                Ok(board) => self@.legal(action) && board@ == self@.play(action) && board.wf(),
                Err(message) => if in_grid(action) {
                    !self@.blank(cell_index(action)) && message@ == "Already placed, try again"@
                } else {
                    message@ == "Wrong coordinates"@
                },
            },
    {
        if !((action.0 < 3) && (action.1 < 3)) {
            return Err("Wrong coordinates".to_owned());
        }
        let action_point: u16 = 3 * (action.0 as u16) + (action.1 as u16);
        proof {
            use_type_invariant(self);
            lemma_shift_fits(action_point);
        }
        let shift: u16 = 1u16 << action_point;
        if !(((self.x_value >> action_point) & 1 == 0) && ((self.o_value >> action_point) & 1
            == 0)) {
            proof {
                lemma_low_bit(self.x_value, action_point);
                lemma_low_bit(self.o_value, action_point);
            }
            return Err("Already placed, try again".to_owned());
        }
        proof {
            lemma_low_bit(self.x_value, action_point);
            lemma_low_bit(self.o_value, action_point);
            lemma_set_bit(self.x_value, self.o_value, action_point);
            lemma_set_bit(self.o_value, self.x_value, action_point);
        }
        let result_board = match self.x_is_player {
            PlayerToken::X => TicTacToeBoard {
                x_value: self.x_value + shift,
                o_value: self.o_value,
                x_is_player: self.x_is_player.opponent(),
            },
            PlayerToken::O => TicTacToeBoard {
                x_value: self.x_value,
                o_value: self.o_value + shift,
                x_is_player: self.x_is_player.opponent(),
            },
        };
        proof {
            assert(result_board@.cells =~= self@.play(action).cells);
        }
        Ok(result_board)
    }

    /// The board after the mover takes the empty cell at `action`.
    pub fn apply_move(&self, action: (u8, u8)) -> (board: TicTacToeBoard)
        requires
            self@.legal(action),
        ensures
            board@ == self@.play(action),
            board.wf(),
    {
        match self.get_move(action) {
            Ok(board) => board,
            Err(_) => {
                assert(false);
                *self
            },
        }
    }

    /// The player who holds a line, the one who moved last being asked first.
    pub fn winner(&self) -> (held: Option<PlayerToken>)
        ensures
            held == self@.winner(),
    {
        proof {
            use_type_invariant(self);
            lemma_disjoint_bits(self.x_value, self.o_value);
        }
        let last_player = self.x_is_player.opponent();
        let (last_value, next_value) = match last_player {
            PlayerToken::X => (self.x_value, self.o_value),
            PlayerToken::O => (self.o_value, self.x_value),
        };
        if check_if_win(last_value) {
            Some(last_player)
        } else if check_if_win(next_value) {
            Some(self.x_is_player)
        } else {
            None
        }
    }

    /// Check if board has been won
    pub fn check_won_board(&self) -> (won: bool)
        ensures
            won == (self@.winner() is Some),
    {
        self.winner().is_some()
    }

    /// Check if board has been tied
    pub fn check_tie_board(&self) -> (tied: bool)
        ensures
            tied == self@.full(),
    {
        proof {
            use_type_invariant(self);
            lemma_all_bits(self.x_value, self.o_value);
            if self@.full() {
                assert(!self@.blank(0) && !self@.blank(1) && !self@.blank(2) && !self@.blank(3)
                    && !self@.blank(4) && !self@.blank(5) && !self@.blank(6) && !self@.blank(7)
                    && !self@.blank(8));
            }
        }
        (self.x_value | self.o_value) == 0b1_1111_1111
    }

    /// Check if board game is over
    pub fn game_over(&self) -> (over: bool)
        ensures
            over == self@.game_over(),
    {
        self.check_won_board() || self.check_tie_board()
    }

    /// Gives a reward assuming player is X
    pub fn reward(&self) -> (value: i32)
        ensures
            value == self@.reward(),
    {
        match self.winner() {
            Some(PlayerToken::X) => 1,
            Some(PlayerToken::O) => -1,
            None => 0,
        }
    }

    /// How the cell with index `position` is drawn.
    fn marker(&self, position: u16) -> (text: &'static str)
        requires
            position < 9,
        ensures
            text@ == mark_text(self@.cells[position as int]),
    {
        if (self.x_value >> position) & 1 == 1 {
            "X"
        } else if (self.o_value >> position) & 1 == 1 {
            "O"
        } else {
            " "
        }
    }

    /// Shows the game stage and whether it has ended
    pub fn show_game_stage_and_end(&self, human_output: bool) -> (shown: (Vec<String>, (bool, bool)))
        ensures
            shown.0@.len() == self@.stage_text(human_output).len(),
            forall|k: int|
                0 <= k < shown.0@.len() ==> (#[trigger] shown.0@[k])@ == self@.stage_text(
                    human_output,
                )[k],
            shown.1 == self@.stage_end(),
    {
        let mut output_vec: Vec<String> = Vec::new();
        if human_output {
            output_vec.push(String::from_str(" _ _ _ "));
            let mut i: u16 = 0;
            while i < 3
                invariant
                    i <= 3,
                    output_vec@.len() == 1 + i,
                    output_vec@[0]@ == " _ _ _ "@,
                    forall|k: int|
                        1 <= k <= i ==> (#[trigger] output_vec@[k])@ == self@.row_text(k - 1),
                decreases 3 - i,
            {
                let mut line = String::from_str("|");
                line.append(self.marker(3 * i));
                line.append("|");
                line.append(self.marker(3 * i + 1));
                line.append("|");
                line.append(self.marker(3 * i + 2));
                line.append("|");
                output_vec.push(line);
                i += 1;
            }
            output_vec.push(String::from_str(" \u{203e} \u{203e} \u{203e} "));
        }
        let ghost drawn = output_vec@;
        let status = match self.winner() {
            Some(player) => {
                let mut line = String::from_str(player.value());
                line.append(" has won");
                output_vec.push(line);
                (true, false)
            },
            None => if self.check_tie_board() {
                output_vec.push(String::from_str("Game has ended in a draw"));
                (true, true)
            } else {
                let mut line = String::from_str(self.x_is_player.value());
                line.append(" to play");
                output_vec.push(line);
                (false, false)
            },
        };
        proof {
            assert(output_vec@ == drawn.push(output_vec@[drawn.len() as int]));
            assert(output_vec@[drawn.len() as int]@ == self@.status_text());
            if human_output {
                assert(drawn[1]@ == self@.row_text(0));
                assert(drawn[2]@ == self@.row_text(1));
                assert(drawn[3]@ == self@.row_text(2));
            }
        }
        (output_vec, status)
    }

    /// A uniformly drawn legal move.
    pub fn get_random_move(&self) -> (action: (u8, u8))
        requires
            !self@.full(),
        ensures
            self@.legal(action),
    {
        let moves = self.possible_moves();
        proof {
            if moves@.len() == 0 {
                let pos = choose|pos: int| 0 <= pos < 9 && self@.blank(pos);
                lemma_blank_below_contains(self@, 9, cell_coord(pos));
            }
        }
        match choose_one(&moves) {
            Some(action) => {
                proof {
                    lemma_blank_below_contains(self@, 9, action);
                }
                action
            },
            None => {
                assert(false);
                (0, 0)
            },
        }
    }

    /// Whether `player` would hold a line with the empty cell at `action`
    /// added to the cells that `player` holds.
    pub fn would_win(&self, player: PlayerToken, action: (u8, u8)) -> (won: bool)
        requires
            self@.legal(action),
        ensures
            won == self@.completes_line(player, action),
    {
        let (value, other) = match player {
            PlayerToken::X => (self.x_value, self.o_value),
            PlayerToken::O => (self.o_value, self.x_value),
        };
        let action_point: u16 = 3 * (action.0 as u16) + (action.1 as u16);
        proof {
            use_type_invariant(self);
            lemma_shift_fits(action_point);
            lemma_low_bit(self.x_value, action_point);
            lemma_low_bit(self.o_value, action_point);
            lemma_set_bit(value, other, action_point);
            lemma_disjoint_bits(self.x_value, self.o_value);
        }
        let new_value: u16 = value + (1u16 << action_point);
        proof {
            let after = BoardView {
                cells: self@.cells.update(cell_index(action), Some(player)),
                mover: self@.mover,
            };
            assert forall|pos: int| 0 <= pos < 9 implies (after.cells[pos] == Some(player))
                == bit_at(new_value, pos) by {
                assert(pos as u16 == pos);
            }
        }
        check_if_win(new_value)
    }

    /// Gets the winning move if it exists otherwise shows a random move
    pub fn show_winning_move(&self) -> (action: (u8, u8))
        requires
            !self@.full(),
        ensures
            self@.legal(action),
            self@.can_complete(self@.mover) ==> self@.first_completing(self@.mover, action),
    {
        let moves = self.possible_moves();
        proof {
            lemma_blank_below_order(self@, 9);
        }
        let mut at: usize = 0;
        while at < moves.len()
            invariant
                at <= moves.len(),
                moves@ == self@.legal_moves(),
                forall|k: int|
                    0 <= k < at ==> !self@.completes_line(self@.mover, #[trigger] moves@[k]),
            decreases moves.len() - at,
        {
            let action = moves[at];
            proof {
                lemma_blank_below_order(self@, 9);
            }
            if self.would_win(self.x_is_player, action) {
                proof {
                    assert forall|earlier: (u8, u8)|
                        self@.legal(earlier) && cell_index(earlier) < cell_index(
                            action,
                        ) implies !self@.completes_line(self@.mover, earlier) by {
                        lemma_blank_below_contains(self@, 9, earlier);
                        let k = choose|k: int| 0 <= k < moves@.len() && moves@[k] == earlier;
                        assert(k < at);
                    }
                }
                return action;
            }
            at += 1;
        }
        proof {
            assert forall|any: (u8, u8)| self@.legal(any) implies !self@.completes_line(
                self@.mover,
                any,
            ) by {
                lemma_blank_below_contains(self@, 9, any);
            }
        }
        self.get_random_move()
    }

    /// Get the non losing move if it exists(winning move first, otherwise block opponent winning move),
    ///  otherwise gives a random move
    pub fn show_non_losing_move(&self) -> (action: (u8, u8))
        requires
            !self@.full(),
        ensures
            self@.legal(action),
            self@.can_complete(self@.mover) ==> self@.first_completing(self@.mover, action),
            !self@.can_complete(self@.mover) && self@.can_complete(self@.mover.other())
                ==> self@.first_completing(self@.mover.other(), action),
    {
        let moves = self.possible_moves();
        let rival = self.x_is_player.opponent();
        proof {
            lemma_blank_below_order(self@, 9);
        }
        let mut non_losing_move: Option<(u8, u8)> = None;
        let mut at: usize = 0;
        while at < moves.len()
            invariant
                at <= moves.len(),
                moves@ == self@.legal_moves(),
                rival == self@.mover.other(),
                forall|k: int|
                    0 <= k < at ==> !self@.completes_line(self@.mover, #[trigger] moves@[k]),
                match non_losing_move {
                    Some(found) => self@.first_completing(rival, found),
                    None => forall|k: int|
                        0 <= k < at ==> !self@.completes_line(rival, #[trigger] moves@[k]),
                },
            decreases moves.len() - at,
        {
            let action = moves[at];
            proof {
                lemma_blank_below_order(self@, 9);
            }
            if self.would_win(self.x_is_player, action) {
                proof {
                    assert forall|earlier: (u8, u8)|
                        self@.legal(earlier) && cell_index(earlier) < cell_index(
                            action,
                        ) implies !self@.completes_line(self@.mover, earlier) by {
                        lemma_blank_below_contains(self@, 9, earlier);
                        let k = choose|k: int| 0 <= k < moves@.len() && moves@[k] == earlier;
                        assert(k < at);
                    }
                }
                return action;
            }
            if non_losing_move.is_none() {
                if self.would_win(rival, action) {
                    proof {
                        assert forall|earlier: (u8, u8)|
                            self@.legal(earlier) && cell_index(earlier) < cell_index(
                                action,
                            ) implies !self@.completes_line(rival, earlier) by {
                            lemma_blank_below_contains(self@, 9, earlier);
                            let k = choose|k: int| 0 <= k < moves@.len() && moves@[k] == earlier;
                            assert(k < at);
                        }
                    }
                    non_losing_move = Some(action)
                }
            }
            at += 1;
        }
        proof {
            assert forall|any: (u8, u8)| self@.legal(any) implies !self@.completes_line(
                self@.mover,
                any,
            ) by {
                lemma_blank_below_contains(self@, 9, any);
            }
            if non_losing_move is None {
                assert forall|any: (u8, u8)| self@.legal(any) implies !self@.completes_line(
                    rival,
                    any,
                ) by {
                    lemma_blank_below_contains(self@, 9, any);
                }
            }
        }
        if let Some(good_move) = non_losing_move {
            return good_move;
        }
        self.get_random_move()
    }

    /// A board's view has nine cells, each as the occupancy sets say.
    pub proof fn lemma_view(self)
        ensures
            self@.wf(),
            forall|pos: int|
                0 <= pos < 9 ==> #[trigger] self@.cells[pos] == cell_of(
                    self.x_bits(),
                    self.o_bits(),
                    pos,
                ),
    {
    }

    /// The cells taken in a board's view are as many as the bits set in its
    /// two occupancy sets, so that the legal moves are nine less those bits.
    pub proof fn law_taken_counts_bits(self)
        requires
            self.wf(),
        ensures
            self@.taken() == bits_set(self.x_bits(), 9) + bits_set(self.o_bits(), 9),
            self@.legal_moves().len() == 9 - (bits_set(self.x_bits(), 9) + bits_set(
                self.o_bits(),
                9,
            )),
    {
        lemma_disjoint_bits(self.x_value, self.o_value);
        self.lemma_taken_bits_below(9);
        lemma_blank_below_order(self@, 9);
    }

    proof fn lemma_taken_bits_below(self, n: nat)
        requires
            n <= 9,
            forall|pos: u16|
                pos < 16 ==> !((self.x_value >> pos) & 1 == 1 && (self.o_value >> pos) & 1 == 1),
        ensures
            self@.taken_below(n) == bits_set(self.x_value, n) + bits_set(self.o_value, n),
        decreases n,
    {
        if n > 0 {
            self.lemma_taken_bits_below((n - 1) as nat);
            assert((n - 1) as u16 == n - 1);
        }
    }
}

/// What a character of a drawn board says of its cell.
pub open spec fn mark_of(c: char) -> Option<PlayerToken> {
    if c == 'X' {
        Some(PlayerToken::X)
    } else if c == 'O' {
        Some(PlayerToken::O)
    } else {
        None
    }
}

/// Creates a board using a 3 x 3 array of lines
pub fn obtain_board(lines: [&str; 3], x_to_play: bool) -> (board: TicTacToeBoard)
    requires
        lines[0]@.len() + lines[1]@.len() + lines[2]@.len() >= 9,
    ensures
        board.wf(),
        board@.wf(),
        board@.mover == (if x_to_play {
            PlayerToken::X
        } else {
            PlayerToken::O
        }),
        forall|pos: int|
            0 <= pos < 9 ==> board@.cells[pos] == mark_of(
                (lines[0]@ + lines[1]@ + lines[2]@)[pos],
            ),
{
    let joined_lines = String::from_str(lines[0]).concat(lines[1]).concat(lines[2]);
    let text = joined_lines.as_str();
    let mut x_value: u16 = 0;
    let mut o_value: u16 = 0;
    let mut i: u16 = 0;
    proof {
        lemma_no_bits();
        lemma_shift_values();
    }
    while i < 9
        invariant
            i <= 9,
            text@ == lines[0]@ + lines[1]@ + lines[2]@,
            text@.len() >= 9,
            x_value < (1u16 << i),
            o_value < (1u16 << i),
            x_value & o_value == 0,
            forall|pos: int| 0 <= pos < i ==> cell_of(x_value, o_value, pos) == mark_of(text@[pos]),
        decreases 9 - i,
    {
        let c = text.get_char(i as usize);
        proof {
            lemma_bit_bound(x_value, i);
            lemma_bit_bound(o_value, i);
            lemma_set_bit(x_value, o_value, i);
            lemma_set_bit(o_value, x_value, i);
            lemma_disjoint_bits(x_value, o_value);
        }
        let ghost x_before = x_value;
        let ghost o_before = o_value;
        match c {
            'X' => x_value += 1 << i,
            'O' => o_value += 1 << i,
            _ => {},
        }
        proof {
            assert forall|pos: int| 0 <= pos < i + 1 implies cell_of(x_value, o_value, pos)
                == mark_of(text@[pos]) by {
                assert(pos as u16 == pos);
                assert(pos < i ==> cell_of(x_before, o_before, pos) == mark_of(text@[pos]));
            }
        }
        i += 1;
    }
    proof {
        lemma_shift_values();
    }
    TicTacToeBoard {
        x_value,
        o_value,
        x_is_player: if x_to_play {
            PlayerToken::X
        } else {
            PlayerToken::O
        },
    }
}

/// A set below `2^pos` has no bit from `pos` on, and with that bit added it
/// is below `2^(pos + 1)`.
proof fn lemma_bit_bound(value: u16, pos: u16)
    by (bit_vector)
    requires
        pos < 9,
        value < (1u16 << pos),
    ensures
        value < 512,
        (value >> pos) & 1 == 0,
        value < (1u16 << ((pos + 1) as u16)),
        value + (1u16 << pos) < (1u16 << ((pos + 1) as u16)),
        1u16 << pos <= 256,
{
}

proof fn lemma_shift_values()
    by (bit_vector)
    ensures
        1u16 << 0u16 == 1,
        1u16 << 9u16 == 512,
{
}

proof fn lemma_shift_fits(pos: u16)
    by (bit_vector)
    requires
        pos < 9,
    ensures
        1u16 << pos <= 256,
{
}

/// A cell's bit is 0 or 1.
proof fn lemma_low_bit(value: u16, pos: u16)
    by (bit_vector)
    ensures
        (value >> pos) & 1 == 0 || (value >> pos) & 1 == 1,
{
}

/// A cell is free in the union of two sets where it is free in both.
proof fn lemma_union_bit(x: u16, o: u16, pos: u16)
    by (bit_vector)
    ensures
        ((x | o) >> pos) & 1 == 0 <==> (x >> pos) & 1 != 1 && (o >> pos) & 1 != 1,
{
}

/// Two sets without a common bit hold no cell in common.
proof fn lemma_disjoint_bits(x: u16, o: u16)
    by (bit_vector)
    requires
        x & o == 0,
    ensures
        forall|pos: u16| pos < 16 ==> !((x >> pos) & 1 == 1 && (o >> pos) & 1 == 1),
{
}

/// The union of two nine-bit sets is all ones where every cell is taken.
proof fn lemma_all_bits(x: u16, o: u16)
    by (bit_vector)
    requires
        x < 512,
        o < 512,
    ensures
        ((x | o) == 511) <==> (((x | o) >> 0u16) & 1 == 1 && ((x | o) >> 1u16) & 1 == 1 && ((x
            | o) >> 2u16) & 1 == 1 && ((x | o) >> 3u16) & 1 == 1 && ((x | o) >> 4u16) & 1 == 1
            && ((x | o) >> 5u16) & 1 == 1 && ((x | o) >> 6u16) & 1 == 1 && ((x | o) >> 7u16) & 1
            == 1 && ((x | o) >> 8u16) & 1 == 1),
        forall|pos: u16|
            pos < 16 ==> (((x | o) >> pos) & 1 == 1 <==> (x >> pos) & 1 == 1 || (o >> pos) & 1
                == 1),
{
}

/// Adding the bit of a free cell to `value` sets that cell and no other,
/// and keeps `value` apart from `other`, in which the cell is free too.
proof fn lemma_set_bit(value: u16, other: u16, pos: u16)
    by (bit_vector)
    requires
        pos < 9,
        value < 512,
        value & other == 0 || other & value == 0,
        (value >> pos) & 1 == 0,
        (other >> pos) & 1 == 0,
    ensures
        value + (1u16 << pos) < 512,
        (value + (1u16 << pos)) as u16 & other == 0,
        other & (value + (1u16 << pos)) as u16 == 0,
        forall|at: u16|
            at < 16 ==> (((value + (1u16 << pos)) as u16 >> at) & 1 == 1 <==> at == pos || (value
                >> at) & 1 == 1),
{
}

proof fn lemma_no_bits()
    by (bit_vector)
    ensures
        0u16 & 0u16 == 0,
        forall|pos: u16| pos < 16 ==> (0u16 >> pos) & 1 != 1,
{
}

} // verus!

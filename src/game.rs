use vstd::prelude::*;

use crate::board::{Board, Position, Stone};
use crate::error::GoError;
use crate::model::{
    cell, in_bounds, opponent, place_outcome, placed_board, well_formed, BoardModel,
};

verus! {

/// What a session is, as a value: its board, the player to move, the stones
/// captured by Black and by White, the move counter and the pass streak.
pub struct GameModel {
    pub board: BoardModel,
    pub player: Stone,
    pub captured: (nat, nat),
    pub move_number: nat,
    pub passes: nat,
}

/// The colour with strictly more captures wins; a tie goes to White.
pub open spec fn tally_winner(black: nat, white: nat) -> Stone {
    if black > white {
        Stone::Black
    } else {
        Stone::White
    }
}

/// The winner once two consecutive passes have ended the session.
pub open spec fn result_of(g: GameModel) -> Option<Stone> {
    if g.passes == 2 {
        Some(tally_winner(g.captured.0, g.captured.1))
    } else {
        None
    }
}

/// The session after a pass: the streak grows (it stops at two) and the
/// other player is to move.
pub open spec fn after_pass(g: GameModel) -> GameModel {
    GameModel {
        player: opponent(g.player),
        passes: if g.passes + 1 >= 2 {
            2
        } else {
            g.passes + 1
        },
        ..g
    }
}

/// The session after the player to move placed a stone at `pos` and captured
/// `k` stones. The pass streak restarts only after a move by White.
pub open spec fn after_move(g: GameModel, pos: Position, k: nat) -> GameModel {
    GameModel {
        board: placed_board(g.board, pos, g.player),
        player: opponent(g.player),
        captured: match g.player {
            Stone::Black => (g.captured.0 + k, g.captured.1),
            Stone::White => (g.captured.0, g.captured.1 + k),
        },
        move_number: g.move_number + 1,
        passes: if g.player == Stone::White {
            0
        } else {
            g.passes
        },
    }
}

/// The counters of the session can take one more move: the move counter and
/// either tally can grow by a full board.
pub open spec fn move_fits(g: GameModel) -> bool {
    &&& g.move_number < usize::MAX
    &&& g.captured.0 + g.board.size * g.board.size <= usize::MAX
    &&& g.captured.1 + g.board.size * g.board.size <= usize::MAX
}

/// A fresh session on an empty board of side `size`.
pub open spec fn fresh_game(g: GameModel, size: nat) -> bool {
    &&& g.board.size == size
    &&& forall|i: int| 0 <= i < g.board.cells.len() ==> g.board.cells[i] is None
    &&& g.board.prev_hash is None
    &&& g.player == Stone::Black
    &&& g.captured == (0nat, 0nat)
    &&& g.move_number == 1
    &&& g.passes == 0
}

/// Two passes in a row end the session, whatever came before, and the winner
/// is decided by the capture tallies alone, a tie going to White.
pub proof fn lemma_two_passes_end_game(g: GameModel)
    requires
        g.passes <= 2,
    ensures
        result_of(after_pass(after_pass(g))) == Some(
            tally_winner(g.captured.0, g.captured.1),
        ),
        after_pass(after_pass(g)).captured == g.captured,
{
}

/// A Go session: one board, whose turn it is, capture tallies, a move counter
/// and the streak of consecutive passes.
pub struct Game {
    board: Board,
    current_player: Stone,
    captured_stones: (usize, usize),
    current_move: usize,
    passes_count: u8,
}

impl View for Game {
    type V = GameModel;

    closed spec fn view(&self) -> GameModel {
        GameModel {
            board: self.board@,
            player: self.current_player,
            captured: (self.captured_stones.0 as nat, self.captured_stones.1 as nat),
            move_number: self.current_move as nat,
            passes: self.passes_count as nat,
        }
    }
}

impl Game {
    pub open spec fn wf(&self) -> bool {
        &&& well_formed(self@.board)
        &&& self@.passes <= 2
        &&& self@.move_number >= 1
    }

    pub fn new(board_size: usize) -> (r: Self)
        requires
            1 <= board_size,
            2 * (board_size * board_size) <= usize::MAX,
        ensures
            r.wf(),
            fresh_game(r@, board_size as nat),
    {
        Game {
            board: Board::new(board_size),
            current_player: Stone::Black,
            captured_stones: (0, 0),
            current_move: 1,
            passes_count: 0,
        }
    }

    /// Starts over on a fresh board of the same size.
    pub fn reset(&mut self)
        requires
            old(self).wf(),
        ensures
            final(self).wf(),
            fresh_game(final(self)@, old(self)@.board.size),
    {
        self.board = Board::new(self.board_size());
        self.current_player = Stone::Black;
        self.captured_stones = (0, 0);
        self.current_move = 1;
        self.passes_count = 0;
    }

    #[inline]
    fn switch_player(&mut self)
        ensures
            final(self)@ == (GameModel { player: opponent(old(self)@.player), ..old(self)@ }),
    {
        self.current_player = self.current_player.opposite();
    }

    /// The player to move declines to place a stone.
    pub fn pass(&mut self)
        requires
            old(self).wf(),
        ensures
            final(self).wf(),
            final(self)@ == after_pass(old(self)@),
    {
        if self.passes_count < 2 {
            self.passes_count = self.passes_count + 1;
        }
        self.switch_player();
    }

    /// The winner once two consecutive passes have ended the session.
    pub fn is_game_over(&self) -> (r: Option<Stone>)
        ensures
            r == result_of(self@),
    {
        match self.passes_count {
            2 => Some(self.determine_winner()),
            _ => None,
        }
    }

    fn determine_winner(&self) -> (r: Stone)
        ensures
            r == tally_winner(self@.captured.0, self@.captured.1),
    {
        if self.captured_stones.0 > self.captured_stones.1 {
            Stone::Black
        } else {
            Stone::White
        }
    }

    /// The player to move places a stone at `pos`. Refused once the session is
    /// over, and with the board's own error when the placement is illegal; a
    /// refused move changes nothing.
    pub fn make_move(&mut self, pos: Position) -> (r: Result<(), GoError>)
        requires
            old(self).wf(),
            move_fits(old(self)@),
        ensures
            final(self).wf(),
            old(self)@.passes == 2 ==> r == Err::<(), GoError>(GoError::GameOver),
            old(self)@.passes != 2 ==> match place_outcome(old(self)@.board, pos, old(self)@.player) {
                Ok(k) => r is Ok && final(self)@ == after_move(old(self)@, pos, k),
                Err(e) => r == Err::<(), GoError>(e),
            },
            r is Err ==> final(self)@ == old(self)@,
    {
        if self.passes_count == 2 {
            return Err(GoError::game_over());
        }
        let captured_count = match self.board.place_stone(pos, self.current_player) {
            Ok(k) => k,
            Err(e) => {
                return Err(e);
            },
        };
        match self.current_player {
            Stone::Black => self.captured_stones.0 = self.captured_stones.0 + captured_count,
            Stone::White => self.captured_stones.1 = self.captured_stones.1 + captured_count,
        }
        self.current_move = self.current_move + 1;
        if self.current_player == Stone::White {
            self.passes_count = 0;
        }
        self.switch_player();
        Ok(())
    }

    pub fn board_size(&self) -> (r: usize)
        ensures
            r == self@.board.size,
    {
        self.board.size()
    }

    pub fn current_player(&self) -> (r: Stone)
        ensures
            r == self@.player,
    {
        self.current_player
    }

    /// The stones captured by Black and by White.
    pub fn captured_stones(&self) -> (r: (usize, usize))
        ensures
            r.0 == self@.captured.0,
            r.1 == self@.captured.1,
    {
        self.captured_stones
    }

    pub fn current_move(&self) -> (r: usize)
        ensures
            r == self@.move_number,
    {
        self.current_move
    }

    pub fn winner(&self) -> (r: Option<Stone>)
        ensures
            r == result_of(self@),
    {
        self.is_game_over()
    }

    pub fn board_state(&self) -> (r: &Board)
        ensures
            r@ == self@.board,
    {
        &self.board
    }

    /// The occupant of `pos`, or `OutOfBounds` off the grid.
    pub fn stone_at(&self, pos: Position) -> (r: Result<Option<Stone>, GoError>)
        requires
            self.wf(),
        ensures
            !in_bounds(self@.board.size, pos) ==> r == Err::<Option<Stone>, GoError>(
                GoError::OutOfBounds { pos },
            ),
            in_bounds(self@.board.size, pos) ==> r == Ok::<Option<Stone>, GoError>(
                cell(self@.board.size, self@.board.cells, pos),
            ),
    {
        self.board.get_stone(pos)
    }
}

} // verus!

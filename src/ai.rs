//! Move selection: the interface that move pickers implement, a picker that
//! chooses uniformly among the legal moves, and the board tests that a
//! scoring picker builds on.

use vstd::prelude::*;

use crate::board::{Board, Position, Stone};
use crate::model::{
    cell, count_holding, group_liberties, in_bounds, lemma_group_liberties,
    lemma_neighbors_in_bounds, neighbors, opponent, place_outcome, placed_board,
};

verus! {

/// A move picker: given a board to read and the colour to move, a position
/// to play, or nothing to pass.
pub trait GoAI {
    fn select_move(&self, board: &Board, player: Stone) -> (r: Option<Position>)
        requires
            board.wf(),
    ;
}

/// Passes now and then, and otherwise plays a legal move chosen uniformly.
pub struct RandomAI {}

impl Default for RandomAI {
    fn default() -> (r: Self)
        ensures
            r == (RandomAI {  }),
    {
        RandomAI {  }
    }
}

/// Relies on rand::random_range: a value drawn uniformly from `0..bound`
/// (it panics on an empty range).
#[verifier::external_body]
fn random_below(bound: usize) -> (r: usize)
    requires
        0 < bound,
    ensures
        r < bound,
{
    rand::random_range(0..bound)
}

/// Out of a roll in `0..101`, the rolls on which the random picker passes.
pub const PASS_ROLLS: usize = 10;

/// `a` comes before `b` when scanning the grid column by column.
pub open spec fn scans_before(a: Position, b: Position) -> bool {
    a.x < b.x || (a.x == b.x && a.y < b.y)
}

/// Every legal placement of `player`, in column-by-column order.
pub fn legal_moves(board: &Board, player: Stone) -> (r: Vec<Position>)
    requires
        board.wf(),
    ensures
        forall|q: Position| #[trigger]
            r@.contains(q) <==> (in_bounds(board@.size, q) && place_outcome(board@, q, player) is Ok),
        forall|i: int, j: int| 0 <= i < j < r@.len() ==> scans_before(r@[i], r@[j]),
{
    let n = board.size();
    let mut moves: Vec<Position> = Vec::new();
    let mut x: usize = 0;
    while x < n
        invariant
            board.wf(),
            n == board@.size,
            x <= n,
            forall|q: Position| #[trigger]
                moves@.contains(q) <==> (in_bounds(n as nat, q) && q.x < x && place_outcome(
                    board@,
                    q,
                    player,
                ) is Ok),
            forall|i: int, j: int| 0 <= i < j < moves@.len() ==> scans_before(moves@[i], moves@[j]),
            forall|i: int| 0 <= i < moves@.len() ==> (#[trigger] moves@[i]).x < x,
        decreases n - x,
    {
        let mut y: usize = 0;
        while y < n
            invariant
                board.wf(),
                n == board@.size,
                x < n,
                y <= n,
                forall|q: Position| #[trigger]
                    moves@.contains(q) <==> (in_bounds(n as nat, q) && (q.x < x || (q.x == x && q.y
                        < y)) && place_outcome(board@, q, player) is Ok),
                forall|i: int, j: int|
                    0 <= i < j < moves@.len() ==> scans_before(moves@[i], moves@[j]),
                forall|i: int|
                    0 <= i < moves@.len() ==> scans_before(
                        #[trigger] moves@[i],
                        Position { x, y },
                    ),
            decreases n - y,
        {
            let pos = Position { x, y };
            let ghost before = moves@;
            if board.is_valid_move(pos, player) {
                moves.push(pos);
                proof {
                    assert forall|q: Position| #[trigger] moves@.contains(q) <==> (before.contains(q)
                        || q == pos) by {
                        if q == pos {
                            assert(moves@[moves@.len() - 1] == q);
                        }
                        if moves@.contains(q) && q != pos {
                            let w = choose|w: int| 0 <= w < moves@.len() && moves@[w] == q;
                            assert(before[w] == q);
                        }
                        if before.contains(q) {
                            let w = choose|w: int| 0 <= w < before.len() && before[w] == q;
                            assert(moves@[w] == q);
                        }
                    }
                }
            }
            y = y + 1;
        }
        x = x + 1;
    }
    moves
}

/// The random picker's decision once its numbers are drawn: pass on a roll
/// below `PASS_ROLLS` or when nothing is legal, else play the move at `pick`.
pub fn pick_move(moves: &Vec<Position>, roll: usize, pick: usize) -> (r: Option<Position>)
    requires
        moves@.len() > 0 ==> pick < moves@.len(),
    ensures
        roll < PASS_ROLLS || moves@.len() == 0 ==> r is None,
        !(roll < PASS_ROLLS || moves@.len() == 0) ==> r == Some(moves@[pick as int]),
{
    if roll < PASS_ROLLS || moves.len() == 0 {
        None
    } else {
        Some(moves[pick])
    }
}

impl GoAI for RandomAI {
    /// Passes or plays a legal move.
    fn select_move(&self, board: &Board, player: Stone) -> (r: Option<Position>)
        ensures
            r matches Some(p) ==> in_bounds(board@.size, p) && place_outcome(board@, p, player) is Ok,
    {
        let roll = random_below(101);
        if roll < PASS_ROLLS {
            return None;
        }
        let moves = legal_moves(board, player);
        if moves.len() == 0 {
            return None;
        }
        let pick = random_below(moves.len());
        proof {
            assert(moves@.contains(moves@[pick as int]));
        }
        pick_move(&moves, roll, pick)
    }
}

/// The eye shape that a scoring picker rewards: at least three neighbours of
/// the player's colour, or two of them with four empty neighbours.
pub open spec fn eye_shape(friendly: nat, empty: nat) -> bool {
    friendly >= 3 || (friendly >= 2 && empty == 4)
}

/// Whether `pos` has the eye shape for `player` among its neighbours.
pub fn is_potential_eye(board: &Board, pos: Position, player: Stone) -> (r: bool)
    requires
        board.wf(),
    ensures
        r == eye_shape(
            count_holding(board@.size, board@.cells, neighbors(board@.size, pos), Some(player)),
            count_holding(board@.size, board@.cells, neighbors(board@.size, pos), None),
        ),
{
    let ghost n = board@.size;
    let ghost cells = board@.cells;
    let nbrs = board.get_neighbors(pos);
    proof {
        lemma_neighbors_in_bounds(n, pos);
    }
    let mut friendly_stones: usize = 0;
    let mut empty: usize = 0;
    let mut j: usize = 0;
    while j < nbrs.len()
        invariant
            board.wf(),
            n == board@.size,
            cells == board@.cells,
            nbrs@ == neighbors(n, pos),
            nbrs@.len() <= 4,
            forall|k: int| 0 <= k < nbrs@.len() ==> in_bounds(n, #[trigger] nbrs@[k]),
            j <= nbrs@.len(),
            friendly_stones == count_holding(n, cells, nbrs@.subrange(0, j as int), Some(player)),
            empty == count_holding(n, cells, nbrs@.subrange(0, j as int), None),
            friendly_stones <= j,
            empty <= j,
        decreases nbrs@.len() - j,
    {
        let ghost s1 = nbrs@.subrange(0, j + 1);
        assert(s1.drop_last() =~= nbrs@.subrange(0, j as int));
        match board.get_stone(nbrs[j]) {
            Ok(Some(s)) => {
                if s == player {
                    friendly_stones = friendly_stones + 1;
                }
            },
            Ok(None) => {
                empty = empty + 1;
            },
            Err(_) => {},
        }
        j = j + 1;
    }
    assert(nbrs@.subrange(0, nbrs@.len() as int) =~= nbrs@);
    friendly_stones >= 3 || (friendly_stones >= 2 && empty == 4)
}

/// Whether a stone of `player` at `pos` is refused, or, once placed, leaves
/// a neighbouring opposing group with exactly one liberty.
pub fn would_be_captured_next_move(board: &Board, pos: Position, player: Stone) -> (r: bool)
    requires
        board.wf(),
    ensures
        r == (place_outcome(board@, pos, player) is Err || exists|k: int|
            0 <= k < neighbors(board@.size, pos).len() && cell(
                board@.size,
                placed_board(board@, pos, player).cells,
                #[trigger] neighbors(board@.size, pos)[k],
            ) == Some(opponent(player)) && group_liberties(
                board@.size,
                placed_board(board@, pos, player).cells,
                neighbors(board@.size, pos)[k],
            ).len() == 1),
{
    let mut test_board = board.clone();
    if test_board.place_stone(pos, player).is_err() {
        return true;
    }
    let ghost n = test_board@.size;
    let ghost cells = test_board@.cells;
    let opp = player.opposite();
    let nbrs = test_board.get_neighbors(pos);
    proof {
        lemma_neighbors_in_bounds(n, pos);
    }
    let mut j: usize = 0;
    while j < nbrs.len()
        invariant
            test_board.wf(),
            n == test_board@.size,
            cells == test_board@.cells,
            test_board@ == placed_board(board@, pos, player),
            opp == opponent(player),
            nbrs@ == neighbors(n, pos),
            forall|k: int| 0 <= k < nbrs@.len() ==> in_bounds(n, #[trigger] nbrs@[k]),
            j <= nbrs@.len(),
            forall|k: int|
                0 <= k < j ==> !(cell(n, cells, #[trigger] nbrs@[k]) == Some(opponent(player))
                    && group_liberties(n, cells, nbrs@[k]).len() == 1),
        decreases nbrs@.len() - j,
    {
        let nb = nbrs[j];
        if let Ok(Some(s)) = test_board.get_stone(nb) {
            if s == opp {
                let group = test_board.get_group(nb);
                let libs = test_board.count_liberties(&group);
                proof {
                    lemma_group_liberties(n, cells, nb, group@);
                }
                if libs == 1 {
                    return true;
                }
            }
        }
        j = j + 1;
    }
    false
}

} // verus!

//! The mathematical model of a board: cells, neighbours, chains of stones,
//! liberties, captures, the position hash, and the outcome of a placement.

use vstd::prelude::*;

use crate::board::{Position, Stone};
use crate::error::GoError;

verus! {

/// What a board is, as a value: its side length, the cells in row-major
/// order (`x + y * size`), the random keys (two per cell, Black first), the
/// running position hash and the hash recorded before the last capturing move.
pub struct BoardModel {
    pub size: nat,
    pub cells: Seq<Option<Stone>>,
    pub keys: Seq<u64>,
    pub hash: u64,
    pub prev_hash: Option<u64>,
}

pub open spec fn opponent(s: Stone) -> Stone {
    match s {
        Stone::Black => Stone::White,
        Stone::White => Stone::Black,
    }
}

pub open spec fn in_bounds(n: nat, p: Position) -> bool {
    p.x < n && p.y < n
}

pub open spec fn cell_index(n: nat, p: Position) -> int {
    p.x + p.y * n
}

/// The position whose cell index is `i`.
pub open spec fn position_at(n: nat, i: int) -> Position {
    Position { x: (i % (n as int)) as usize, y: (i / (n as int)) as usize }
}

/// The occupant of `p`; nothing outside the grid.
pub open spec fn cell(n: nat, cells: Seq<Option<Stone>>, p: Position) -> Option<Stone> {
    if in_bounds(n, p) {
        cells[cell_index(n, p)]
    } else {
        None
    }
}

/// The orthogonal neighbours of `p` that lie on the grid, in the order
/// left, right, up, down.
pub open spec fn neighbors(n: nat, p: Position) -> Seq<Position> {
    let left = Position { x: (p.x - 1) as usize, y: p.y };
    let right = Position { x: (p.x + 1) as usize, y: p.y };
    let up = Position { x: p.x, y: (p.y - 1) as usize };
    let down = Position { x: p.x, y: (p.y + 1) as usize };
    let s0: Seq<Position> = if p.x > 0 && p.x - 1 < n && p.y < n {
        seq![left]
    } else {
        Seq::empty()
    };
    let s1 = if p.x + 1 < n && p.y < n {
        s0.push(right)
    } else {
        s0
    };
    let s2 = if p.y > 0 && p.y - 1 < n && p.x < n {
        s1.push(up)
    } else {
        s1
    };
    if p.y + 1 < n && p.x < n {
        s2.push(down)
    } else {
        s2
    }
}

/// A walk from `path[0]` along neighbouring cells that all hold the colour
/// of its first stone.
pub open spec fn is_chain(n: nat, cells: Seq<Option<Stone>>, path: Seq<Position>) -> bool {
    &&& path.len() > 0
    &&& cell(n, cells, path[0]) is Some
    &&& forall|i: int|
        0 <= i < path.len() ==> #[trigger] cell(n, cells, path[i]) == cell(n, cells, path[0])
    &&& forall|i: int|
        0 <= i < path.len() - 1 ==> #[trigger] neighbors(n, path[i]).contains(path[i + 1])
}

/// `q` belongs to the group of the stone at `p`.
pub open spec fn connected(n: nat, cells: Seq<Option<Stone>>, p: Position, q: Position) -> bool {
    exists|path: Seq<Position>|
        #[trigger] is_chain(n, cells, path) && path[0] == p && path.last() == q
}

/// `group` followed by those of `nbrs[0..j]` that hold colour `c` and are not
/// listed yet, in the order of `nbrs`.
pub open spec fn bfs_expand(
    n: nat,
    cells: Seq<Option<Stone>>,
    c: Stone,
    group: Seq<Position>,
    nbrs: Seq<Position>,
    j: nat,
) -> Seq<Position>
    decreases j,
{
    if j == 0 {
        group
    } else {
        let g = bfs_expand(n, cells, c, group, nbrs, (j - 1) as nat);
        let r = nbrs[j - 1];
        if cell(n, cells, r) == Some(c) && !g.contains(r) {
            g.push(r)
        } else {
            g
        }
    }
}

/// The breadth-first walk over stones of colour `c`: from `head` on, each
/// listed position in turn appends its unlisted neighbours of that colour,
/// left, right, up, down; `fuel` bounds the number of steps.
pub open spec fn bfs_from(
    n: nat,
    cells: Seq<Option<Stone>>,
    c: Stone,
    group: Seq<Position>,
    head: nat,
    fuel: nat,
) -> Seq<Position>
    decreases fuel,
{
    if fuel == 0 || head >= group.len() {
        group
    } else {
        bfs_from(
            n,
            cells,
            c,
            bfs_expand(n, cells, c, group, neighbors(n, group[head as int]), neighbors(n, group[head as int]).len()),
            head + 1,
            (fuel - 1) as nat,
        )
    }
}

/// The group of the stone at `p` in the order in which a breadth-first walk
/// from `p` lists it: `p` first. Empty when `p` holds no stone.
pub open spec fn bfs_listing(n: nat, cells: Seq<Option<Stone>>, p: Position) -> Seq<Position> {
    match cell(n, cells, p) {
        Some(c) => bfs_from(n, cells, c, seq![p], 0, n * n),
        None => Seq::empty(),
    }
}

/// The group of the stone at `p` touches at least one empty cell.
pub open spec fn has_liberty(n: nat, cells: Seq<Option<Stone>>, p: Position) -> bool {
    exists|q: Position, r: Position|
        #![trigger connected(n, cells, p, q), neighbors(n, q).contains(r)]
        connected(n, cells, p, q) && neighbors(n, q).contains(r) && cell(n, cells, r) is None
}

/// The distinct empty cells next to some position of `group`.
pub open spec fn liberties(n: nat, cells: Seq<Option<Stone>>, group: Seq<Position>) -> Set<
    Position,
> {
    Set::new(
        |r: Position|
            in_bounds(n, r) && cell(n, cells, r) is None && exists|k: int|
                0 <= k < group.len() && #[trigger] neighbors(n, group[k]).contains(r),
    )
}

/// The stone at `p` is an opponent of `s` whose group has no liberty left.
pub open spec fn dead_opponent(n: nat, cells: Seq<Option<Stone>>, p: Position, s: Stone) -> bool {
    cell(n, cells, p) == Some(opponent(s)) && !has_liberty(n, cells, p)
}

/// The stones that a stone of colour `s` just put at `pos` captures: every
/// opposing group next to `pos` that has no liberty left.
pub open spec fn captured(n: nat, cells: Seq<Option<Stone>>, pos: Position, s: Stone) -> Set<
    Position,
> {
    Set::new(
        |q: Position|
            exists|k: int|
                0 <= k < neighbors(n, pos).len() && dead_opponent(
                    n,
                    cells,
                    #[trigger] neighbors(n, pos)[k],
                    s,
                ) && connected(n, cells, neighbors(n, pos)[k], q),
    )
}

/// The cells with every position of `c` emptied.
pub open spec fn clear(n: nat, cells: Seq<Option<Stone>>, c: Set<Position>) -> Seq<Option<Stone>> {
    Seq::new(
        cells.len(),
        |i: int|
            if c.contains(position_at(n, i)) {
                None
            } else {
                cells[i]
            },
    )
}

/// The cells once `s` stands at `pos`, before anything is captured.
pub open spec fn after_placing(m: BoardModel, pos: Position, s: Stone) -> Seq<Option<Stone>> {
    m.cells.update(cell_index(m.size, pos), Some(s))
}

/// What placing `s` at `pos` captures.
pub open spec fn captures(m: BoardModel, pos: Position, s: Stone) -> Set<Position> {
    captured(m.size, after_placing(m, pos, s), pos, s)
}

/// The cells once the captured stones are gone.
pub open spec fn after_capturing(m: BoardModel, pos: Position, s: Stone) -> Seq<Option<Stone>> {
    clear(m.size, after_placing(m, pos, s), captures(m, pos, s))
}

/// The result of placing `s` at `pos`: the number of stones captured, or
/// the first rule that the placement breaks.
pub open spec fn place_outcome(m: BoardModel, pos: Position, s: Stone) -> Result<nat, GoError> {
    if !in_bounds(m.size, pos) {
        Err(GoError::OutOfBounds { pos })
    } else if cell(m.size, m.cells, pos) is Some {
        Err(GoError::PositionOccupied { pos })
    } else if captures(m, pos, s).len() == 0 && !has_liberty(
        m.size,
        after_placing(m, pos, s),
        pos,
    ) {
        Err(GoError::SuicidalMove)
    } else if captures(m, pos, s).len() == 1 && m.prev_hash == Some(
        hash_of(after_capturing(m, pos, s), m.keys),
    ) {
        Err(GoError::KoRuleViolation)
    } else {
        Ok(captures(m, pos, s).len())
    }
}

/// The board after a legal placement of `s` at `pos`: captured stones gone,
/// the hash following the cells, and the hash from before the move kept when
/// anything was captured.
pub open spec fn placed_board(m: BoardModel, pos: Position, s: Stone) -> BoardModel {
    BoardModel {
        cells: after_capturing(m, pos, s),
        hash: hash_of(after_capturing(m, pos, s), m.keys),
        prev_hash: if captures(m, pos, s).len() > 0 {
            Some(m.hash)
        } else {
            m.prev_hash
        },
        ..m
    }
}

pub proof fn lemma_clear_empty(n: nat, cells: Seq<Option<Stone>>)
    ensures
        clear(n, cells, Set::empty()) == cells,
{
    assert(clear(n, cells, Set::empty()) =~= cells);
}

/// Emptying one more position changes exactly its cell.
pub proof fn lemma_clear_insert(n: nat, cells: Seq<Option<Stone>>, c: Set<Position>, q: Position)
    requires
        0 < n <= usize::MAX,
        cells.len() == n * n,
        in_bounds(n, q),
    ensures
        clear(n, cells, c.insert(q)) == clear(n, cells, c).update(cell_index(n, q), None),
{
    lemma_index_in_range(n, q);
    assert forall|i: int| 0 <= i < cells.len() implies #[trigger] clear(n, cells, c.insert(q))[i]
        == clear(n, cells, c).update(cell_index(n, q), None)[i] by {
        lemma_position_at(n, i);
    }
    assert(clear(n, cells, c.insert(q)) =~= clear(n, cells, c).update(cell_index(n, q), None));
}

/// Every legal placement keeps the board well formed: one occupant per cell
/// and a running hash equal to the hash recomputed from the cells.
pub proof fn lemma_placement_well_formed(m: BoardModel, pos: Position, s: Stone)
    requires
        well_formed(m),
        place_outcome(m, pos, s) is Ok,
    ensures
        well_formed(placed_board(m, pos, s)),
        placed_board(m, pos, s).hash == hash_of(placed_board(m, pos, s).cells, m.keys),
{
    lemma_index_in_range(m.size, pos);
    assert(after_placing(m, pos, s).len() == m.cells.len());
    assert(after_capturing(m, pos, s).len() == m.cells.len());
}

/// Capture is atomic: after a legal placement every stone of each opposing
/// group that it left without a liberty is gone, the placed stone stands, and
/// every other cell is as it was.
pub proof fn lemma_capture_is_atomic(m: BoardModel, pos: Position, s: Stone)
    requires
        well_formed(m),
        place_outcome(m, pos, s) is Ok,
    ensures
        forall|k: int, q: Position|
            0 <= k < neighbors(m.size, pos).len() && dead_opponent(
                m.size,
                after_placing(m, pos, s),
                #[trigger] neighbors(m.size, pos)[k],
                s,
            ) && #[trigger] connected(m.size, after_placing(m, pos, s), neighbors(m.size, pos)[k], q)
                ==> cell(m.size, placed_board(m, pos, s).cells, q) is None,
        cell(m.size, placed_board(m, pos, s).cells, pos) == Some(s),
        forall|q: Position|
            q != pos && !captures(m, pos, s).contains(q) ==> #[trigger] cell(
                m.size,
                placed_board(m, pos, s).cells,
                q,
            ) == cell(m.size, m.cells, q),
{
    let n = m.size;
    let g1 = after_placing(m, pos, s);
    let c = captures(m, pos, s);
    lemma_size_fits(m);
    lemma_index_in_range(n, pos);
    assert forall|k: int, q: Position|
        0 <= k < neighbors(n, pos).len() && dead_opponent(
            n,
            g1,
            #[trigger] neighbors(n, pos)[k],
            s,
        ) && #[trigger] connected(n, g1, neighbors(n, pos)[k], q) implies cell(
        n,
        placed_board(m, pos, s).cells,
        q,
    ) is None by {
        lemma_connected_same_color(n, g1, neighbors(n, pos)[k], q);
        lemma_index_in_range(n, q);
        assert(c.contains(q));
    }
    assert(!c.contains(pos)) by {
        if c.contains(pos) {
            let k = choose|k: int|
                0 <= k < neighbors(n, pos).len() && dead_opponent(
                    n,
                    g1,
                    #[trigger] neighbors(n, pos)[k],
                    s,
                ) && connected(n, g1, neighbors(n, pos)[k], pos);
            lemma_connected_same_color(n, g1, neighbors(n, pos)[k], pos);
        }
    }
    assert forall|q: Position| q != pos && !c.contains(q) implies #[trigger] cell(
        n,
        placed_board(m, pos, s).cells,
        q,
    ) == cell(n, m.cells, q) by {
        if in_bounds(n, q) {
            lemma_index_in_range(n, q);
            if cell_index(n, q) == cell_index(n, pos) {
                lemma_index_injective(n, q, pos);
            }
        }
    }
}

/// A placement on an empty cell of the grid whose group has no liberty and
/// that captures nothing is refused as suicide.
pub proof fn lemma_suicide_refused(m: BoardModel, pos: Position, s: Stone)
    requires
        in_bounds(m.size, pos),
        cell(m.size, m.cells, pos) is None,
        captures(m, pos, s).len() == 0,
        !has_liberty(m.size, after_placing(m, pos, s), pos),
    ensures
        place_outcome(m, pos, s) == Err::<nat, GoError>(GoError::SuicidalMove),
{
}

/// A placement on an empty cell of the grid that captures exactly one stone
/// and brings back the hash recorded before the previous capturing move is
/// refused by the ko rule.
pub proof fn lemma_ko_refused(m: BoardModel, pos: Position, s: Stone)
    requires
        in_bounds(m.size, pos),
        cell(m.size, m.cells, pos) is None,
        captures(m, pos, s).len() == 1,
        m.prev_hash == Some(hash_of(after_capturing(m, pos, s), m.keys)),
    ensures
        place_outcome(m, pos, s) == Err::<nat, GoError>(GoError::KoRuleViolation),
{
}

/// The key that an occupied cell contributes to the position hash.
pub open spec fn key_term(cells: Seq<Option<Stone>>, keys: Seq<u64>, i: int) -> u64 {
    match cells[i] {
        None => 0,
        Some(Stone::Black) => keys[2 * i],
        Some(Stone::White) => keys[2 * i + 1],
    }
}

pub open spec fn hash_prefix(cells: Seq<Option<Stone>>, keys: Seq<u64>, k: int) -> u64
    decreases k,
{
    if k <= 0 {
        0
    } else {
        hash_prefix(cells, keys, k - 1) ^ key_term(cells, keys, k - 1)
    }
}

/// The XOR of the keys of every occupied (cell, colour) pair.
pub open spec fn hash_of(cells: Seq<Option<Stone>>, keys: Seq<u64>) -> u64 {
    hash_prefix(cells, keys, cells.len() as int)
}

/// The invariant of every board: a positive size small enough for every
/// index to fit, one cell per position, two keys per cell, and a running hash
/// equal to the hash recomputed from scratch.
pub open spec fn well_formed(m: BoardModel) -> bool {
    &&& 1 <= m.size
    &&& 2 * (m.size * m.size) <= usize::MAX
    &&& m.cells.len() == m.size * m.size
    &&& m.keys.len() == 2 * (m.size * m.size)
    &&& m.hash == hash_of(m.cells, m.keys)
}

pub proof fn lemma_size_fits(m: BoardModel)
    requires
        well_formed(m),
    ensures
        m.size <= m.size * m.size,
        m.size <= usize::MAX,
{
    assert(m.size <= m.size * m.size) by (nonlinear_arith)
        requires
            1 <= m.size,
    ;
}

pub proof fn lemma_index_in_range(n: nat, p: Position)
    requires
        in_bounds(n, p),
    ensures
        0 <= cell_index(n, p) < n * n,
        2 * cell_index(n, p) + 1 < 2 * (n * n),
        position_at(n, cell_index(n, p)) == p,
{
    assert(p.y * n + p.x < n * n) by (nonlinear_arith)
        requires
            p.y < n,
            p.x < n,
    ;
    vstd::arithmetic::div_mod::lemma_fundamental_div_mod_converse(
        cell_index(n, p),
        n as int,
        p.y as int,
        p.x as int,
    );
}

pub proof fn lemma_position_at(n: nat, i: int)
    requires
        0 < n <= usize::MAX,
        0 <= i < n * n,
    ensures
        in_bounds(n, position_at(n, i)),
        cell_index(n, position_at(n, i)) == i,
{
    let q = i / (n as int);
    let r = i % (n as int);
    vstd::arithmetic::div_mod::lemma_fundamental_div_mod(i, n as int);
    vstd::arithmetic::div_mod::lemma_mod_pos_bound(i, n as int);
    assert(0 <= q < n) by (nonlinear_arith)
        requires
            i == n * q + r,
            0 <= r < n,
            0 <= i < n * n,
    ;
    assert(q * n == n * q) by (nonlinear_arith);
}

/// Distinct positions on the grid have distinct cell indices.
pub proof fn lemma_index_injective(n: nat, p: Position, q: Position)
    requires
        in_bounds(n, p),
        in_bounds(n, q),
        cell_index(n, p) == cell_index(n, q),
    ensures
        p == q,
{
    lemma_index_in_range(n, p);
    lemma_index_in_range(n, q);
}

pub proof fn lemma_neighbors_in_bounds(n: nat, p: Position)
    ensures
        neighbors(n, p).len() <= 4,
        forall|k: int|
            0 <= k < neighbors(n, p).len() ==> #[trigger] in_bounds(n, neighbors(n, p)[k]),
{
}

pub proof fn lemma_hash_update(
    cells: Seq<Option<Stone>>,
    keys: Seq<u64>,
    j: int,
    v: Option<Stone>,
    k: int,
)
    requires
        0 <= j < cells.len(),
        0 <= k <= cells.len(),
    ensures
        hash_prefix(cells.update(j, v), keys, k) == if k > j {
            hash_prefix(cells, keys, k) ^ (key_term(cells, keys, j) ^ key_term(
                cells.update(j, v),
                keys,
                j,
            ))
        } else {
            hash_prefix(cells, keys, k)
        },
    decreases k,
{
    let c2 = cells.update(j, v);
    if k > 0 {
        lemma_hash_update(cells, keys, j, v, k - 1);
        let a = hash_prefix(cells, keys, k - 1);
        let t = key_term(cells, keys, j);
        let t2 = key_term(c2, keys, j);
        let b = key_term(cells, keys, k - 1);
        if k - 1 == j {
            assert((a ^ t) ^ (t ^ t2) == a ^ t2) by (bit_vector);
        } else if k - 1 > j {
            assert(key_term(c2, keys, k - 1) == b);
            assert((a ^ (t ^ t2)) ^ b == (a ^ b) ^ (t ^ t2)) by (bit_vector);
        } else {
            assert(key_term(c2, keys, k - 1) == b);
        }
    }
}

/// Changing one cell changes the hash by that cell's old and new keys.
pub proof fn lemma_hash_set_cell(
    cells: Seq<Option<Stone>>,
    keys: Seq<u64>,
    j: int,
    v: Option<Stone>,
)
    requires
        0 <= j < cells.len(),
    ensures
        hash_of(cells.update(j, v), keys) == hash_of(cells, keys) ^ (key_term(cells, keys, j)
            ^ key_term(cells.update(j, v), keys, j)),
{
    lemma_hash_update(cells, keys, j, v, cells.len() as int);
}

pub proof fn lemma_hash_empty(cells: Seq<Option<Stone>>, keys: Seq<u64>, k: int)
    requires
        0 <= k <= cells.len(),
        forall|i: int| 0 <= i < cells.len() ==> cells[i] is None,
    ensures
        hash_prefix(cells, keys, k) == 0,
    decreases k,
{
    if k > 0 {
        lemma_hash_empty(cells, keys, k - 1);
        let z: u64 = 0;
        assert(z ^ z == 0) by (bit_vector);
    }
}

/// For a list that holds exactly the group of `p`, some liberty of the list
/// exists just when the group of `p` has a liberty.
pub proof fn lemma_group_liberty(
    n: nat,
    cells: Seq<Option<Stone>>,
    p: Position,
    group: Seq<Position>,
)
    requires
        forall|q: Position| #[trigger] group.contains(q) <==> connected(n, cells, p, q),
    ensures
        (exists|x: Position| liberties(n, cells, group).contains(x)) <==> has_liberty(n, cells, p),
{
    if has_liberty(n, cells, p) {
        let (q, r) = choose|q: Position, r: Position|
            connected(n, cells, p, q) && neighbors(n, q).contains(r) && cell(n, cells, r) is None;
        assert(group.contains(q));
        let k = choose|k: int| 0 <= k < group.len() && group[k] == q;
        lemma_neighbors_in_bounds(n, q);
        assert(neighbors(n, group[k]).contains(r));
        assert(liberties(n, cells, group).contains(r));
    }
    if exists|x: Position| liberties(n, cells, group).contains(x) {
        let x = choose|x: Position| liberties(n, cells, group).contains(x);
        let k = choose|k: int| 0 <= k < group.len() && #[trigger] neighbors(n, group[k]).contains(x);
        assert(group.contains(group[k]));
        assert(connected(n, cells, p, group[k]));
    }
}

/// The distinct empty cells next to the group of the stone at `p`.
pub open spec fn group_liberties(n: nat, cells: Seq<Option<Stone>>, p: Position) -> Set<Position> {
    Set::new(
        |r: Position|
            in_bounds(n, r) && cell(n, cells, r) is None && exists|q: Position|
                connected(n, cells, p, q) && #[trigger] neighbors(n, q).contains(r),
    )
}

/// The liberties of a list that holds exactly the group of `p` are those of
/// the group.
pub proof fn lemma_group_liberties(
    n: nat,
    cells: Seq<Option<Stone>>,
    p: Position,
    group: Seq<Position>,
)
    requires
        forall|q: Position| #[trigger] group.contains(q) <==> connected(n, cells, p, q),
    ensures
        liberties(n, cells, group) == group_liberties(n, cells, p),
{
    assert forall|r: Position| #[trigger]
        liberties(n, cells, group).contains(r) <==> group_liberties(n, cells, p).contains(r) by {
        if liberties(n, cells, group).contains(r) {
            let k = choose|k: int| 0 <= k < group.len() && #[trigger] neighbors(n, group[k]).contains(r);
            assert(group.contains(group[k]));
        }
        if group_liberties(n, cells, p).contains(r) {
            let q = choose|q: Position| connected(n, cells, p, q) && #[trigger] neighbors(n, q).contains(r);
            assert(group.contains(q));
            let k = choose|k: int| 0 <= k < group.len() && group[k] == q;
            assert(neighbors(n, group[k]).contains(r));
        }
    }
    assert(liberties(n, cells, group) =~= group_liberties(n, cells, p));
}

/// How many positions of `ps` hold `v`.
pub open spec fn count_holding(n: nat, cells: Seq<Option<Stone>>, ps: Seq<Position>, v: Option<Stone>) -> nat
    decreases ps.len(),
{
    if ps.len() == 0 {
        0
    } else {
        count_holding(n, cells, ps.drop_last(), v) + if cell(n, cells, ps.last()) == v {
            1nat
        } else {
            0nat
        }
    }
}

/// The number of marks set in `s`.
pub open spec fn count_true(s: Seq<bool>) -> nat
    decreases s.len(),
{
    if s.len() == 0 {
        0
    } else {
        count_true(s.drop_last()) + if s.last() {
            1nat
        } else {
            0nat
        }
    }
}

pub proof fn lemma_count_true_bound(s: Seq<bool>)
    ensures
        count_true(s) <= s.len(),
    decreases s.len(),
{
    if s.len() > 0 {
        lemma_count_true_bound(s.drop_last());
    }
}

pub proof fn lemma_count_true_all_false(s: Seq<bool>)
    requires
        forall|i: int| 0 <= i < s.len() ==> !s[i],
    ensures
        count_true(s) == 0,
    decreases s.len(),
{
    if s.len() > 0 {
        lemma_count_true_all_false(s.drop_last());
    }
}

/// Setting one more mark raises the count by one.
pub proof fn lemma_count_true_set(s: Seq<bool>, j: int)
    requires
        0 <= j < s.len(),
        !s[j],
    ensures
        count_true(s.update(j, true)) == count_true(s) + 1,
    decreases s.len(),
{
    let t = s.update(j, true);
    if j < s.len() - 1 {
        assert(t.drop_last() =~= s.drop_last().update(j, true));
        lemma_count_true_set(s.drop_last(), j);
    } else {
        assert(t.drop_last() =~= s.drop_last());
    }
}

pub proof fn lemma_connected_start(n: nat, cells: Seq<Option<Stone>>, p: Position)
    requires
        cell(n, cells, p) is Some,
    ensures
        connected(n, cells, p, p),
{
    let path = seq![p];
    assert(is_chain(n, cells, path));
}

/// Every position of a group holds the colour of its seed, on the grid.
pub proof fn lemma_connected_same_color(
    n: nat,
    cells: Seq<Option<Stone>>,
    p: Position,
    q: Position,
)
    requires
        connected(n, cells, p, q),
    ensures
        cell(n, cells, p) is Some,
        cell(n, cells, q) == cell(n, cells, p),
        in_bounds(n, q),
{
    let path = choose|path: Seq<Position>|
        #[trigger] is_chain(n, cells, path) && path[0] == p && path.last() == q;
    assert(cell(n, cells, path[path.len() - 1]) == cell(n, cells, path[0]));
}

/// A group grows by any neighbour of one of its stones that has the same colour.
pub proof fn lemma_connected_extend(
    n: nat,
    cells: Seq<Option<Stone>>,
    p: Position,
    q: Position,
    r: Position,
)
    requires
        connected(n, cells, p, q),
        neighbors(n, q).contains(r),
        cell(n, cells, r) == cell(n, cells, p),
    ensures
        connected(n, cells, p, r),
{
    let path = choose|path: Seq<Position>|
        #[trigger] is_chain(n, cells, path) && path[0] == p && path.last() == q;
    let path2 = path.push(r);
    assert forall|i: int| 0 <= i < path2.len() - 1 implies #[trigger] neighbors(
        n,
        path2[i],
    ).contains(path2[i + 1]) by {
        if i < path.len() - 1 {
            assert(neighbors(n, path[i]).contains(path[i + 1]));
        }
    }
    assert forall|i: int| 0 <= i < path2.len() implies #[trigger] cell(n, cells, path2[i]) == cell(
        n,
        cells,
        path2[0],
    ) by {
        if i < path.len() {
            assert(cell(n, cells, path[i]) == cell(n, cells, path[0]));
        }
    }
    assert(is_chain(n, cells, path2));
}

/// A set of positions that holds `p` and every same-coloured neighbour of its
/// members holds the whole group of `p`.
pub proof fn lemma_closed_holds_group(
    n: nat,
    cells: Seq<Option<Stone>>,
    p: Position,
    g: Seq<Position>,
    q: Position,
)
    requires
        g.contains(p),
        forall|k: int, j: int|
            0 <= k < g.len() && 0 <= j < neighbors(n, g[k]).len() && cell(
                n,
                cells,
                #[trigger] neighbors(n, g[k])[j],
            ) == cell(n, cells, p) ==> g.contains(neighbors(n, g[k])[j]),
        connected(n, cells, p, q),
    ensures
        g.contains(q),
{
    let path = choose|path: Seq<Position>|
        #[trigger] is_chain(n, cells, path) && path[0] == p && path.last() == q;
    lemma_chain_inside(n, cells, p, g, path, path.len() - 1);
}

proof fn lemma_chain_inside(
    n: nat,
    cells: Seq<Option<Stone>>,
    p: Position,
    g: Seq<Position>,
    path: Seq<Position>,
    i: int,
)
    requires
        g.contains(p),
        forall|k: int, j: int|
            0 <= k < g.len() && 0 <= j < neighbors(n, g[k]).len() && cell(
                n,
                cells,
                #[trigger] neighbors(n, g[k])[j],
            ) == cell(n, cells, p) ==> g.contains(neighbors(n, g[k])[j]),
        is_chain(n, cells, path),
        path[0] == p,
        0 <= i < path.len(),
    ensures
        g.contains(path[i]),
    decreases i,
{
    if i > 0 {
        lemma_chain_inside(n, cells, p, g, path, i - 1);
        let k = choose|k: int| 0 <= k < g.len() && g[k] == path[i - 1];
        assert(neighbors(n, path[i - 1]).contains(path[(i - 1) + 1]));
        let j = choose|j: int|
            0 <= j < neighbors(n, g[k]).len() && neighbors(n, g[k])[j] == path[i];
        assert(cell(n, cells, path[i]) == cell(n, cells, path[0]));
    }
}

} // verus!

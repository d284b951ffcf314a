use vstd::prelude::*;

use crate::error::GoError;
use crate::model::{
    after_placing, bfs_expand, bfs_from, bfs_listing, captures, cell, cell_index, clear, connected, count_true, dead_opponent, hash_of,
    hash_prefix, in_bounds, lemma_clear_empty, lemma_clear_insert, lemma_closed_holds_group,
    lemma_connected_extend, lemma_connected_same_color, lemma_connected_start,
    lemma_count_true_all_false, lemma_count_true_bound, lemma_count_true_set,
    lemma_group_liberty, lemma_hash_empty, lemma_hash_set_cell, lemma_index_in_range,
    lemma_index_injective, lemma_neighbors_in_bounds, lemma_size_fits, liberties, neighbors,
    opponent, place_outcome, placed_board, well_formed, BoardModel,
};

verus! {

/// The colour of a stone.
#[derive(Debug, Clone, Copy, PartialEq, Eq, Structural)]
pub enum Stone {
    Black,
    White,
}

impl Stone {
    pub fn opposite(&self) -> (r: Self)
        ensures
            r == opponent(*self),
    {
        match self {
            Stone::Black => Stone::White,
            Stone::White => Stone::Black,
        }
    }
}

/// A grid coordinate; meaningful relative to a board's size.
#[derive(Debug, Clone, Copy, PartialEq, Eq, Hash, Structural)]
pub struct Position {
    pub x: usize,
    pub y: usize,
}

/// An N x N Go board with its per-board table of random position keys.
pub struct Board {
    size: usize,
    grid: Vec<Option<Stone>>,
    zobrist_table: Vec<u64>,
    current_hash: u64,
    previous_hash: Option<u64>,
}

impl View for Board {
    type V = BoardModel;

    closed spec fn view(&self) -> BoardModel {
        BoardModel {
            size: self.size as nat,
            cells: self.grid@,
            keys: self.zobrist_table@,
            hash: self.current_hash,
            prev_hash: self.previous_hash,
        }
    }
}

impl Clone for Board {
    /// An independent copy with the same cells, keys and hashes.
    fn clone(&self) -> (r: Self)
        ensures
            r@ == self@,
    {
        let mut grid: Vec<Option<Stone>> = Vec::new();
        let mut i: usize = 0;
        while i < self.grid.len()
            invariant
                i <= self.grid@.len(),
                grid@ == self.grid@.subrange(0, i as int),
            decreases self.grid@.len() - i,
        {
            grid.push(self.grid[i]);
            i = i + 1;
        }
        let mut zobrist_table: Vec<u64> = Vec::new();
        let mut k: usize = 0;
        while k < self.zobrist_table.len()
            invariant
                k <= self.zobrist_table@.len(),
                zobrist_table@ == self.zobrist_table@.subrange(0, k as int),
            decreases self.zobrist_table@.len() - k,
        {
            zobrist_table.push(self.zobrist_table[k]);
            k = k + 1;
        }
        assert(grid@ =~= self.grid@);
        assert(zobrist_table@ =~= self.zobrist_table@);
        Board {
            size: self.size,
            grid,
            zobrist_table,
            current_hash: self.current_hash,
            previous_hash: self.previous_hash,
        }
    }
}

/// Relies on rand::random: an independently drawn 64-bit value. Nothing is
/// known of it.
#[verifier::external_body]
fn random_key() -> (r: u64) {
    rand::random::<u64>()
}

impl Board {
    pub open spec fn wf(&self) -> bool {
        well_formed(self@)
    }

    /// An empty board of `size` x `size` cells with freshly drawn keys.
    pub fn new(size: usize) -> (r: Self)
        requires
            1 <= size,
            2 * (size * size) <= usize::MAX,
        ensures
            r.wf(),
            r@.size == size,
            forall|i: int| 0 <= i < r@.cells.len() ==> r@.cells[i] is None,
            r@.prev_hash is None,
    {
        let cells: usize = size * size;
        let mut grid: Vec<Option<Stone>> = Vec::new();
        let mut i: usize = 0;
        while i < cells
            invariant
                i <= cells,
                grid@.len() == i,
                forall|j: int| 0 <= j < i ==> grid@[j] is None,
            decreases cells - i,
        {
            grid.push(None);
            i = i + 1;
        }
        let mut zobrist_table: Vec<u64> = Vec::new();
        let mut k: usize = 0;
        while k < 2 * cells
            invariant
                2 * cells <= usize::MAX,
                k <= 2 * cells,
                zobrist_table@.len() == k,
            decreases 2 * cells - k,
        {
            zobrist_table.push(random_key());
            k = k + 1;
        }
        proof {
            lemma_hash_empty(grid@, zobrist_table@, grid@.len() as int);
        }
        Board { size, grid, zobrist_table, current_hash: 0, previous_hash: None }
    }

    #[inline]
    pub fn pos_to_index(&self, pos: Position) -> (r: usize)
        requires
            pos.x + pos.y * self@.size <= usize::MAX,
        ensures
            r == cell_index(self@.size, pos),
    {
        pos.x + pos.y * self.size
    }

    pub fn size(&self) -> (r: usize)
        ensures
            r == self@.size,
    {
        self.size
    }

    fn is_on_board(&self, pos: Position) -> (r: bool)
        ensures
            r == in_bounds(self@.size, pos),
    {
        pos.x < self.size && pos.y < self.size
    }

    /// The occupant of `pos`, or `OutOfBounds` off the grid.
    pub fn get_stone(&self, pos: Position) -> (r: Result<Option<Stone>, GoError>)
        requires
            self.wf(),
        ensures
            !in_bounds(self@.size, pos) ==> r == Err::<Option<Stone>, GoError>(
                GoError::OutOfBounds { pos },
            ),
            in_bounds(self@.size, pos) ==> r == Ok::<Option<Stone>, GoError>(
                cell(self@.size, self@.cells, pos),
            ),
    {
        if !self.is_on_board(pos) {
            return Err(GoError::out_of_bounds(pos));
        }
        proof {
            lemma_index_in_range(self@.size, pos);
        }
        Ok(self.grid[self.pos_to_index(pos)])
    }

    /// The orthogonal neighbours of `pos` on the grid: left, right, up, down.
    pub fn get_neighbors(&self, pos: Position) -> (r: Vec<Position>)
        ensures
            r@ == neighbors(self@.size, pos),
    {
        let n = self.size;
        let mut v: Vec<Position> = Vec::new();
        if pos.x > 0 && pos.x - 1 < n && pos.y < n {
            v.push(Position { x: pos.x - 1, y: pos.y });
        }
        if pos.x < n && pos.x + 1 < n && pos.y < n {
            v.push(Position { x: pos.x + 1, y: pos.y });
        }
        if pos.y > 0 && pos.y - 1 < n && pos.x < n {
            v.push(Position { x: pos.x, y: pos.y - 1 });
        }
        if pos.y < n && pos.y + 1 < n && pos.x < n {
            v.push(Position { x: pos.x, y: pos.y + 1 });
        }
        assert(v@ =~= neighbors(self@.size, pos));
        v
    }

    /// The group of the stone at `pos`: every stone of its colour that a walk
    /// over neighbouring cells of that colour reaches from `pos`, each once, in
    /// breadth-first order. Empty when `pos` holds no stone or is off the grid.
    pub fn get_group(&self, pos: Position) -> (r: Vec<Position>)
        requires
            self.wf(),
        ensures
            r@ == bfs_listing(self@.size, self@.cells, pos),
            cell(self@.size, self@.cells, pos) is None ==> r@.len() == 0,
            cell(self@.size, self@.cells, pos) is Some ==> r@.len() > 0 && r@[0] == pos,
            r@.no_duplicates(),
            forall|q: Position| #[trigger]
                r@.contains(q) <==> connected(self@.size, self@.cells, pos, q),
            forall|k: int| 0 <= k < r@.len() ==> #[trigger] in_bounds(self@.size, r@[k]),
            forall|k: int|
                0 <= k < r@.len() ==> #[trigger] cell(
                    self@.size,
                    self@.cells,
                    r@[k],
                ) == cell(self@.size, self@.cells, pos),
            forall|k: int, j: int|
                0 <= k < r@.len() && 0 <= j < neighbors(self@.size, r@[k]).len() && cell(
                    self@.size,
                    self@.cells,
                    #[trigger] neighbors(self@.size, r@[k])[j],
                ) == cell(self@.size, self@.cells, pos) ==> r@.contains(
                    neighbors(self@.size, r@[k])[j],
                ),
    {
        let ghost n = self@.size;
        let ghost cells = self@.cells;
        let mut group: Vec<Position> = Vec::new();
        if !self.is_on_board(pos) {
            proof {
                assert forall|q: Position| !connected(n, cells, pos, q) by {
                    if connected(n, cells, pos, q) {
                        lemma_connected_same_color(n, cells, pos, q);
                    }
                }
            }
            return group;
        }
        proof {
            lemma_index_in_range(n, pos);
            lemma_size_fits(self@);
        }
        let start = self.pos_to_index(pos);
        let color = match self.grid[start] {
            None => {
                proof {
                    assert forall|q: Position| !connected(n, cells, pos, q) by {
                        if connected(n, cells, pos, q) {
                            lemma_connected_same_color(n, cells, pos, q);
                        }
                    }
                }
                return group;
            },
            Some(c) => c,
        };
        let n2: usize = self.size * self.size;
        let mut visited: Vec<bool> = Vec::new();
        let mut i: usize = 0;
        while i < n2
            invariant
                i <= n2,
                visited@.len() == i,
                forall|k: int| 0 <= k < i ==> !visited@[k],
            decreases n2 - i,
        {
            visited.push(false);
            i = i + 1;
        }
        proof {
            lemma_count_true_all_false(visited@);
            lemma_count_true_set(visited@, start as int);
            lemma_connected_start(n, cells, pos);
        }
        visited.set(start, true);
        group.push(pos);
        proof {
            assert forall|q: Position| in_bounds(n, q) implies (visited@[cell_index(n, q)]
                <==> group@.contains(q)) by {
                lemma_index_in_range(n, q);
                if visited@[cell_index(n, q)] {
                    lemma_index_injective(n, q, pos);
                    assert(group@[0] == q);
                }
                if group@.contains(q) {
                    assert(group@[0] == q);
                }
            }
        }
        let mut head: usize = 0;
        while head < group.len()
            invariant
                self.wf(),
                n == self@.size,
                cells == self@.cells,
                n2 == n * n,
                visited@.len() == n2,
                cell(n, cells, pos) == Some(color),
                head <= group@.len(),
                group@.len() >= 1,
                group@[0] == pos,
                group@.no_duplicates(),
                count_true(visited@) == group@.len(),
                bfs_from(n, cells, color, group@, head as nat, (n2 - head) as nat) == bfs_listing(
                    n,
                    cells,
                    pos,
                ),
                forall|k: int|
                    0 <= k < group@.len() ==> in_bounds(n, #[trigger] group@[k]) && connected(
                        n,
                        cells,
                        pos,
                        group@[k],
                    ),
                forall|q: Position|
                    in_bounds(n, q) ==> (visited@[cell_index(n, q)] <==> #[trigger] group@.contains(
                        q,
                    )),
                forall|k: int, j: int|
                    0 <= k < head && 0 <= j < neighbors(n, group@[k]).len() && cell(
                        n,
                        cells,
                        #[trigger] neighbors(n, group@[k])[j],
                    ) == Some(color) ==> group@.contains(neighbors(n, group@[k])[j]),
            decreases n2 - head,
        {
            proof {
                lemma_count_true_bound(visited@);
            }
            let q = group[head];
            let ghost g_start = group@;
            let nbrs = self.get_neighbors(q);
            proof {
                lemma_neighbors_in_bounds(n, q);
            }
            let mut j: usize = 0;
            while j < nbrs.len()
                invariant
                    self.wf(),
                    n == self@.size,
                    cells == self@.cells,
                    n2 == n * n,
                    visited@.len() == n2,
                    cell(n, cells, pos) == Some(color),
                    head < group@.len(),
                    q == group@[head as int],
                    nbrs@ == neighbors(n, q),
                    forall|k: int| 0 <= k < nbrs@.len() ==> in_bounds(n, #[trigger] nbrs@[k]),
                    j <= nbrs@.len(),
                    group@.len() >= 1,
                    group@[0] == pos,
                    group@.no_duplicates(),
                    count_true(visited@) == group@.len(),
                    head < g_start.len(),
                    q == g_start[head as int],
                    head < n2,
                    bfs_from(n, cells, color, g_start, head as nat, (n2 - head) as nat)
                        == bfs_listing(n, cells, pos),
                    group@ == bfs_expand(n, cells, color, g_start, nbrs@, j as nat),
                    forall|k: int|
                        0 <= k < group@.len() ==> in_bounds(n, #[trigger] group@[k]) && connected(
                            n,
                            cells,
                            pos,
                            group@[k],
                        ),
                    forall|q: Position|
                        in_bounds(n, q) ==> (visited@[cell_index(n, q)]
                            <==> #[trigger] group@.contains(q)),
                    forall|k: int, j: int|
                        0 <= k < head && 0 <= j < neighbors(n, group@[k]).len() && cell(
                            n,
                            cells,
                            #[trigger] neighbors(n, group@[k])[j],
                        ) == Some(color) ==> group@.contains(neighbors(n, group@[k])[j]),
                    forall|jj: int|
                        0 <= jj < j && cell(n, cells, #[trigger] nbrs@[jj]) == Some(color)
                            ==> group@.contains(nbrs@[jj]),
                decreases nbrs@.len() - j,
            {
                let r = nbrs[j];
                let ghost g_before = group@;
                proof {
                    lemma_index_in_range(n, r);
                }
                let ri = self.pos_to_index(r);
                let same = match self.grid[ri] {
                    Some(s) => s == color,
                    None => false,
                };
                if same && !visited[ri] {
                    proof {
                        lemma_count_true_set(visited@, ri as int);
                        assert(neighbors(n, q).contains(r)) by {
                            assert(nbrs@[j as int] == r);
                        }
                        lemma_connected_extend(n, cells, pos, q, r);
                    }
                    let ghost old_group = group@;
                    let ghost old_visited = visited@;
                    visited.set(ri, true);
                    group.push(r);
                    proof {
                        assert(!old_group.contains(r));
                        assert forall|a: int, b: int|
                            0 <= a < group@.len() && 0 <= b < group@.len() && a != b implies group@[a]
                            != group@[b] by {
                            if a == group@.len() - 1 && group@[b] == r {
                                assert(old_group[b] == r);
                            }
                            if b == group@.len() - 1 && group@[a] == r {
                                assert(old_group[a] == r);
                            }
                        }
                        assert forall|p: Position| in_bounds(n, p) implies (visited@[cell_index(
                            n,
                            p,
                        )] <==> #[trigger] group@.contains(p)) by {
                            if p == r {
                                assert(group@[group@.len() - 1] == r);
                            } else {
                                lemma_index_in_range(n, p);
                                if cell_index(n, p) == cell_index(n, r) {
                                    lemma_index_injective(n, p, r);
                                }
                                assert(visited@[cell_index(n, p)] == old_visited[cell_index(
                                    n,
                                    p,
                                )]);
                                if group@.contains(p) {
                                    let k = choose|k: int|
                                        0 <= k < group@.len() && group@[k] == p;
                                    assert(old_group[k] == p);
                                }
                                if old_group.contains(p) {
                                    let k = choose|k: int|
                                        0 <= k < old_group.len() && old_group[k] == p;
                                    assert(group@[k] == p);
                                }
                            }
                        }
                        assert forall|k: int, j: int|
                            0 <= k < head && 0 <= j < neighbors(n, group@[k]).len() && cell(
                                n,
                                cells,
                                #[trigger] neighbors(n, group@[k])[j],
                            ) == Some(color) implies group@.contains(
                            neighbors(n, group@[k])[j],
                        ) by {
                            assert(group@[k] == old_group[k]);
                            let x = neighbors(n, old_group[k])[j];
                            assert(old_group.contains(x));
                            let w = choose|w: int| 0 <= w < old_group.len() && old_group[w] == x;
                            assert(group@[w] == x);
                        }
                    }
                }
                proof {
                    assert forall|x: Position| g_before.contains(x) implies group@.contains(x) by {
                        let w = choose|w: int| 0 <= w < g_before.len() && g_before[w] == x;
                        assert(group@[w] == x);
                    }
                    assert forall|jj: int|
                        0 <= jj < j + 1 && cell(n, cells, #[trigger] nbrs@[jj]) == Some(color)
                            implies group@.contains(nbrs@[jj]) by {
                        if jj == j {
                            if !group@.contains(r) {
                                assert(group@[group@.len() - 1] == r);
                            }
                        } else {
                            assert(g_before.contains(nbrs@[jj]));
                        }
                    }
                }
                j = j + 1;
            }
            proof {
                assert forall|k: int, j: int|
                    0 <= k < head + 1 && 0 <= j < neighbors(n, group@[k]).len() && cell(
                        n,
                        cells,
                        #[trigger] neighbors(n, group@[k])[j],
                    ) == Some(color) implies group@.contains(neighbors(n, group@[k])[j]) by {
                    if k == head {
                        assert(nbrs@[j] == neighbors(n, group@[k])[j]);
                    }
                }
            }
            head = head + 1;
        }
        proof {
            assert(group@.contains(pos)) by {
                assert(group@[0] == pos);
            }
            assert forall|q: Position| #[trigger]
                group@.contains(q) <==> connected(n, cells, pos, q) by {
                if connected(n, cells, pos, q) {
                    lemma_closed_holds_group(n, cells, pos, group@, q);
                }
            }
            assert forall|k: int| 0 <= k < group@.len() implies in_bounds(n, group@[k]) && #[trigger] cell(
                n,
                cells,
                group@[k],
            ) == cell(n, cells, pos) by {
                lemma_connected_same_color(n, cells, pos, group@[k]);
            }
        }
        group
    }

    /// The number of distinct empty cells next to some position of `group`.
    pub fn count_liberties(&self, group: &[Position]) -> (r: usize)
        requires
            self.wf(),
        ensures
            liberties(self@.size, self@.cells, group@).finite(),
            r == liberties(self@.size, self@.cells, group@).len(),
    {
        let ghost n = self@.size;
        let ghost cells = self@.cells;
        proof {
            lemma_size_fits(self@);
        }
        let n2: usize = self.size * self.size;
        let mut counted: Vec<bool> = Vec::new();
        let mut i: usize = 0;
        while i < n2
            invariant
                i <= n2,
                counted@.len() == i,
                forall|k: int| 0 <= k < i ==> !counted@[k],
            decreases n2 - i,
        {
            counted.push(false);
            i = i + 1;
        }
        let ghost mut seen: Set<Position> = Set::empty();
        proof {
            lemma_count_true_all_false(counted@);
            assert forall|q: Position| in_bounds(n, q) implies (counted@[cell_index(n, q)]
                <==> #[trigger] seen.contains(q)) by {
                lemma_index_in_range(n, q);
            }
        }
        let mut count: usize = 0;
        let mut i: usize = 0;
        while i < group.len()
            invariant
                self.wf(),
                n == self@.size,
                cells == self@.cells,
                n2 == n * n,
                counted@.len() == n2,
                i <= group@.len(),
                seen.finite(),
                count == seen.len(),
                count == count_true(counted@),
                forall|q: Position|
                    in_bounds(n, q) ==> (counted@[cell_index(n, q)] <==> #[trigger] seen.contains(
                        q,
                    )),
                forall|q: Position| #[trigger]
                    seen.contains(q) <==> liberties(n, cells, group@.subrange(0, i as int)).contains(
                        q,
                    ),
            decreases group@.len() - i,
        {
            let nbrs = self.get_neighbors(group[i]);
            proof {
                lemma_neighbors_in_bounds(n, group@[i as int]);
            }
            let ghost seen_before = seen;
            let mut j: usize = 0;
            while j < nbrs.len()
                invariant
                    self.wf(),
                    n == self@.size,
                    cells == self@.cells,
                    n2 == n * n,
                    counted@.len() == n2,
                    i < group@.len(),
                    nbrs@ == neighbors(n, group@[i as int]),
                    forall|k: int| 0 <= k < nbrs@.len() ==> in_bounds(n, #[trigger] nbrs@[k]),
                    j <= nbrs@.len(),
                    seen.finite(),
                    count == seen.len(),
                    count == count_true(counted@),
                    forall|q: Position|
                        in_bounds(n, q) ==> (counted@[cell_index(n, q)]
                            <==> #[trigger] seen.contains(q)),
                    forall|q: Position| #[trigger]
                        seen.contains(q) <==> (seen_before.contains(q) || (cell(n, cells, q) is None
                            && exists|jj: int| 0 <= jj < j && nbrs@[jj] == q)),
                    forall|q: Position| #[trigger]
                        seen_before.contains(q) <==> liberties(
                            n,
                            cells,
                            group@.subrange(0, i as int),
                        ).contains(q),
                decreases nbrs@.len() - j,
            {
                let nb = nbrs[j];
                proof {
                    lemma_index_in_range(n, nb);
                    lemma_count_true_bound(counted@);
                }
                let ni = self.pos_to_index(nb);
                let empty = self.grid[ni].is_none();
                let ghost seen_mid = seen;
                if !counted[ni] && empty {
                    proof {
                        lemma_count_true_set(counted@, ni as int);
                        lemma_count_true_bound(counted@.update(ni as int, true));
                    }
                    let ghost old_counted = counted@;
                    counted.set(ni, true);
                    count = count + 1;
                    proof {
                        seen = seen.insert(nb);
                        assert forall|q: Position| in_bounds(n, q) implies (counted@[cell_index(
                            n,
                            q,
                        )] <==> #[trigger] seen.contains(q)) by {
                            lemma_index_in_range(n, q);
                            if q != nb && cell_index(n, q) == cell_index(n, nb) {
                                lemma_index_injective(n, q, nb);
                            }
                        }
                    }
                }
                proof {
                    assert forall|q: Position| #[trigger]
                        seen.contains(q) <==> (seen_before.contains(q) || (cell(n, cells, q) is None
                            && exists|jj: int| 0 <= jj < j + 1 && nbrs@[jj] == q)) by {
                        if q == nb && cell(n, cells, q) is None {
                            assert(nbrs@[j as int] == q);
                        }
                        if exists|jj: int| 0 <= jj < j + 1 && nbrs@[jj] == q {
                            let jj = choose|jj: int| 0 <= jj < j + 1 && nbrs@[jj] == q;
                            if jj < j {
                                assert(exists|jj: int| 0 <= jj < j && nbrs@[jj] == q);
                            }
                        }
                        if seen_mid.contains(q) && cell(n, cells, q) is None && (exists|jj: int|
                            0 <= jj < j && nbrs@[jj] == q) {
                            let jj = choose|jj: int| 0 <= jj < j && nbrs@[jj] == q;
                            assert(exists|jj: int| 0 <= jj < j + 1 && nbrs@[jj] == q);
                        }
                    }
                }
                j = j + 1;
            }
            proof {
                let g0 = group@.subrange(0, i as int);
                let g1 = group@.subrange(0, i + 1);
                assert forall|q: Position| #[trigger]
                    seen.contains(q) <==> liberties(n, cells, g1).contains(q) by {
                    if liberties(n, cells, g1).contains(q) {
                        let k = choose|k: int|
                            0 <= k < g1.len() && #[trigger] neighbors(n, g1[k]).contains(q);
                        if k < i {
                            assert(g0[k] == g1[k]);
                            assert(liberties(n, cells, g0).contains(q));
                        } else {
                            let jj = choose|jj: int| 0 <= jj < nbrs@.len() && nbrs@[jj] == q;
                            assert(exists|jj: int| 0 <= jj < nbrs@.len() && nbrs@[jj] == q);
                        }
                    }
                    if seen.contains(q) {
                        if seen_before.contains(q) {
                            let k = choose|k: int|
                                0 <= k < g0.len() && #[trigger] neighbors(n, g0[k]).contains(q);
                            assert(g0[k] == g1[k]);
                            assert(neighbors(n, g1[k]).contains(q));
                        } else {
                            let jj = choose|jj: int| 0 <= jj < nbrs@.len() && nbrs@[jj] == q;
                            assert(g1[i as int] == group@[i as int]);
                            assert(neighbors(n, g1[i as int]).contains(q));
                        }
                    }
                }
            }
            i = i + 1;
        }
        proof {
            assert(group@.subrange(0, group@.len() as int) =~= group@);
            assert(seen =~= liberties(n, cells, group@));
        }
        count
    }

    /// Whether the positions of `group` touch an empty cell.
    fn has_liberties(&self, group: &[Position]) -> (r: bool)
        requires
            self.wf(),
        ensures
            r <==> exists|x: Position| liberties(self@.size, self@.cells, group@).contains(x),
    {
        let c = self.count_liberties(group);
        proof {
            let l = liberties(self@.size, self@.cells, group@);
            if exists|x: Position| l.contains(x) {
                let x = choose|x: Position| l.contains(x);
                vstd::set::axiom_set_contains_len(l, x);
            }
            vstd::set_lib::lemma_set_empty_equivalency_len(l);
        }
        c > 0
    }

    /// Whether placing `stone` at `pos` would be accepted; the board is not
    /// changed.
    pub fn is_valid_move(&self, pos: Position, stone: Stone) -> (r: bool)
        requires
            self.wf(),
        ensures
            r == place_outcome(self@, pos, stone) is Ok,
    {
        let mut trial = self.clone();
        trial.place_stone(pos, stone).is_ok()
    }

    /// Places `stone` at `pos`, removes every opposing group left without a
    /// liberty, and returns how many stones were captured. A placement off the
    /// grid, on an occupied cell, without liberty and capture (suicide), or
    /// that retakes a single stone to restore the position from before the
    /// previous capturing move (ko) is refused and leaves the board as it was.
    pub fn place_stone(&mut self, pos: Position, stone: Stone) -> (r: Result<usize, GoError>)
        requires
            old(self).wf(),
        ensures
            final(self).wf(),
            match r {
                Ok(k) => place_outcome(old(self)@, pos, stone) == Ok::<nat, GoError>(k as nat)
                    && final(self)@ == placed_board(old(self)@, pos, stone) && k <= old(
                    self,
                )@.size * old(self)@.size,
                Err(e) => place_outcome(old(self)@, pos, stone) == Err::<nat, GoError>(e)
                    && final(self)@ == old(self)@,
            },
            in_bounds(old(self)@.size, pos) && cell(old(self)@.size, old(self)@.cells, pos) is None
                ==> captures(old(self)@, pos, stone).finite(),
    {
        let ghost m0 = self@;
        let ghost n = self@.size;
        match self.internal_move_validate(pos) {
            Err(e) => {
                return Err(e);
            },
            Ok(()) => {},
        }
        proof {
            lemma_index_in_range(n, pos);
            lemma_size_fits(self@);
        }
        let pre_move_hash = self.calculate_hash();
        self.update_hash(pos, Some(stone));
        let ghost g1 = self@.cells;
        assert(g1 == after_placing(m0, pos, stone));
        let opp = stone.opposite();
        let nbrs = self.get_neighbors(pos);
        proof {
            lemma_neighbors_in_bounds(n, pos);
        }
        let n2: usize = self.size * self.size;
        let mut marked: Vec<bool> = Vec::new();
        let mut i: usize = 0;
        while i < n2
            invariant
                i <= n2,
                marked@.len() == i,
                forall|k: int| 0 <= k < i ==> !marked@[k],
            decreases n2 - i,
        {
            marked.push(false);
            i = i + 1;
        }
        let mut captured: Vec<Position> = Vec::new();
        proof {
            lemma_count_true_all_false(marked@);
            assert forall|q: Position| in_bounds(n, q) implies (marked@[cell_index(n, q)]
                <==> #[trigger] captured@.contains(q)) by {
                lemma_index_in_range(n, q);
            }
        }
        let mut j: usize = 0;
        while j < nbrs.len()
            invariant
                self.wf(),
                n == self@.size,
                g1 == self@.cells,
                self@ == (BoardModel { cells: g1, hash: hash_of(g1, m0.keys), ..m0 }),
                n2 == n * n,
                opp == opponent(stone),
                nbrs@ == neighbors(n, pos),
                forall|k: int| 0 <= k < nbrs@.len() ==> in_bounds(n, #[trigger] nbrs@[k]),
                j <= nbrs@.len(),
                marked@.len() == n2,
                count_true(marked@) == captured@.len(),
                captured@.no_duplicates(),
                forall|k: int| 0 <= k < captured@.len() ==> in_bounds(n, #[trigger] captured@[k]),
                forall|q: Position|
                    in_bounds(n, q) ==> (marked@[cell_index(n, q)] <==> #[trigger] captured@.contains(
                        q,
                    )),
                forall|q: Position| #[trigger]
                    captured@.contains(q) <==> exists|k: int|
                        0 <= k < j && dead_opponent(n, g1, #[trigger] nbrs@[k], stone) && connected(
                            n,
                            g1,
                            nbrs@[k],
                            q,
                        ),
            decreases nbrs@.len() - j,
        {
            let nb = nbrs[j];
            proof {
                lemma_index_in_range(n, nb);
            }
            let ghost before = captured@;
            let holds_opponent = match self.grid[self.pos_to_index(nb)] {
                Some(s) => s == opp,
                None => false,
            };
            let mut dead = false;
            if holds_opponent {
                let group = self.get_group(nb);
                let alive = self.has_liberties(&group);
                proof {
                    lemma_group_liberty(n, g1, nb, group@);
                }
                if !alive {
                    dead = true;
                    self.mark_group(&group, &mut captured, &mut marked);
                }
            }
            proof {
                assert(dead == dead_opponent(n, g1, nb, stone));
                assert forall|q: Position| #[trigger]
                    captured@.contains(q) <==> exists|k: int|
                        0 <= k < j + 1 && dead_opponent(n, g1, #[trigger] nbrs@[k], stone)
                            && connected(n, g1, nbrs@[k], q) by {
                    if exists|k: int|
                        0 <= k < j + 1 && dead_opponent(n, g1, #[trigger] nbrs@[k], stone)
                            && connected(n, g1, nbrs@[k], q) {
                        let k = choose|k: int|
                            0 <= k < j + 1 && dead_opponent(n, g1, #[trigger] nbrs@[k], stone)
                                && connected(n, g1, nbrs@[k], q);
                        if k < j {
                            assert(before.contains(q));
                        }
                    }
                    if captured@.contains(q) && !before.contains(q) {
                        assert(nbrs@[j as int] == nb);
                    }
                }
            }
            j = j + 1;
        }
        let ghost c = captures(m0, pos, stone);
        proof {
            assert forall|q: Position| #[trigger] captured@.contains(q) <==> c.contains(q) by {
                if c.contains(q) {
                    let k = choose|k: int|
                        0 <= k < neighbors(n, pos).len() && dead_opponent(
                            n,
                            g1,
                            #[trigger] neighbors(n, pos)[k],
                            stone,
                        ) && connected(n, g1, neighbors(n, pos)[k], q);
                    assert(dead_opponent(n, g1, nbrs@[k], stone));
                }
            }
            assert(captured@.to_set() =~= c);
            captured@.unique_seq_to_set();
            lemma_count_true_bound(marked@);
        }
        let own = self.get_group(pos);
        let own_free = self.has_liberties(&own);
        proof {
            lemma_group_liberty(n, g1, pos, own@);
        }
        if !own_free && captured.len() == 0 {
            self.update_hash(pos, None);
            proof {
                assert(self@.cells =~= m0.cells);
            }
            return Err(GoError::suicidal_move());
        }
        let ghost mut removed: Set<Position> = Set::empty();
        proof {
            lemma_clear_empty(n, g1);
        }
        let mut t: usize = 0;
        while t < captured.len()
            invariant
                self.wf(),
                n == self@.size,
                n2 == n * n,
                self@.keys == m0.keys,
                self@.size == m0.size,
                self@.prev_hash == m0.prev_hash,
                g1.len() == n2,
                t <= captured@.len(),
                forall|k: int| 0 <= k < captured@.len() ==> in_bounds(n, #[trigger] captured@[k]),
                self@.cells == clear(n, g1, removed),
                forall|q: Position| #[trigger]
                    removed.contains(q) <==> exists|u: int| 0 <= u < t && captured@[u] == q,
            decreases captured@.len() - t,
        {
            let q = captured[t];
            proof {
                lemma_clear_insert(n, g1, removed, q);
                lemma_size_fits(self@);
            }
            self.update_hash(q, None);
            proof {
                let old_removed = removed;
                removed = removed.insert(q);
                assert forall|p: Position| #[trigger]
                    removed.contains(p) <==> exists|u: int| 0 <= u < t + 1 && captured@[u] == p by {
                    if p == q {
                        assert(captured@[t as int] == p);
                    }
                    if exists|u: int| 0 <= u < t + 1 && captured@[u] == p {
                        let u = choose|u: int| 0 <= u < t + 1 && captured@[u] == p;
                        if u < t {
                            assert(old_removed.contains(p));
                        }
                    }
                }
            }
            t = t + 1;
        }
        proof {
            assert(removed =~= c);
        }
        let count = captured.len();
        if count == 1 {
            if let Some(prev) = self.previous_hash {
                if prev == self.current_hash {
                    let q = captured[0];
                    proof {
                        assert(c.contains(q));
                        let k = choose|k: int|
                            0 <= k < neighbors(n, pos).len() && dead_opponent(
                                n,
                                g1,
                                #[trigger] neighbors(n, pos)[k],
                                stone,
                            ) && connected(n, g1, neighbors(n, pos)[k], q);
                        lemma_connected_same_color(n, g1, neighbors(n, pos)[k], q);
                        lemma_index_in_range(n, q);
                        lemma_size_fits(self@);
                        lemma_clear_insert(n, g1, Set::empty(), q);
                        lemma_clear_empty(n, g1);
                        assert(Set::empty().insert(q) =~= c);
                    }
                    self.update_hash(q, Some(opp));
                    proof {
                        assert(self@.cells =~= g1);
                    }
                    self.update_hash(pos, None);
                    proof {
                        assert(self@.cells =~= m0.cells);
                    }
                    return Err(GoError::ko_rule_violation());
                }
            }
        }
        if count > 0 {
            self.previous_hash = Some(pre_move_hash);
        }
        Ok(count)
    }

    /// Refuses a placement off the grid or on an occupied cell.
    fn internal_move_validate(&self, pos: Position) -> (r: Result<(), GoError>)
        requires
            self.wf(),
        ensures
            !in_bounds(self@.size, pos) ==> r == Err::<(), GoError>(GoError::OutOfBounds { pos }),
            in_bounds(self@.size, pos) && cell(self@.size, self@.cells, pos) is Some ==> r == Err::<
                (),
                GoError,
            >(GoError::PositionOccupied { pos }),
            in_bounds(self@.size, pos) && cell(self@.size, self@.cells, pos) is None ==> r is Ok,
    {
        if !self.is_on_board(pos) {
            return Err(GoError::out_of_bounds(pos));
        }
        proof {
            lemma_index_in_range(self@.size, pos);
        }
        if self.grid[self.pos_to_index(pos)].is_some() {
            return Err(GoError::position_occupied(pos));
        }
        Ok(())
    }

    /// Adds to `captured` each position of `group` that it does not hold yet,
    /// keeping `marked` as the set of cells that `captured` holds.
    fn mark_group(&self, group: &Vec<Position>, captured: &mut Vec<Position>, marked: &mut Vec<bool>)
        requires
            self.wf(),
            old(marked)@.len() == self@.size * self@.size,
            count_true(old(marked)@) == old(captured)@.len(),
            old(captured)@.no_duplicates(),
            forall|k: int|
                0 <= k < old(captured)@.len() ==> in_bounds(self@.size, #[trigger] old(captured)@[k]),
            forall|q: Position|
                in_bounds(self@.size, q) ==> (old(marked)@[cell_index(self@.size, q)]
                    <==> #[trigger] old(captured)@.contains(q)),
            forall|k: int| 0 <= k < group@.len() ==> in_bounds(self@.size, #[trigger] group@[k]),
        ensures
            final(marked)@.len() == self@.size * self@.size,
            count_true(final(marked)@) == final(captured)@.len(),
            final(captured)@.no_duplicates(),
            forall|k: int|
                0 <= k < final(captured)@.len() ==> in_bounds(
                    self@.size,
                    #[trigger] final(captured)@[k],
                ),
            forall|q: Position|
                in_bounds(self@.size, q) ==> (final(marked)@[cell_index(self@.size, q)]
                    <==> #[trigger] final(captured)@.contains(q)),
            forall|q: Position| #[trigger]
                final(captured)@.contains(q) <==> (old(captured)@.contains(q) || group@.contains(q)),
    {
        let ghost n = self@.size;
        let mut t: usize = 0;
        while t < group.len()
            invariant
                self.wf(),
                n == self@.size,
                marked@.len() == n * n,
                count_true(marked@) == captured@.len(),
                captured@.no_duplicates(),
                t <= group@.len(),
                forall|k: int| 0 <= k < group@.len() ==> in_bounds(n, #[trigger] group@[k]),
                forall|k: int| 0 <= k < captured@.len() ==> in_bounds(n, #[trigger] captured@[k]),
                forall|q: Position|
                    in_bounds(n, q) ==> (marked@[cell_index(n, q)] <==> #[trigger] captured@.contains(
                        q,
                    )),
                forall|q: Position| #[trigger]
                    captured@.contains(q) <==> (old(captured)@.contains(q) || exists|u: int|
                        0 <= u < t && group@[u] == q),
            decreases group@.len() - t,
        {
            let q = group[t];
            proof {
                lemma_index_in_range(n, q);
            }
            let qi = self.pos_to_index(q);
            let ghost before = captured@;
            if !marked[qi] {
                proof {
                    lemma_count_true_set(marked@, qi as int);
                }
                marked.set(qi, true);
                captured.push(q);
                proof {
                    assert(!before.contains(q));
                    assert forall|a: int, b: int|
                        0 <= a < captured@.len() && 0 <= b < captured@.len() && a != b implies captured@[a]
                        != captured@[b] by {
                        if a == captured@.len() - 1 && captured@[b] == q {
                            assert(before[b] == q);
                        }
                        if b == captured@.len() - 1 && captured@[a] == q {
                            assert(before[a] == q);
                        }
                    }
                    assert forall|p: Position| in_bounds(n, p) implies (marked@[cell_index(n, p)]
                        <==> #[trigger] captured@.contains(p)) by {
                        lemma_index_in_range(n, p);
                        if p == q {
                            assert(captured@[captured@.len() - 1] == q);
                        } else {
                            if cell_index(n, p) == cell_index(n, q) {
                                lemma_index_injective(n, p, q);
                            }
                            if captured@.contains(p) {
                                let w = choose|w: int| 0 <= w < captured@.len() && captured@[w] == p;
                                assert(before[w] == p);
                            }
                            if before.contains(p) {
                                let w = choose|w: int| 0 <= w < before.len() && before[w] == p;
                                assert(captured@[w] == p);
                            }
                        }
                    }
                }
            }
            proof {
                assert forall|p: Position| #[trigger]
                    captured@.contains(p) <==> (old(captured)@.contains(p) || exists|u: int|
                        0 <= u < t + 1 && group@[u] == p) by {
                    if before.contains(p) {
                        let w = choose|w: int| 0 <= w < before.len() && before[w] == p;
                        assert(captured@[w] == p);
                    }
                    if captured@.contains(p) && !before.contains(p) {
                        assert(p == q);
                    }
                    if p == q {
                        assert(group@[t as int] == p);
                        if !before.contains(p) {
                            assert(captured@[captured@.len() - 1] == q);
                        }
                    }
                    if exists|u: int| 0 <= u < t + 1 && group@[u] == p {
                        let u = choose|u: int| 0 <= u < t + 1 && group@[u] == p;
                        if u < t {
                            assert(exists|u: int| 0 <= u < t && group@[u] == p);
                        }
                    }
                }
            }
            t = t + 1;
        }
        proof {
            assert forall|p: Position| #[trigger]
                captured@.contains(p) <==> (old(captured)@.contains(p) || group@.contains(p)) by {
                if group@.contains(p) {
                    let u = choose|u: int| 0 <= u < group@.len() && group@[u] == p;
                    assert(exists|u: int| 0 <= u < t && group@[u] == p);
                }
            }
        }
    }

    /// The position hash recomputed from the occupied cells.
    fn calculate_hash(&self) -> (r: u64)
        requires
            self.wf(),
        ensures
            r == hash_of(self@.cells, self@.keys),
    {
        let mut hash: u64 = 0;
        let mut i: usize = 0;
        while i < self.grid.len()
            invariant
                self.wf(),
                i <= self.grid@.len(),
                hash == hash_prefix(self@.cells, self@.keys, i as int),
            decreases self.grid@.len() - i,
        {
            if let Some(s) = self.grid[i] {
                let color_idx: usize = match s {
                    Stone::Black => 0,
                    Stone::White => 1,
                };
                hash = hash ^ self.zobrist_table[2 * i + color_idx];
            } else {
                assert(hash ^ 0u64 == hash) by (bit_vector);
            }
            i = i + 1;
        }
        hash
    }

    /// Puts `stone` (or nothing) at `pos`, taking the old occupant's key out of
    /// the running hash and the new one's in.
    fn update_hash(&mut self, pos: Position, stone: Option<Stone>)
        requires
            old(self).wf(),
            in_bounds(old(self)@.size, pos),
        ensures
            final(self).wf(),
            final(self)@ == (BoardModel {
                cells: old(self)@.cells.update(cell_index(old(self)@.size, pos), stone),
                hash: hash_of(
                    old(self)@.cells.update(cell_index(old(self)@.size, pos), stone),
                    old(self)@.keys,
                ),
                ..old(self)@
            }),
    {
        proof {
            lemma_index_in_range(self@.size, pos);
        }
        let idx = self.pos_to_index(pos);
        let t: u64 = match self.grid[idx] {
            None => 0,
            Some(Stone::Black) => self.zobrist_table[2 * idx],
            Some(Stone::White) => self.zobrist_table[2 * idx + 1],
        };
        let t2: u64 = match stone {
            None => 0,
            Some(Stone::Black) => self.zobrist_table[2 * idx],
            Some(Stone::White) => self.zobrist_table[2 * idx + 1],
        };
        let h = self.current_hash;
        self.current_hash = (h ^ t) ^ t2;
        self.grid.set(idx, stone);
        proof {
            let c0 = old(self)@.cells;
            lemma_hash_set_cell(c0, old(self)@.keys, idx as int, stone);
            assert((h ^ t) ^ t2 == h ^ (t ^ t2)) by (bit_vector);
        }
    }
}

} // verus!

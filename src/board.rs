//! The board state: stones, move numbers, move and capture counters, the ko
//! point and the last move.
use vstd::prelude::*;
use crate::color::StoneColor;
use crate::config::{BoardSize, GoBoardConfig};
use crate::grid::{
    adjacent, cell_index, count_color, count_occupied, in_bounds, lemma_cell_index_bounds,
    lemma_neighbor_seq, neighbor_seq, Grid,
};

verus! {

/// The state of one game. The cells of `stones` and `move_numbers` are stored
/// row by row: the cell of `(x, y)` is at `x * size + y`.
#[derive(Clone, Debug)]
pub struct BoardState {
    pub stones: Vec<Option<StoneColor>>,
    pub move_numbers: Vec<Option<usize>>,
    pub board_size: BoardSize,
    pub move_count: usize,
    pub captured_black: usize,
    pub captured_white: usize,
    pub ko_position: Option<(i32, i32)>,
    pub last_move: Option<(i32, i32)>,
}

/// The settings of the session that owns the board.
pub struct CurrentGoBoardConfig(pub GoBoardConfig);

/// The colour to play next.
pub struct CurrentTurn(pub StoneColor);

/// The moves of a game, for undo and replay.
pub struct GameHistory {
    pub moves: Vec<Move>,
    pub current_index: usize,
}

/// One move: where and by whom it was played, what it took, and its number.
pub struct Move {
    pub position: (i32, i32),
    pub color: StoneColor,
    pub captured_stones: Vec<(i32, i32)>,
    pub move_number: usize,
}

impl Default for BoardState {
    /// An empty 19x19 board.
    fn default() -> (r: BoardState)
        ensures
            r.wf(),
            r.board_size == BoardSize::Nineteen,
            r.is_cleared(),
    {
        BoardState::new(BoardSize::Nineteen)
    }
}

impl BoardState {
    pub open spec fn size(self) -> int {
        self.board_size.spec_value()
    }

    /// The stones of the board as a position.
    pub open spec fn grid(self) -> Grid {
        Grid { size: self.size(), cells: self.stones@ }
    }

    /// The number of the move that put the stone at `p`.
    pub open spec fn number_at(self, p: (i32, i32)) -> Option<usize> {
        if in_bounds(self.size(), p) {
            self.move_numbers@[cell_index(self.size(), p)]
        } else {
            None
        }
    }

    /// The stone grid covers exactly the board.
    pub open spec fn shape_ok(self) -> bool {
        self.stones@.len() == self.size() * self.size()
    }

    /// The state's invariant: both grids cover the board, a cell holds a
    /// stone exactly when it holds a move number, and the stones on the board
    /// together with those captured are no more than the moves played.
    pub open spec fn wf(self) -> bool {
        &&& self.shape_ok()
        &&& self.move_numbers@.len() == self.size() * self.size()
        &&& forall|i: int|
            0 <= i < self.stones@.len() ==> (#[trigger] self.stones@[i] is Some
                <==> self.move_numbers@[i] is Some)
        &&& count_occupied(self.stones@) + self.captured_black + self.captured_white
            <= self.move_count
    }

    /// No stone, no move, no capture, no ko point and no last move.
    pub open spec fn is_cleared(self) -> bool {
        &&& forall|i: int| 0 <= i < self.stones@.len() ==> #[trigger] self.stones@[i] is None
        &&& forall|i: int|
            0 <= i < self.move_numbers@.len() ==> #[trigger] self.move_numbers@[i] is None
        &&& self.move_count == 0
        &&& self.captured_black == 0
        &&& self.captured_white == 0
        &&& self.ko_position is None
        &&& self.last_move is None
    }

    /// An empty board of the given size.
    pub fn new(board_size: BoardSize) -> (r: BoardState)
        ensures
            r.wf(),
            r.board_size == board_size,
            r.is_cleared(),
            forall|p: (i32, i32)| r.grid().at(p) is None,
    {
        let n = board_size.get_value() as usize;
        let (stones, move_numbers) = empty_cells(n * n);
        let r = BoardState {
            stones,
            move_numbers,
            board_size,
            move_count: 0,
            captured_black: 0,
            captured_white: 0,
            ko_position: None,
            last_move: None,
        };
        proof {
            lemma_all_empty_counts(r.stones@);
            lemma_cleared_grid_empty(r);
        }
        r
    }

    /// The stone at `(x, y)`; `None` off the board.
    pub fn get_stone(&self, x: i32, y: i32) -> (r: Option<StoneColor>)
        requires
            self.shape_ok(),
        ensures
            r == self.grid().at((x, y)),
            !in_bounds(self.size(), (x, y)) ==> r is None,
    {
        let n = self.board_size.get_value();
        if 0 <= x && x < n && 0 <= y && y < n {
            self.stones[cell_offset(n, x, y)]
        } else {
            None
        }
    }

    /// The number of the move that put the stone at `(x, y)`; `None` where
    /// there is no stone or off the board.
    pub fn get_move_number(&self, x: i32, y: i32) -> (r: Option<usize>)
        requires
            self.wf(),
        ensures
            r == self.number_at((x, y)),
    {
        let n = self.board_size.get_value();
        if 0 <= x && x < n && 0 <= y && y < n {
            self.move_numbers[cell_offset(n, x, y)]
        } else {
            None
        }
    }

    /// Puts a stone of colour `color` at `(x, y)` when that point is on the
    /// board and empty: the move count goes up by one, the point records it
    /// as its move number, and it becomes the last move. Otherwise nothing
    /// changes and the result is `false`. Neither ko nor suicide is checked.
    pub fn place_stone(&mut self, x: i32, y: i32, color: StoneColor) -> (r: bool)
        requires
            old(self).wf(),
            old(self).move_count < usize::MAX,
        ensures
            final(self).wf(),
            r == old(self).grid().can_place((x, y)),
            r ==> {
                &&& final(self).grid() == old(self).grid().place((x, y), color)
                &&& final(self).move_numbers@ == old(self).move_numbers@.update(
                    cell_index(old(self).size(), (x, y)),
                    Some((old(self).move_count + 1) as usize),
                )
                &&& final(self).move_count == old(self).move_count + 1
                &&& final(self).last_move == Some((x, y))
                &&& final(self).board_size == old(self).board_size
                &&& final(self).captured_black == old(self).captured_black
                &&& final(self).captured_white == old(self).captured_white
                &&& final(self).ko_position == old(self).ko_position
            },
            !r ==> *final(self) == *old(self),
    {
        let n = self.board_size.get_value();
        if 0 <= x && x < n && 0 <= y && y < n {
            let idx = cell_offset(n, x, y);
            if self.stones[idx].is_none() {
                proof {
                    lemma_count_occupied_update(self.stones@, idx as int, Some(color));
                }
                self.move_count = self.move_count + 1;
                self.stones.set(idx, Some(color));
                self.move_numbers.set(idx, Some(self.move_count));
                self.last_move = Some((x, y));
                return true;
            }
        }
        false
    }

    /// Takes away the stone at `(x, y)` and its move number; nothing happens
    /// off the board. The move count and the capture counters stay as they are.
    pub fn remove_stone(&mut self, x: i32, y: i32)
        requires
            old(self).wf(),
        ensures
            final(self).wf(),
            in_bounds(old(self).size(), (x, y)) ==> {
                &&& final(self).stones@ == old(self).stones@.update(
                    cell_index(old(self).size(), (x, y)),
                    None,
                )
                &&& final(self).move_numbers@ == old(self).move_numbers@.update(
                    cell_index(old(self).size(), (x, y)),
                    None,
                )
            },
            !in_bounds(old(self).size(), (x, y)) ==> {
                &&& final(self).stones@ == old(self).stones@
                &&& final(self).move_numbers@ == old(self).move_numbers@
            },
            final(self).board_size == old(self).board_size,
            final(self).move_count == old(self).move_count,
            final(self).captured_black == old(self).captured_black,
            final(self).captured_white == old(self).captured_white,
            final(self).ko_position == old(self).ko_position,
            final(self).last_move == old(self).last_move,
    {
        let n = self.board_size.get_value();
        if 0 <= x && x < n && 0 <= y && y < n {
            let idx = cell_offset(n, x, y);
            proof {
                lemma_count_occupied_update(self.stones@, idx as int, None);
            }
            self.stones.set(idx, None);
            self.move_numbers.set(idx, None);
        }
    }

    /// Empties the board and resets every counter, the ko point and the last
    /// move; the board size stays.
    pub fn clear(&mut self)
        ensures
            final(self).wf(),
            final(self).is_cleared(),
            final(self).board_size == old(self).board_size,
            forall|p: (i32, i32)| final(self).grid().at(p) is None,
    {
        let n = self.board_size.get_value() as usize;
        let (stones, move_numbers) = empty_cells(n * n);
        self.stones = stones;
        self.move_numbers = move_numbers;
        self.move_count = 0;
        self.captured_black = 0;
        self.captured_white = 0;
        self.ko_position = None;
        self.last_move = None;
        proof {
            lemma_all_empty_counts(self.stones@);
            lemma_cleared_grid_empty(*self);
        }
    }

    /// The orthogonal neighbours of `(x, y)` that lie on the board, in the
    /// order +y, -y, +x, -x.
    pub fn get_neighbors(&self, x: i32, y: i32) -> (r: Vec<(i32, i32)>)
        ensures
            r@ == neighbor_seq(self.size(), (x, y)),
            r@.no_duplicates(),
            r@.len() <= 4,
            forall|d: (i32, i32)|
                r@.contains(d) <==> in_bounds(self.size(), d) && adjacent((x, y), d),
    {
        let n = self.board_size.get_value();
        let mut r: Vec<(i32, i32)> = Vec::new();
        if 0 <= x && x < n && -1 <= y && y < n - 1 {
            r.push((x, y + 1));
        }
        if 0 <= x && x < n && 1 <= y && y <= n {
            r.push((x, y - 1));
        }
        if -1 <= x && x < n - 1 && 0 <= y && y < n {
            r.push((x + 1, y));
        }
        if 1 <= x && x <= n && 0 <= y && y < n {
            r.push((x - 1, y));
        }
        proof {
            assert(r@ =~= neighbor_seq(self.size(), (x, y)));
            lemma_neighbor_seq(self.size(), (x, y));
        }
        r
    }
}

/// The position in the cell grids of an on-board point.
pub fn cell_offset(n: i32, x: i32, y: i32) -> (r: usize)
    requires
        9 <= n <= 19,
        in_bounds(n as int, (x, y)),
    ensures
        r == cell_index(n as int, (x, y)),
        r < n * n,
{
    proof {
        lemma_cell_index_bounds(n as int, (x, y));
        assert(x * n + y <= 19 * 19) by (nonlinear_arith)
            requires
                0 <= x < n,
                0 <= y < n,
                n <= 19,
        ;
    }
    (x * n + y) as usize
}

/// Two grids of `len` empty cells.
fn empty_cells(len: usize) -> (r: (Vec<Option<StoneColor>>, Vec<Option<usize>>))
    ensures
        r.0@.len() == len,
        r.1@.len() == len,
        forall|i: int| 0 <= i < len ==> #[trigger] r.0@[i] is None,
        forall|i: int| 0 <= i < len ==> #[trigger] r.1@[i] is None,
{
    let mut stones: Vec<Option<StoneColor>> = Vec::new();
    let mut numbers: Vec<Option<usize>> = Vec::new();
    let mut i: usize = 0;
    while i < len
        invariant
            i <= len,
            stones@.len() == i,
            numbers@.len() == i,
            forall|j: int| 0 <= j < i ==> #[trigger] stones@[j] is None,
            forall|j: int| 0 <= j < i ==> #[trigger] numbers@[j] is None,
        decreases len - i,
    {
        stones.push(None);
        numbers.push(None);
        i = i + 1;
    }
    (stones, numbers)
}

/// Changing one cell changes the number of occupied cells by what it held
/// and what it now holds.
pub proof fn lemma_count_occupied_update(cells: Seq<Option<StoneColor>>, i: int, v: Option<StoneColor>)
    requires
        0 <= i < cells.len(),
    ensures
        count_occupied(cells.update(i, v)) + (if cells[i] is Some { 1int } else { 0int })
            == count_occupied(cells) + (if v is Some { 1int } else { 0int }),
    decreases cells.len(),
{
    let u = cells.update(i, v);
    if i == cells.len() - 1 {
        assert(u.drop_last() =~= cells.drop_last());
    } else {
        assert(u.drop_last() =~= cells.drop_last().update(i, v));
        lemma_count_occupied_update(cells.drop_last(), i, v);
    }
}

/// A grid with no stone has no stone of either colour and no occupied cell.
pub proof fn lemma_all_empty_counts(cells: Seq<Option<StoneColor>>)
    requires
        forall|i: int| 0 <= i < cells.len() ==> #[trigger] cells[i] is None,
    ensures
        count_occupied(cells) == 0,
        count_color(cells, StoneColor::Black) == 0,
        count_color(cells, StoneColor::White) == 0,
    decreases cells.len(),
{
    if cells.len() > 0 {
        let shorter = cells.drop_last();
        assert forall|i: int| 0 <= i < shorter.len() implies #[trigger] shorter[i] is None by {
            assert(cells[i] is None);
        }
        lemma_all_empty_counts(shorter);
        assert(cells[cells.len() - 1] is None);
    }
}

proof fn lemma_cleared_grid_empty(s: BoardState)
    requires
        s.shape_ok(),
        forall|i: int| 0 <= i < s.stones@.len() ==> #[trigger] s.stones@[i] is None,
    ensures
        forall|p: (i32, i32)| s.grid().at(p) is None,
{
    assert forall|p: (i32, i32)| s.grid().at(p) is None by {
        if in_bounds(s.size(), p) {
            lemma_cell_index_bounds(s.size(), p);
        }
    }
}

} // verus!

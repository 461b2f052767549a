use crate::game_const::{BOARD_SIZE, CELL_COUNT};
use crate::stone::Occupy;
use vstd::prelude::*;
use vstd::string::StringExecFns;

verus! {

/// Failure reported by the board's write primitive.
#[derive(Debug, PartialEq, Eq, Structural)]
pub enum BoardError {
    PositionOccupied,
}

/// A coordinate on the board. A value is meaningful only when both
/// coordinates lie below [`BOARD_SIZE`]; the validating constructor
/// [`BoardPosition::new`] never hands out anything else.
#[derive(Debug, Clone, Copy, PartialEq, Eq, Structural)]
pub struct BoardPosition {
    pub x: usize,
    pub y: usize,
}

impl BoardPosition {
    /// Both coordinates are on the board.
    pub open spec fn wf(self) -> bool {
        self.x < BOARD_SIZE && self.y < BOARD_SIZE
    }

    /// Flat row-major index of this position.
    pub open spec fn idx(self) -> int {
        self.x * BOARD_SIZE + self.y
    }

    /// The coordinate pair this position names in the rule model.
    pub open spec fn cellp(self) -> (int, int) {
        (self.x as int, self.y as int)
    }

    /// Validating factory: yields a position exactly when the coordinates
    /// are in range.
    pub fn new(x_: usize, y_: usize) -> (r: Option<Self>)
        ensures
            r is Some <==> x_ < BOARD_SIZE && y_ < BOARD_SIZE,
            r is Some ==> r->0 == (BoardPosition { x: x_, y: y_ }),
    {
        if x_ < BOARD_SIZE && y_ < BOARD_SIZE {
            Some(Self { x: x_, y: y_ })
        } else {
            None
        }
    }

    /// Flat row-major index, as an executable value.
    pub fn flat_index(&self) -> (i: usize)
        requires
            self.wf(),
        ensures
            i == self.idx(),
            i < CELL_COUNT,
    {
        self.x * BOARD_SIZE + self.y
    }
}

/// The grid of cell states, stored row-major, with no game-rule knowledge.
pub struct Board {
    grid: Vec<Occupy>,
}

impl View for Board {
    type V = Seq<Occupy>;

    closed spec fn view(&self) -> Seq<Occupy> {
        self.grid@
    }
}

impl Board {
    /// The grid holds exactly one state per board cell.
    pub open spec fn wf(self) -> bool {
        self@.len() == CELL_COUNT
    }

    /// A fresh board with every cell free.
    pub fn new() -> (b: Board)
        ensures
            b.wf(),
            forall|i: int| 0 <= i < CELL_COUNT ==> b@[i] == Occupy::Free,
    {
        let mut grid: Vec<Occupy> = Vec::new();
        let mut i: usize = 0;
        while i < CELL_COUNT
            invariant
                i <= CELL_COUNT,
                grid@.len() == i,
                forall|j: int| 0 <= j < i ==> grid@[j] == Occupy::Free,
            decreases CELL_COUNT - i,
        {
            grid.push(Occupy::Free);
            i += 1;
        }
        Board { grid }
    }

    /// Writes `stone_type` at `pos` if that cell is free; rejects the write
    /// without touching anything otherwise.
    pub fn set_stone(&mut self, pos: BoardPosition, stone_type: Occupy) -> (r: Result<
        (),
        BoardError,
    >)
        requires
            old(self).wf(),
            pos.wf(),
        ensures
            final(self).wf(),
            r is Ok <==> old(self)@[pos.idx()] == Occupy::Free,
            r is Ok ==> final(self)@ == old(self)@.update(pos.idx(), stone_type),
            r is Err ==> final(self)@ == old(self)@ && r->Err_0 == BoardError::PositionOccupied,
    {
        let i = pos.flat_index();
        if self.grid[i] != Occupy::Free {
            return Err(BoardError::PositionOccupied);
        }
        self.grid[i] = stone_type;
        Ok(())
    }

    /// Sets the cell at `pos` to free; clearing an already-free cell is a
    /// harmless no-op.
    pub fn remove_stone(&mut self, pos: BoardPosition)
        requires
            old(self).wf(),
            pos.wf(),
        ensures
            final(self).wf(),
            final(self)@ == old(self)@.update(pos.idx(), Occupy::Free),
    {
        let i = pos.flat_index();
        self.grid[i] = Occupy::Free;
    }

    /// Pure read of one cell.
    pub fn get(&self, pos: &BoardPosition) -> (r: Occupy)
        requires
            self.wf(),
            pos.wf(),
        ensures
            r == self@[pos.idx()],
    {
        self.grid[pos.flat_index()]
    }

    /// A copy of the raw grid, used by the rule engine to snapshot board
    /// states for the ko comparison.
    pub fn snapshot(&self) -> (s: Vec<Occupy>)
        requires
            self.wf(),
        ensures
            s@ == self@,
    {
        let mut s: Vec<Occupy> = Vec::new();
        let mut i: usize = 0;
        while i < self.grid.len()
            invariant
                i <= self.grid@.len(),
                s@.len() == i,
                forall|j: int| 0 <= j < i ==> s@[j] == self.grid@[j],
            decreases self.grid@.len() - i,
        {
            s.push(self.grid[i]);
            i += 1;
        }
        proof {
            assert(s@ =~= self@);
        }
        s
    }

    /// Deterministic serialization: one symbol per cell in row-major order,
    /// over the fixed alphabet `'0'` (free), `'1'` (black), `'2'` (white).
    pub fn get_board_string(&self) -> (s: String)
        requires
            self.wf(),
        ensures
            s@.len() == CELL_COUNT,
            forall|i: int| 0 <= i < CELL_COUNT ==> s@[i] == self@[i].symbol(),
    {
        let mut s = String::new();
        let mut i: usize = 0;
        proof {
            reveal_strlit("0");
            reveal_strlit("1");
            reveal_strlit("2");
        }
        while i < CELL_COUNT
            invariant
                self.wf(),
                i <= CELL_COUNT,
                s@.len() == i,
                "0"@ =~= seq!['0'],
                "1"@ =~= seq!['1'],
                "2"@ =~= seq!['2'],
                forall|j: int| 0 <= j < i ==> s@[j] == self@[j].symbol(),
            decreases CELL_COUNT - i,
        {
            match self.grid[i] {
                Occupy::Free => s.append("0"),
                Occupy::Black => s.append("1"),
                Occupy::White => s.append("2"),
            }
            i += 1;
        }
        s
    }
}

} // verus!

//! A self-contained engine that bundles a board with the rule engine, for
//! drivers that want a single object to play against.

use crate::board::{Board, BoardPosition};
use crate::game_const::{BOARD_SIZE, CELL_COUNT};
use crate::model::{cell_index, group_of, liberties_of, move_accepted, move_result, valid_cell};
use crate::stone::Occupy;
use vstd::prelude::*;

verus! {

/// A board and the rules that govern it, owned together.
pub struct GoLogic {
    board: Board,
    rule: crate::rule::Rule,
}

impl GoLogic {
    /// The owned board's cells, row-major.
    pub closed spec fn grid(self) -> Seq<Occupy> {
        self.board@
    }

    /// The colour whose turn it is.
    pub closed spec fn player(self) -> Occupy {
        self.rule.player()
    }

    /// The recorded board snapshots, one per accepted move, oldest first.
    pub closed spec fn hist(self) -> Seq<Seq<Occupy>> {
        self.rule.hist()
    }

    /// The recorded mover colours, one per accepted move, oldest first.
    pub closed spec fn turns(self) -> Seq<Occupy> {
        self.rule.turns()
    }

    /// Both halves are internally consistent.
    pub closed spec fn wf(self) -> bool {
        self.board.wf() && self.rule.wf()
    }

    /// What well-formedness guarantees to a caller: the grid spans the
    /// whole board, the player to move is a real colour, and the recorded
    /// histories run in step, holding board-shaped snapshots and stone
    /// colours only.
    pub proof fn lemma_wf_consequences(self)
        requires
            self.wf(),
        ensures
            self.grid().len() == CELL_COUNT,
            self.player().is_stone(),
            self.turns().len() == self.hist().len(),
            forall|i: int|
                0 <= i < self.hist().len() ==> (#[trigger] self.hist()[i]).len() == CELL_COUNT,
            forall|i: int| 0 <= i < self.turns().len() ==> (#[trigger] self.turns()[i]).is_stone(),
    {
        self.rule.lemma_wf_consequences();
    }

    /// A fresh game: an empty board, black to move, nothing recorded.
    pub fn new() -> (r: GoLogic)
        ensures
            r.wf(),
            forall|i: int| 0 <= i < CELL_COUNT ==> r.grid()[i] == Occupy::Free,
            r.grid().len() == CELL_COUNT,
            r.player() == Occupy::Black,
            r.hist() == Seq::<Seq<Occupy>>::empty(),
            r.turns() == Seq::<Occupy>::empty(),
    {
        GoLogic { board: Board::new(), rule: crate::rule::Rule::new() }
    }

    /// Whether black is to move.
    pub fn is_blakc_turn(&self) -> (r: bool)
        ensures
            r == (self.player() == Occupy::Black),
    {
        self.rule.is_black_turn()
    }

    /// Whether a signed coordinate pair lies on the board.
    fn in_bounds(&self, x: i8, y: i8) -> (r: bool)
        ensures
            r == valid_cell((x as int, y as int)),
    {
        x >= 0 && x < BOARD_SIZE as i8 && y >= 0 && y < BOARD_SIZE as i8
    }

    /// Deterministic serialization of the owned board, one symbol per cell
    /// in row-major order: `'0'` free, `'1'` black, `'2'` white.
    pub fn get_board_string(&self) -> (s: String)
        requires
            self.wf(),
        ensures
            s@.len() == CELL_COUNT,
            forall|i: int| 0 <= i < CELL_COUNT ==> s@[i] == self.grid()[i].symbol(),
    {
        self.board.get_board_string()
    }

    /// Flood-fill probe of the stone at `(x, y)`: its group's exact liberty
    /// count and the list of every member cell.
    pub fn get_group_and_liberties(&mut self, x: usize, y: usize) -> (r: (i32, Vec<(usize, usize)>))
        requires
            old(self).wf(),
            x < BOARD_SIZE,
            y < BOARD_SIZE,
            old(self).grid()[cell_index((x as int, y as int))].is_stone(),
        ensures
            final(self).wf(),
            final(self).grid() == old(self).grid(),
            final(self).player() == old(self).player(),
            final(self).hist() == old(self).hist(),
            final(self).turns() == old(self).turns(),
            liberties_of(old(self).grid(), (x as int, y as int)).finite(),
            r.0 as int == liberties_of(old(self).grid(), (x as int, y as int)).len(),
            0 <= r.0 <= CELL_COUNT,
            crate::model::cell_set(r.1@) == group_of(old(self).grid(), (x as int, y as int)),
            r.1@.no_duplicates(),
            r.1@.len() <= CELL_COUNT,
    {
        let pos = BoardPosition { x, y };
        self.rule.get_group_and_liberties(&pos, &self.board)
    }

    /// Plays the current player's stone at `(x, y)` if the coordinates are
    /// on the board and the move is legal, applying captures, recording the
    /// position and passing the turn; otherwise changes nothing and returns
    /// `false`.
    pub fn place_stone(&mut self, x: i8, y: i8) -> (r: bool)
        requires
            old(self).wf(),
        ensures
            final(self).wf(),
            r == (valid_cell((x as int, y as int)) && move_accepted(
                old(self).grid(),
                old(self).hist(),
                (x as int, y as int),
                old(self).player(),
            )),
            r ==> final(self).grid() == move_result(
                old(self).grid(),
                (x as int, y as int),
                old(self).player(),
            ),
            r ==> final(self).hist() == old(self).hist().push(final(self).grid()),
            r ==> final(self).turns() == old(self).turns().push(old(self).player()),
            r ==> final(self).player() == old(self).player().spec_opposite(),
            !r ==> final(self).grid() == old(self).grid(),
            !r ==> final(self).hist() == old(self).hist(),
            !r ==> final(self).turns() == old(self).turns(),
            !r ==> final(self).player() == old(self).player(),
    {
        if !self.in_bounds(x, y) {
            return false;
        }
        let pos = BoardPosition { x: x as usize, y: y as usize };
        self.rule.set_stone(&pos, &mut self.board)
    }
}

} // verus!

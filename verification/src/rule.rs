//! The rule engine: turn bookkeeping, flood-fill group and liberty
//! computation, capture, suicide rejection and simple-ko detection.

use crate::board::{Board, BoardPosition};
use crate::game_const::{BOARD_SIZE, CELL_COUNT};
use crate::model::{
    adjacent, after_place, all_cells, board_wf, captured_by, captures_something, cell, cell_index,
    cell_set, clear_cells, connected, group_of, has_liberty, ko_blocked, lemma_all_cells_finite,
    lemma_cell_index_injective, lemma_cell_set_drop_last, lemma_cell_set_push, lemma_clear_empty,
    lemma_clear_insert, lemma_clear_union, lemma_connected_in_closed, lemma_connected_member,
    lemma_connected_refl, lemma_connected_step, lemma_has_liberty_len, lemma_mark_cell,
    liberties_of, move_accepted, move_captures, move_result, move_shape_ok, unvisited_set,
    valid_cell,
};
use crate::stone::Occupy;
use vstd::pervasive::VecAdditionalExecFns;
use vstd::prelude::*;
use vstd::set_lib::lemma_len_subset;

verus! {

/// Failure reported when the engine's own turn invariant is broken.
#[derive(Debug, PartialEq, Eq, Structural)]
pub enum RuleError {
    WrongPlayerSide,
}

/// The rule engine: whose turn it is, a reusable flood-fill visitation
/// buffer, and the parallel histories of board snapshots and movers.
pub struct Rule {
    current_player: Occupy,
    visited: Vec<bool>,
    board_history: Vec<Vec<Occupy>>,
    turn_history: Vec<Occupy>,
}

impl Rule {
    /// The colour whose turn it is.
    pub closed spec fn player(self) -> Occupy {
        self.current_player
    }

    /// The recorded board snapshots, one per accepted move, oldest first.
    pub closed spec fn hist(self) -> Seq<Seq<Occupy>> {
        self.board_history@.map_values(|v: Vec<Occupy>| v@)
    }

    /// The recorded mover colours, one per accepted move, oldest first.
    pub closed spec fn turns(self) -> Seq<Occupy> {
        self.turn_history@
    }

    /// Internal consistency: the player to move is a real colour, the
    /// scratch buffer spans the board, and the two histories run in step,
    /// holding board-shaped snapshots and stone colours only.
    pub closed spec fn wf(self) -> bool {
        &&& self.current_player.is_stone()
        &&& self.visited@.len() == CELL_COUNT
        &&& self.turn_history@.len() == self.board_history@.len()
        &&& forall|i: int|
            0 <= i < self.board_history@.len() ==> board_wf(#[trigger] self.board_history@[i]@)
        &&& forall|i: int|
            0 <= i < self.turn_history@.len() ==> (#[trigger] self.turn_history@[i]).is_stone()
    }

    /// What well-formedness guarantees to a caller: the player to move is a
    /// real colour — never `Free` — and the recorded histories run in step,
    /// holding board-shaped snapshots and stone colours only.
    pub proof fn lemma_wf_consequences(self)
        requires
            self.wf(),
        ensures
            self.player().is_stone(),
            self.turns().len() == self.hist().len(),
            forall|i: int|
                0 <= i < self.hist().len() ==> (#[trigger] self.hist()[i]).len() == CELL_COUNT,
            forall|i: int| 0 <= i < self.turns().len() ==> (#[trigger] self.turns()[i]).is_stone(),
    {
        assert forall|i: int|
            0 <= i < self.hist().len() implies (#[trigger] self.hist()[i]).len() == CELL_COUNT by {
            assert(self.hist()[i] == self.board_history@[i]@);
            assert(board_wf(self.board_history@[i]@));
        }
    }

    /// A fresh engine: black moves first, nothing played yet.
    pub fn new() -> (r: Rule)
        ensures
            r.wf(),
            r.player() == Occupy::Black,
            r.hist() == Seq::<Seq<Occupy>>::empty(),
            r.turns() == Seq::<Occupy>::empty(),
    {
        let mut visited: Vec<bool> = Vec::new();
        let mut i: usize = 0;
        while i < CELL_COUNT
            invariant
                i <= CELL_COUNT,
                visited@.len() == i,
            decreases CELL_COUNT - i,
        {
            visited.push(false);
            i += 1;
        }
        let r = Rule {
            current_player: Occupy::Black,
            visited,
            board_history: Vec::new(),
            turn_history: Vec::new(),
        };
        proof {
            assert(r.hist() =~= Seq::<Seq<Occupy>>::empty());
        }
        r
    }

    /// Whether black is to move.
    pub fn is_black_turn(&self) -> (r: bool)
        ensures
            r == (self.player() == Occupy::Black),
    {
        self.current_player == Occupy::Black
    }

    /// Hands the turn to the other player. Under the engine invariant the
    /// current player always holds a real colour, so this cannot fail.
    fn change_side(&mut self) -> (r: Result<(), RuleError>)
        requires
            old(self).wf(),
        ensures
            final(self).wf(),
            r is Ok,
            final(self).player() == old(self).player().spec_opposite(),
            final(self).hist() == old(self).hist(),
            final(self).turns() == old(self).turns(),
            final(self).visited == old(self).visited,
    {
        match self.current_player {
            Occupy::Black => {
                self.current_player = Occupy::White;
                Ok(())
            },
            Occupy::White => {
                self.current_player = Occupy::Black;
                Ok(())
            },
            _ => Err(RuleError::WrongPlayerSide),
        }
    }

    /// Clears the visitation scratch buffer ahead of a flood-fill probe.
    fn reset_visited(&mut self)
        requires
            old(self).wf(),
        ensures
            final(self).wf(),
            final(self).visited@.len() == CELL_COUNT,
            forall|i: int| 0 <= i < CELL_COUNT ==> !final(self).visited@[i],
            final(self).current_player == old(self).current_player,
            final(self).board_history == old(self).board_history,
            final(self).turn_history == old(self).turn_history,
    {
        let mut fresh: Vec<bool> = Vec::new();
        let mut i: usize = 0;
        while i < CELL_COUNT
            invariant
                i <= CELL_COUNT,
                fresh@.len() == i,
                forall|j: int| 0 <= j < i ==> !fresh@[j],
            decreases CELL_COUNT - i,
        {
            fresh.push(false);
            i += 1;
        }
        self.visited = fresh;
    }

    /// Flood-fill probe from `pos`, which must hold a stone: returns the
    /// exact liberty count of that stone's group together with the list of
    /// every member cell of the group.
    #[verifier::loop_isolation(false)]
    pub fn get_group_and_liberties(&mut self, pos: &BoardPosition, board: &Board) -> (r: (
        i32,
        Vec<(usize, usize)>,
    ))
        requires
            old(self).wf(),
            board.wf(),
            pos.wf(),
            board@[pos.idx()].is_stone(),
        ensures
            final(self).wf(),
            final(self).player() == old(self).player(),
            final(self).hist() == old(self).hist(),
            final(self).turns() == old(self).turns(),
            liberties_of(board@, pos.cellp()).finite(),
            r.0 as int == liberties_of(board@, pos.cellp()).len(),
            0 <= r.0 <= CELL_COUNT,
            cell_set(r.1@) == group_of(board@, pos.cellp()),
            r.1@.no_duplicates(),
            r.1@.len() <= CELL_COUNT,
            forall|k: int|
                0 <= k < r.1@.len() ==> ((#[trigger] r.1@[k]).0 < BOARD_SIZE && r.1@[k].1
                    < BOARD_SIZE),
    {
        self.reset_visited();
        let mut stack: Vec<(usize, usize)> = Vec::new();
        let mut group: Vec<(usize, usize)> = Vec::new();
        let mut liberties: i32 = 0;
        let color = board.get(pos);
        let ghost b = board@;
        let ghost s0 = pos.cellp();
        let ghost mut libs: Set<(int, int)> = Set::empty();

        proof {
            lemma_all_cells_finite();
            assert(unvisited_set(self.visited@).subset_of(all_cells()));
            vstd::set_lib::lemma_set_subset_finite(all_cells(), unvisited_set(self.visited@));
            lemma_len_subset(unvisited_set(self.visited@), all_cells());
            lemma_connected_refl(b, s0);
            lemma_cell_set_push(Seq::<(usize, usize)>::empty(), (pos.x, pos.y));
            assert(cell_set(Seq::<(usize, usize)>::empty()) =~= Set::<(int, int)>::empty());
        }
        stack.push((pos.x, pos.y));
        let ip = pos.flat_index();
        let ghost vis0 = self.visited@;
        proof {
            lemma_mark_cell(vis0, s0);
        }
        self.visited.set(ip, true);
        proof {
            assert forall|q: (int, int)|
                valid_cell(q) && #[trigger] self.visited@[cell_index(q)] implies q == s0 by {
                if cell_index(q) == pos.idx() {
                    lemma_cell_index_injective(q, s0);
                }
            }
            assert(flood_core(b, s0, self.visited@, stack@, group@, libs, liberties as int));
        }

        while stack.len() > 0
            invariant
                self.wf(),
                flood_core(b, s0, self.visited@, stack@, group@, libs, liberties as int),
                group_closed(cell_set(group@), self.visited@),
                self.current_player == old(self).current_player,
                self.board_history == old(self).board_history,
                self.turn_history == old(self).turn_history,
            decreases unvisited_set(self.visited@).len() * 5 + stack@.len(),
        {
            let ghost m0: int = unvisited_set(self.visited@).len() as int * 5 + stack@.len() as int;
            let ghost stack_pre = stack@;
            let cur = stack.pop().unwrap();
            let (cx, cy) = cur;
            let ghost curp = (cx as int, cy as int);
            proof {
                lemma_cell_set_drop_last(stack_pre);
                assert(cell_set(stack_pre).contains(curp));
            }
            let ghost group_pre = group@;
            proof {
                assert(stack_pre[stack_pre.len() - 1] == cur);
                assert forall|i: int| 0 <= i < group_pre.len() implies group_pre[i] != cur by {
                    assert(group_pre[i] != stack_pre[stack_pre.len() - 1]);
                }
            }
            group.push(cur);
            proof {
                lemma_cell_set_push(group_pre, cur);
            }
            let ns = neighbor_list(cx, cy);
            let mut k: usize = 0;
            while k < ns.len()
                invariant
                    self.wf(),
                    flood_core(b, s0, self.visited@, stack@, group@, libs, liberties as int),
                    group@ == group_pre.push(cur),
                    group_closed(cell_set(group_pre), self.visited@),
                    forall|j: int|
                        0 <= j < k ==> self.visited@[cell_index(
                            ((#[trigger] ns@[j]).0 as int, ns@[j].1 as int),
                        )],
                    unvisited_set(self.visited@).len() * 5 + stack@.len() <= m0 - 1,
                    k <= ns@.len(),
                    self.current_player == old(self).current_player,
                    self.board_history == old(self).board_history,
                    self.turn_history == old(self).turn_history,
                decreases ns@.len() - k,
            {
                let (nx, ny) = ns[k];
                let ghost np = (nx as int, ny as int);
                proof {
                    assert(0 <= k < ns@.len() && ns@[k as int] == (nx, ny));
                    assert(cell_set(ns@).contains(np));
                    assert(adjacent(np, curp));
                }
                let npos = BoardPosition { x: nx, y: ny };
                let ni = npos.flat_index();
                if !self.visited[ni] {
                    let ghost visp = self.visited@;
                    proof {
                        lemma_mark_cell(visp, np);
                    }
                    self.visited.set(ni, true);
                    proof {
                        assert forall|q: (int, int)|
                            valid_cell(q) && #[trigger] self.visited@[cell_index(q)] && q
                                != np implies visp[cell_index(q)] by {
                            if cell_index(q) == cell_index(np) {
                                lemma_cell_index_injective(q, np);
                            }
                        }
                    }
                    let ncell = board.get(&npos);
                    if ncell == color {
                        let ghost stack_b = stack@;
                        proof {
                            assert forall|i: int|
                                0 <= i < stack_b.len() implies stack_b[i] != (nx, ny) by {
                                if stack_b[i] == (nx, ny) {
                                    assert(cell_set(stack_b).contains(np));
                                }
                            }
                            assert forall|i: int|
                                0 <= i < group@.len() implies group@[i] != (nx, ny) by {
                                if group@[i] == (nx, ny) {
                                    assert(cell_set(group@).contains(np));
                                }
                            }
                        }
                        stack.push((nx, ny));
                        proof {
                            lemma_cell_set_push(stack_b, (nx, ny));
                            lemma_connected_step(b, s0, curp, np);
                        }
                    } else if ncell == Occupy::Free {
                        proof {
                            assert(libs.insert(np).subset_of(all_cells()));
                            lemma_all_cells_finite();
                            lemma_len_subset(libs.insert(np), all_cells());
                            assert(!libs.contains(np));
                        }
                        liberties = liberties + 1;
                        proof {
                            libs = libs.insert(np);
                        }
                    }
                }
                k += 1;
            }
            proof {
                assert forall|g: (int, int), n: (int, int)|
                    #[trigger] cell_set(group@).contains(g) && #[trigger] adjacent(
                        n,
                        g,
                    ) implies self.visited@[cell_index(n)] by {
                    if g == curp {
                        assert(cell_set(ns@).contains(n));
                        let j = choose|j: int|
                            0 <= j < ns@.len() && n == ((#[trigger] ns@[j]).0 as int, ns@[j].1 as int);
                        assert(self.visited@[cell_index(n)]);
                    } else {
                        assert(cell_set(group_pre).contains(g));
                    }
                }
            }
        }

        proof {
            let gs = cell_set(group@);
            assert(gs.contains(s0));
            assert forall|g: (int, int), n: (int, int)|
                gs.contains(g) && #[trigger] adjacent(g, n) && cell(b, n) == cell(
                    b,
                    s0,
                ) implies gs.contains(n) by {
                assert(adjacent(n, g));
                assert(self.visited@[cell_index(n)]);
                assert(valid_cell(n));
            }
            assert forall|q: (int, int)| #[trigger]
                group_of(b, s0).contains(q) implies gs.contains(q) by {
                assert(connected(b, s0, q));
                lemma_connected_in_closed(b, s0, q, gs);
            }
            assert(gs =~= group_of(b, s0));
            assert forall|q: (int, int)| #[trigger]
                liberties_of(b, s0).contains(q) implies libs.contains(q) by {
                let m = choose|m: (int, int)| #[trigger] adjacent(q, m) && connected(b, s0, m);
                assert(group_of(b, s0).contains(m));
                assert(gs.contains(m));
                assert(self.visited@[cell_index(q)]);
                assert(valid_cell(q));
            }
            assert forall|q: (int, int)| #[trigger]
                libs.contains(q) implies liberties_of(b, s0).contains(q) by {
                let m = choose|m: (int, int)| #[trigger] adjacent(q, m) && cell_set(
                    group@,
                ).contains(m);
                assert(connected(b, s0, m));
            }
            assert(libs =~= liberties_of(b, s0));
            lemma_all_cells_finite();
            lemma_len_subset(libs, all_cells());
            assert forall|k: int|
                0 <= k < group@.len() implies ((#[trigger] group@[k]).0 < BOARD_SIZE && group@[k].1
                < BOARD_SIZE) by {
                assert(cell_set(group@).contains((group@[k].0 as int, group@[k].1 as int)));
            }
        }
        (liberties, group)
    }

    /// Simple ko: whether committing a move whose resulting position is
    /// `move_state` would reproduce the position from two plies back.
    fn is_ko_violation(&self, move_state: &Vec<Occupy>) -> (r: bool)
        ensures
            r == ko_blocked(self.hist(), move_state@),
    {
        let hlen = self.board_history.len();
        if hlen > 1 {
            let same = boards_equal(move_state, &self.board_history[hlen - 2]);
            proof {
                assert(self.hist()[hlen - 2] == self.board_history@[hlen - 2]@);
            }
            same
        } else {
            false
        }
    }

    /// Physically removes every member of a captured group from the board.
    #[verifier::loop_isolation(false)]
    fn capture_group(&self, group: &Vec<(usize, usize)>, board: &mut Board)
        requires
            old(board).wf(),
            forall|k: int|
                0 <= k < group@.len() ==> ((#[trigger] group@[k]).0 < BOARD_SIZE && group@[k].1
                    < BOARD_SIZE),
        ensures
            final(board).wf(),
            final(board)@ == clear_cells(old(board)@, cell_set(group@)),
    {
        let ghost b0 = board@;
        let ghost mut done: Set<(int, int)> = Set::empty();
        proof {
            lemma_clear_empty(b0);
        }
        let mut j: usize = 0;
        while j < group.len()
            invariant
                j <= group@.len(),
                board.wf(),
                board@ == clear_cells(b0, done),
                forall|q: (int, int)| #[trigger]
                    done.contains(q) ==> cell_set(group@).contains(q),
                forall|t: int|
                    0 <= t < j ==> done.contains(((#[trigger] group@[t]).0 as int, group@[t].1 as int)),
            decreases group@.len() - j,
        {
            let (gx, gy) = group[j];
            let ghost gq = (gx as int, gy as int);
            proof {
                assert(cell_set(group@).contains(gq));
                lemma_clear_insert(b0, done, gq);
            }
            let gpos = BoardPosition { x: gx, y: gy };
            board.remove_stone(gpos);
            proof {
                done = done.insert(gq);
            }
            j += 1;
        }
        proof {
            assert forall|q: (int, int)| #[trigger]
                cell_set(group@).contains(q) implies done.contains(q) by {
                let t = choose|t: int|
                    0 <= t < group@.len() && q == ((#[trigger] group@[t]).0 as int, group@[t].1 as int);
            }
            assert(done =~= cell_set(group@));
        }
    }

    /// The sole mutating entry point: plays the current player's stone at
    /// `pos` on `board` if the move is legal. `true` means the move was
    /// accepted and fully applied: the stone stands, every opposing group
    /// left without liberties is removed, the resulting position and the
    /// mover are recorded, and the turn passes to the other colour. `false`
    /// means the move was rejected — the target was occupied, the move was
    /// suicide, or simple ko barred it — and board and engine are exactly
    /// as they were.
    #[verifier::loop_isolation(false)]
    pub fn set_stone(&mut self, pos: &BoardPosition, board: &mut Board) -> (r: bool)
        requires
            old(self).wf(),
            old(board).wf(),
            pos.wf(),
        ensures
            final(self).wf(),
            final(board).wf(),
            r == move_accepted(old(board)@, old(self).hist(), pos.cellp(), old(self).player()),
            r ==> final(board)@ == move_result(old(board)@, pos.cellp(), old(self).player()),
            r ==> final(self).hist() == old(self).hist().push(final(board)@),
            r ==> final(self).turns() == old(self).turns().push(old(self).player()),
            r ==> final(self).player() == old(self).player().spec_opposite(),
            !r ==> final(board)@ == old(board)@,
            !r ==> final(self).hist() == old(self).hist(),
            !r ==> final(self).turns() == old(self).turns(),
            !r ==> final(self).player() == old(self).player(),
    {
        let ghost b0 = board@;
        let ghost p0 = pos.cellp();
        let ghost c = self.current_player;
        let ghost h0 = self.hist();
        let player = self.current_player;

        // Step 1: reject immediately when the target cell is occupied;
        // otherwise the stone is placed tentatively.
        let placed = board.set_stone(*pos, player);
        if placed.is_err() {
            return false;
        }
        let ghost b1 = board@;
        proof {
            assert(b1 == after_place(b0, p0, c));
        }
        let opponent = player.opposite();

        // Step 2: liberties of the mover's own group around the new stone.
        let (own_liberties, _) = self.get_group_and_liberties(pos, board);
        let mut move_valid = own_liberties > 0;
        proof {
            lemma_has_liberty_len(b1, p0);
        }

        // Step 3: every adjacent opposing group left without liberties is
        // captured, and a capture legalises the move regardless of the
        // mover's own liberty count.
        let ns = neighbor_list(pos.x, pos.y);
        let ghost mc = captured_by(b1, p0, c.spec_opposite());
        let mut captures: Vec<Vec<(usize, usize)>> = Vec::new();
        let ghost mut capset: Set<(int, int)> = Set::empty();
        let ghost mut seen: Set<(int, int)> = Set::empty();
        let mut k: usize = 0;
        while k < ns.len()
            invariant
                k <= ns@.len(),
                self.wf(),
                self.player() == c,
                self.hist() == h0,
                self.turns() == old(self).turns(),
                move_valid <==> (has_liberty(b1, p0) || exists|q: (int, int)| capset.contains(q)),
                forall|q: (int, int)| #[trigger] capset.contains(q) ==> mc.contains(q),
                forall|j: int| 0 <= j < k ==> seen.contains(((#[trigger] ns@[j]).0 as int, ns@[j].1 as int)),
                forall|n: (int, int), q: (int, int)|
                    #[trigger] seen.contains(n) && cell(b1, n) == c.spec_opposite() && !has_liberty(
                        b1,
                        n,
                    ) && #[trigger] connected(b1, n, q) ==> capset.contains(q),
                forall|i: int, q: (int, int)|
                    0 <= i < captures@.len() && #[trigger] cell_set(captures@[i]@).contains(q)
                        ==> capset.contains(q),
                forall|q: (int, int)| #[trigger]
                    capset.contains(q) ==> exists|i: int|
                        0 <= i < captures@.len() && cell_set(#[trigger] captures@[i]@).contains(q),
            decreases ns@.len() - k,
        {
            let (nx, ny) = ns[k];
            let ghost np = (nx as int, ny as int);
            proof {
                assert(0 <= k < ns@.len() && ns@[k as int] == (nx, ny));
                assert(cell_set(ns@).contains(np));
                assert(adjacent(np, p0));
            }
            let npos = BoardPosition { x: nx, y: ny };
            if board.get(&npos) == opponent {
                let ghost caps_pre = captures@;
                let (lib, group) = self.get_group_and_liberties(&npos, board);
                proof {
                    lemma_has_liberty_len(b1, np);
                }
                if lib == 0 {
                    proof {
                        lemma_connected_refl(b1, np);
                        assert(group_of(b1, np).contains(np));
                        assert forall|q: (int, int)| #[trigger]
                            group_of(b1, np).contains(q) implies mc.contains(q) by {
                            assert(adjacent(np, p0) && cell(b1, np) == c.spec_opposite()
                                && !has_liberty(b1, np) && connected(b1, np, q));
                        }
                    }
                    captures.push(group);
                    move_valid = true;
                    proof {
                        capset = capset.union(group_of(b1, np));
                        assert(capset.contains(np));
                        assert forall|q: (int, int)| #[trigger]
                            capset.contains(q) implies exists|i: int|
                            0 <= i < captures@.len() && cell_set(
                                #[trigger] captures@[i]@,
                            ).contains(q) by {
                            if group_of(b1, np).contains(q) {
                                let i = captures@.len() - 1;
                                assert(captures@[i]@ == group@);
                                assert(cell_set(captures@[i]@).contains(q));
                            } else {
                                let i = choose|i: int|
                                    0 <= i < caps_pre.len() && cell_set(
                                        #[trigger] caps_pre[i]@,
                                    ).contains(q);
                                assert(captures@[i]@ == caps_pre[i]@);
                                assert(cell_set(captures@[i]@).contains(q));
                            }
                        }
                    }
                }
            }
            proof {
                seen = seen.insert(np);
            }
            k += 1;
        }
        proof {
            assert forall|q: (int, int)| #[trigger] mc.contains(q) implies capset.contains(q) by {
                let n = choose|n: (int, int)|
                    #[trigger] adjacent(n, p0) && cell(b1, n) == c.spec_opposite() && !has_liberty(
                        b1,
                        n,
                    ) && connected(b1, n, q);
                assert(cell_set(ns@).contains(n));
                let j = choose|j: int|
                    0 <= j < ns@.len() && n == ((#[trigger] ns@[j]).0 as int, ns@[j].1 as int);
                assert(seen.contains(n));
            }
            assert(capset =~= mc);
            assert(after_place(b0, p0, c) == b1);
            assert(move_captures(b0, p0, c) == capset);
            if move_valid {
                if !has_liberty(b1, p0) {
                    let q = choose|q: (int, int)| capset.contains(q);
                    assert(move_captures(b0, p0, c).contains(q));
                    assert(captures_something(b0, p0, c));
                }
            } else {
                if captures_something(b0, p0, c) {
                    let q = choose|q: (int, int)| move_captures(b0, p0, c).contains(q);
                    assert(capset.contains(q));
                    assert(false);
                }
            }
            assert(move_valid == move_shape_ok(b0, p0, c));
        }

        // Step 4: a move that neither keeps a liberty nor captures is
        // suicide; take the tentative stone back.
        if !move_valid {
            board.remove_stone(*pos);
            proof {
                assert(board@ =~= b0);
            }
            return false;
        }

        // Step 5: compute the position that would result — stone placed,
        // captured groups removed — without touching the real board yet.
        let mut cur_state = board.snapshot();
        let ghost mut cleared: Set<(int, int)> = Set::empty();
        proof {
            lemma_clear_empty(b1);
        }
        let mut gi: usize = 0;
        while gi < captures.len()
            invariant
                gi <= captures@.len(),
                cur_state@ == clear_cells(b1, cleared),
                forall|q: (int, int)| #[trigger] cleared.contains(q) ==> capset.contains(q),
                forall|i: int, q: (int, int)|
                    0 <= i < gi && #[trigger] cell_set(captures@[i]@).contains(q)
                        ==> cleared.contains(q),
            decreases captures@.len() - gi,
        {
            let grp = &captures[gi];
            let mut j: usize = 0;
            while j < grp.len()
                invariant
                    j <= grp@.len(),
                    cur_state@ == clear_cells(b1, cleared),
                    forall|q: (int, int)| #[trigger] cleared.contains(q) ==> capset.contains(q),
                    forall|i: int, q: (int, int)|
                        0 <= i < gi && #[trigger] cell_set(captures@[i]@).contains(q)
                            ==> cleared.contains(q),
                    forall|t: int|
                        0 <= t < j ==> cleared.contains(
                            ((#[trigger] grp@[t]).0 as int, grp@[t].1 as int),
                        ),
                decreases grp@.len() - j,
            {
                let (gx, gy) = grp[j];
                let ghost gq = (gx as int, gy as int);
                proof {
                    assert(cell_set(grp@).contains(gq));
                    assert(cell_set(captures@[gi as int]@).contains(gq));
                    assert(capset.contains(gq));
                    assert(mc.contains(gq));
                    let n = choose|n: (int, int)|
                        #[trigger] adjacent(n, p0) && cell(b1, n) == c.spec_opposite()
                            && !has_liberty(b1, n) && connected(b1, n, gq);
                    lemma_connected_member(b1, n, gq);
                    assert(valid_cell(gq));
                    lemma_clear_insert(b1, cleared, gq);
                }
                let gpos = BoardPosition { x: gx, y: gy };
                cur_state.set(gpos.flat_index(), Occupy::Free);
                proof {
                    cleared = cleared.insert(gq);
                }
                j += 1;
            }
            proof {
                assert forall|q: (int, int)|
                    #[trigger] cell_set(captures@[gi as int]@).contains(q) implies cleared.contains(
                    q,
                ) by {
                    let t = choose|t: int|
                        0 <= t < grp@.len() && q == ((#[trigger] grp@[t]).0 as int, grp@[t].1 as int);
                }
            }
            gi += 1;
        }
        proof {
            assert forall|q: (int, int)| #[trigger] capset.contains(q) implies cleared.contains(
                q,
            ) by {
                let i = choose|i: int|
                    0 <= i < captures@.len() && cell_set(#[trigger] captures@[i]@).contains(q);
            }
            assert(cleared =~= capset);
            assert(cur_state@ == clear_cells(b1, capset));
            assert(cur_state@ == move_result(b0, p0, c));
        }

        // Step 6: simple ko — reject if the would-be position reproduces the
        // position from two plies back, taking the tentative stone back.
        if self.is_ko_violation(&cur_state) {
            board.remove_stone(*pos);
            proof {
                assert(board@ =~= b0);
                assert(ko_blocked(h0, move_result(b0, p0, c)));
            }
            return false;
        }
        proof {
            assert(!ko_blocked(h0, move_result(b0, p0, c)));
            assert(move_accepted(b0, h0, p0, c));
        }

        // Step 7: commit — physically remove the captured groups, record the
        // resulting position and the mover, and pass the turn.
        let ghost mut done: Set<(int, int)> = Set::empty();
        proof {
            lemma_clear_empty(b1);
        }
        let mut gi2: usize = 0;
        while gi2 < captures.len()
            invariant
                gi2 <= captures@.len(),
                board.wf(),
                board@ == clear_cells(b1, done),
                forall|q: (int, int)| #[trigger] done.contains(q) ==> capset.contains(q),
                forall|i: int, q: (int, int)|
                    0 <= i < gi2 && #[trigger] cell_set(captures@[i]@).contains(q)
                        ==> done.contains(q),
            decreases captures@.len() - gi2,
        {
            let ghost done_pre = done;
            let ghost gset = cell_set(captures@[gi2 as int]@);
            proof {
                assert forall|t: int|
                    0 <= t < captures@[gi2 as int]@.len() implies ((#[trigger] captures@[gi2 as int]@[t]).0
                    < BOARD_SIZE && captures@[gi2 as int]@[t].1 < BOARD_SIZE) by {
                    let q = ((captures@[gi2 as int]@[t]).0 as int, captures@[gi2 as int]@[t].1 as int);
                    assert(cell_set(captures@[gi2 as int]@).contains(q));
                    assert(capset.contains(q));
                    let n = choose|n: (int, int)|
                        #[trigger] adjacent(n, p0) && cell(b1, n) == c.spec_opposite()
                            && !has_liberty(b1, n) && connected(b1, n, q);
                    lemma_connected_member(b1, n, q);
                }
            }
            self.capture_group(&captures[gi2], board);
            proof {
                lemma_clear_union(b1, done_pre, gset);
                done = done_pre.union(gset);
            }
            gi2 += 1;
        }
        proof {
            assert forall|q: (int, int)| #[trigger] capset.contains(q) implies done.contains(q) by {
                let i = choose|i: int|
                    0 <= i < captures@.len() && cell_set(#[trigger] captures@[i]@).contains(q);
            }
            assert(done =~= capset);
            assert(board@ == clear_cells(b1, capset));
            assert(board@ == cur_state@);
        }
        let ghost bh_pre = self.board_history@;
        let ghost th_pre = self.turn_history@;
        self.board_history.push(cur_state);
        self.turn_history.push(player);
        proof {
            assert forall|i: int|
                0 <= i < self.board_history@.len() implies board_wf(
                #[trigger] self.board_history@[i]@,
            ) by {
                if i < bh_pre.len() {
                    assert(self.board_history@[i] == bh_pre[i]);
                }
            }
            assert forall|i: int|
                0 <= i < self.turn_history@.len() implies (#[trigger] self.turn_history@[i]).is_stone() by {
                if i < th_pre.len() {
                    assert(self.turn_history@[i] == th_pre[i]);
                }
            }
            assert(self.hist() =~= h0.push(cur_state@));
        }
        let _ = self.change_side();
        true
    }
}

/// Element-wise comparison of two board snapshots.
fn boards_equal(a: &Vec<Occupy>, c: &Vec<Occupy>) -> (r: bool)
    ensures
        r <==> a@ == c@,
{
    if a.len() != c.len() {
        return false;
    }
    let mut i: usize = 0;
    while i < a.len()
        invariant
            i <= a@.len(),
            a@.len() == c@.len(),
            forall|j: int| 0 <= j < i ==> a@[j] == c@[j],
        decreases a@.len() - i,
    {
        if a[i] != c[i] {
            return false;
        }
        i += 1;
    }
    proof {
        assert(a@ =~= c@);
    }
    true
}

/// Core flood-fill invariant. `stack` and `group` hold members of the
/// group of the seed `s0` on board `b`; the visitation buffer `vis` marks
/// exactly the cells the traversal has touched; `libs` is the set of
/// distinct free cells counted so far, and `liberties` its size.
spec fn flood_core(
    b: Seq<Occupy>,
    s0: (int, int),
    vis: Seq<bool>,
    stack: Seq<(usize, usize)>,
    group: Seq<(usize, usize)>,
    libs: Set<(int, int)>,
    liberties: int,
) -> bool {
    &&& board_wf(b)
    &&& valid_cell(s0)
    &&& cell(b, s0).is_stone()
    &&& vis.len() == CELL_COUNT
    &&& (forall|q: (int, int)| #[trigger]
        cell_set(stack).contains(q) ==> connected(b, s0, q) && valid_cell(q) && cell(b, q) == cell(
            b,
            s0,
        ))
    &&& (forall|q: (int, int)| #[trigger]
        cell_set(group).contains(q) ==> connected(b, s0, q) && valid_cell(q) && cell(b, q) == cell(
            b,
            s0,
        ))
    &&& (cell_set(stack).contains(s0) || cell_set(group).contains(s0))
    &&& (forall|q: (int, int)|
        #![trigger cell_set(stack).contains(q)]
        #![trigger cell_set(group).contains(q)]
        cell_set(stack).contains(q) || cell_set(group).contains(q) ==> vis[cell_index(q)])
    &&& (forall|q: (int, int)|
        #![trigger vis[cell_index(q)]]
        valid_cell(q) && cell(b, q) == cell(b, s0) && vis[cell_index(q)] ==> cell_set(
            stack,
        ).contains(q) || cell_set(group).contains(q))
    &&& (forall|q: (int, int)|
        #![trigger vis[cell_index(q)]]
        #![trigger libs.contains(q)]
        valid_cell(q) && cell(b, q) == Occupy::Free ==> (vis[cell_index(q)] <==> libs.contains(
            q,
        )))
    &&& (forall|q: (int, int)| #[trigger]
        libs.contains(q) ==> valid_cell(q) && cell(b, q) == Occupy::Free && (exists|m: (int, int)|
            #[trigger] adjacent(q, m) && cell_set(group).contains(m)))
    &&& libs.finite()
    &&& liberties == libs.len()
    &&& unvisited_set(vis).finite()
    &&& stack.no_duplicates()
    &&& group.no_duplicates()
    &&& (forall|i: int, j: int|
        #![trigger group[i], stack[j]]
        0 <= i < group.len() && 0 <= j < stack.len() ==> group[i] != stack[j])
    &&& group.len() + stack.len() + unvisited_set(vis).len() <= CELL_COUNT
}

/// Every orthogonal neighbor of an expanded cell has been marked.
spec fn group_closed(gs: Set<(int, int)>, vis: Seq<bool>) -> bool {
    forall|g: (int, int), n: (int, int)|
        #[trigger] gs.contains(g) && #[trigger] adjacent(n, g) ==> vis[cell_index(n)]
}

/// The in-bounds orthogonal neighbors of an on-board cell.
fn neighbor_list(x: usize, y: usize) -> (v: Vec<(usize, usize)>)
    requires
        x < BOARD_SIZE,
        y < BOARD_SIZE,
    ensures
        forall|q: (int, int)|
            #![trigger cell_set(v@).contains(q)]
            #![trigger adjacent(q, (x as int, y as int))]
            cell_set(v@).contains(q) <==> adjacent(q, (x as int, y as int)),
        forall|k: int|
            0 <= k < v@.len() ==> ((#[trigger] v@[k]).0 < BOARD_SIZE && v@[k].1 < BOARD_SIZE),
        v@.len() <= 4,
{
    let mut v: Vec<(usize, usize)> = Vec::new();
    let ghost c = (x as int, y as int);
    if x + 1 < BOARD_SIZE {
        let ghost v0 = v@;
        v.push((x + 1, y));
        proof {
            lemma_cell_set_push(v0, ((x + 1) as usize, y));
        }
    }
    if x > 0 {
        let ghost v0 = v@;
        v.push((x - 1, y));
        proof {
            lemma_cell_set_push(v0, ((x - 1) as usize, y));
        }
    }
    if y + 1 < BOARD_SIZE {
        let ghost v0 = v@;
        v.push((x, y + 1));
        proof {
            lemma_cell_set_push(v0, (x, (y + 1) as usize));
        }
    }
    if y > 0 {
        let ghost v0 = v@;
        v.push((x, y - 1));
        proof {
            lemma_cell_set_push(v0, (x, (y - 1) as usize));
        }
    }
    proof {
        assert(cell_set(Seq::<(usize, usize)>::empty()) =~= Set::<(int, int)>::empty());
        assert forall|q: (int, int)| cell_set(v@).contains(q) implies adjacent(q, c) by {}
        assert forall|q: (int, int)| adjacent(q, c) implies cell_set(v@).contains(q) by {}
        assert forall|k: int|
            0 <= k < v@.len() implies ((#[trigger] v@[k]).0 < BOARD_SIZE && v@[k].1
            < BOARD_SIZE) by {
            assert(cell_set(v@).contains((v@[k].0 as int, v@[k].1 as int)));
        }
    }
    v
}

} // verus!

//! Proved game laws. Each public lemma states a rule-level guarantee over
//! the model that the engine's contracts are written against.

use crate::game_const::BOARD_SIZE;
use crate::model::{
    adjacent, after_place, board_wf, captures_something, cell, cell_index, connected, group_of,
    has_liberty, lemma_cell_index_injective, lemma_connected_in_closed, lemma_connected_member,
    lemma_connected_refl, liberties_of, move_accepted, move_captures, move_result, move_shape_ok,
    valid_cell,
};
use crate::stone::Occupy;
use vstd::prelude::*;

verus! {

/// A stone whose every orthogonal neighbour holds a different state forms a
/// group of exactly one cell.
pub proof fn lemma_lone_stone_group(b: Seq<Occupy>, p: (int, int))
    requires
        board_wf(b),
        valid_cell(p),
        cell(b, p).is_stone(),
        forall|n: (int, int)| #[trigger] adjacent(n, p) ==> cell(b, n) != cell(b, p),
    ensures
        group_of(b, p) == Set::<(int, int)>::empty().insert(p),
{
    let a = Set::<(int, int)>::empty().insert(p);
    lemma_connected_refl(b, p);
    assert forall|q: (int, int)| #[trigger] group_of(b, p).contains(q) implies a.contains(q) by {
        assert forall|g: (int, int), n: (int, int)|
            a.contains(g) && #[trigger] adjacent(g, n) && cell(b, n) == cell(b, p) implies a.contains(
            n,
        ) by {
            assert(adjacent(n, g));
        }
        lemma_connected_in_closed(b, p, q, a);
    }
    assert(group_of(b, p) =~= a);
}

/// An isolated stone — one with every in-bounds orthogonal neighbour free —
/// has exactly one liberty per in-bounds neighbour: four in the interior,
/// three on an edge, two in a corner.
pub proof fn lemma_isolated_stone_liberties(b: Seq<Occupy>, p: (int, int))
    requires
        board_wf(b),
        valid_cell(p),
        cell(b, p).is_stone(),
        forall|n: (int, int)| #[trigger] adjacent(n, p) ==> cell(b, n) == Occupy::Free,
    ensures
        group_of(b, p) == Set::<(int, int)>::empty().insert(p),
        liberties_of(b, p).len() == (if p.0 > 0 {
            1int
        } else {
            0int
        }) + (if p.0 < BOARD_SIZE - 1 {
            1int
        } else {
            0int
        }) + (if p.1 > 0 {
            1int
        } else {
            0int
        }) + (if p.1 < BOARD_SIZE - 1 {
            1int
        } else {
            0int
        }),
{
    lemma_lone_stone_group(b, p);
    let s0 = Set::<(int, int)>::empty();
    let s1 = if p.0 > 0 {
        s0.insert((p.0 - 1, p.1))
    } else {
        s0
    };
    let s2 = if p.0 < BOARD_SIZE - 1 {
        s1.insert((p.0 + 1, p.1))
    } else {
        s1
    };
    let s3 = if p.1 > 0 {
        s2.insert((p.0, p.1 - 1))
    } else {
        s2
    };
    let s4 = if p.1 < BOARD_SIZE - 1 {
        s3.insert((p.0, p.1 + 1))
    } else {
        s3
    };
    assert forall|q: (int, int)| #[trigger] liberties_of(b, p).contains(q) implies s4.contains(
        q,
    ) by {
        let m = choose|m: (int, int)| #[trigger] adjacent(q, m) && connected(b, p, m);
        assert(group_of(b, p).contains(m));
        assert(m == p);
        assert(adjacent(q, p));
    }
    assert forall|q: (int, int)| s4.contains(q) implies #[trigger] liberties_of(b, p).contains(
        q,
    ) by {
        assert(adjacent(q, p));
        assert(cell(b, q) == Occupy::Free);
        lemma_connected_refl(b, p);
        assert(adjacent(q, p) && connected(b, p, p));
    }
    assert(liberties_of(b, p) =~= s4);
}

/// A move onto an occupied point is never accepted, whatever the player
/// and history; rejection leaves board and engine untouched by the
/// engine's contracts.
pub proof fn lemma_occupied_rejected(
    b: Seq<Occupy>,
    hist: Seq<Seq<Occupy>>,
    p0: (int, int),
    c: Occupy,
)
    requires
        cell(b, p0) != Occupy::Free,
    ensures
        !move_accepted(b, hist, p0, c),
{
}

/// Simple ko bars a move: when the position the move would produce equals
/// the position from exactly two plies back, the move is not accepted.
pub proof fn lemma_ko_rejected(b: Seq<Occupy>, hist: Seq<Seq<Occupy>>, p0: (int, int), c: Occupy)
    requires
        hist.len() > 1,
        move_result(b, p0, c) == hist[hist.len() - 2],
    ensures
        !move_accepted(b, hist, p0, c),
{
}

/// A flood-fill member list that is duplicate-free and whose cell set is a
/// single cell is exactly the one-element list of that cell; with the
/// probes' contracts this pins an isolated stone's member list to the
/// seed alone.
pub proof fn lemma_cell_set_singleton(g: Seq<(usize, usize)>, p: (usize, usize))
    requires
        crate::model::cell_set(g) == Set::<(int, int)>::empty().insert((p.0 as int, p.1 as int)),
        g.no_duplicates(),
    ensures
        g == seq![p],
{
    let gs = crate::model::cell_set(g);
    assert(gs.contains((p.0 as int, p.1 as int)));
    let k = choose|k: int|
        0 <= k < g.len() && (p.0 as int, p.1 as int) == ((#[trigger] g[k]).0 as int, g[k].1 as int);
    assert(g[k] == p);
    assert forall|i: int| 0 <= i < g.len() implies g[i] == p by {
        assert(gs.contains((g[i].0 as int, g[i].1 as int)));
    }
    if g.len() >= 2 {
        assert(g[0] == g[1]);
        assert(false);
    }
    assert(g =~= seq![p]);
}

/// Suicide is rejected: a move into a free point whose every orthogonal
/// neighbour holds an opposing stone, and which captures nothing, is not
/// accepted, whatever the history.
pub proof fn lemma_suicide_rejected(
    b: Seq<Occupy>,
    hist: Seq<Seq<Occupy>>,
    p0: (int, int),
    c: Occupy,
)
    requires
        board_wf(b),
        valid_cell(p0),
        c.is_stone(),
        cell(b, p0) == Occupy::Free,
        forall|n: (int, int)| #[trigger] adjacent(n, p0) ==> cell(b, n) == c.spec_opposite(),
        !captures_something(b, p0, c),
    ensures
        !move_accepted(b, hist, p0, c),
{
    let b1 = after_place(b, p0, c);
    assert forall|n: (int, int)| #[trigger] adjacent(n, p0) implies cell(b1, n)
        == c.spec_opposite() by {
        if cell_index(n) == cell_index(p0) {
            lemma_cell_index_injective(n, p0);
            assert(false);
        }
    }
    assert(cell(b1, p0) == c);
    lemma_lone_stone_group(b1, p0);
    if has_liberty(b1, p0) {
        let q = choose|q: (int, int)| liberties_of(b1, p0).contains(q);
        assert(liberties_of(b1, p0).contains(q));
        let m = choose|m: (int, int)| #[trigger] adjacent(q, m) && connected(b1, p0, m);
        assert(group_of(b1, p0).contains(m));
        assert(m == p0);
        assert(cell(b1, q) == c.spec_opposite());
        assert(false);
    }
    assert(!move_shape_ok(b, p0, c));
}

/// Turn alternation, observably: handing the turn to the opposite of a
/// real colour always yields the other real colour — never the free state —
/// so whether black is to move flips on every accepted move. Together with
/// the engines' contracts (the player becomes its opposite on acceptance
/// and is unchanged on rejection) and their well-formedness lemmas (the
/// player is always a real colour), this pins the black-turn flag's
/// behaviour for every call.
pub proof fn lemma_turn_alternation(c: Occupy)
    requires
        c.is_stone(),
    ensures
        c.spec_opposite().is_stone(),
        c.spec_opposite() != c,
        (c.spec_opposite() == Occupy::Black) <==> (c != Occupy::Black),
{
}

/// Serialization is faithful: two board-shaped grids whose serialized
/// symbols agree cell for cell are the same grid.
pub proof fn lemma_serialization_faithful(b1: Seq<Occupy>, b2: Seq<Occupy>)
    requires
        b1.len() == b2.len(),
        forall|i: int| 0 <= i < b1.len() ==> (#[trigger] b1[i]).symbol() == b2[i].symbol(),
    ensures
        b1 == b2,
{
    assert forall|i: int| 0 <= i < b1.len() implies b1[i] == b2[i] by {
        assert(b1[i].symbol() == b2[i].symbol());
    }
    assert(b1 =~= b2);
}

/// What a capture does, cell by cell: an accepted move's resulting board
/// frees exactly the captured cells, puts the mover's stone on the played
/// point — which is never itself captured — and changes nothing else.
pub proof fn lemma_move_result_cells(b: Seq<Occupy>, p0: (int, int), c: Occupy, q: (int, int))
    requires
        board_wf(b),
        valid_cell(p0),
        valid_cell(q),
        cell(b, p0) == Occupy::Free,
        c.is_stone(),
    ensures
        !move_captures(b, p0, c).contains(p0),
        q == p0 ==> cell(move_result(b, p0, c), q) == c,
        move_captures(b, p0, c).contains(q) ==> cell(move_result(b, p0, c), q) == Occupy::Free,
        q != p0 && !move_captures(b, p0, c).contains(q) ==> cell(move_result(b, p0, c), q) == cell(
            b,
            q,
        ),
{
    let b1 = after_place(b, p0, c);
    let caps = move_captures(b, p0, c);
    let res = move_result(b, p0, c);
    assert(cell(b1, p0) == c);
    if caps.contains(p0) {
        let n = choose|n: (int, int)|
            #[trigger] adjacent(n, p0) && cell(b1, n) == c.spec_opposite() && !has_liberty(b1, n)
                && connected(b1, n, p0);
        lemma_connected_member(b1, n, p0);
        assert(false);
    }
    if caps.contains(q) {
        assert(cell(res, q) == Occupy::Free);
    }
    if q != p0 && !caps.contains(q) {
        assert(cell(res, q) == cell(b1, q)) by {
            if exists|p: (int, int)|
                valid_cell(p) && cell_index(p) == cell_index(q) && #[trigger] caps.contains(p) {
                let p = choose|p: (int, int)|
                    valid_cell(p) && cell_index(p) == cell_index(q) && #[trigger] caps.contains(p);
                lemma_cell_index_injective(p, q);
                assert(false);
            }
        }
        assert(cell(b1, q) == cell(b, q)) by {
            if cell_index(q) == cell_index(p0) {
                lemma_cell_index_injective(q, p0);
                assert(false);
            }
        }
    }
    if q == p0 {
        assert(cell(res, p0) == cell(b1, p0)) by {
            if exists|p: (int, int)|
                valid_cell(p) && cell_index(p) == cell_index(p0) && #[trigger] caps.contains(p) {
                let p = choose|p: (int, int)|
                    valid_cell(p) && cell_index(p) == cell_index(p0) && #[trigger] caps.contains(p);
                lemma_cell_index_injective(p, p0);
                assert(false);
            }
        }
    }
}

} // verus!

//! Mathematical model of the game rules: cells, adjacency, same-colour
//! connectivity, groups, liberties, captures, and full move legality.
//! The executable engine in `rule` is specified against these functions.

use crate::game_const::{BOARD_SIZE, CELL_COUNT};
use crate::stone::Occupy;
use vstd::prelude::*;

verus! {

/// Specifications name cells by integer coordinate pairs `(x, y)`.
pub open spec fn valid_cell(p: (int, int)) -> bool {
    0 <= p.0 < BOARD_SIZE && 0 <= p.1 < BOARD_SIZE
}

/// Flat row-major index of a cell.
pub open spec fn cell_index(p: (int, int)) -> int {
    p.0 * BOARD_SIZE + p.1
}

/// The state a board sequence assigns to a cell.
pub open spec fn cell(b: Seq<Occupy>, p: (int, int)) -> Occupy {
    b[cell_index(p)]
}

/// A board sequence with exactly one entry per cell.
pub open spec fn board_wf(b: Seq<Occupy>) -> bool {
    b.len() == CELL_COUNT
}

/// Orthogonal adjacency of two on-board cells.
pub open spec fn adjacent(p: (int, int), q: (int, int)) -> bool {
    &&& valid_cell(p)
    &&& valid_cell(q)
    &&& {
        ||| (p.0 == q.0 && (p.1 == q.1 + 1 || q.1 == p.1 + 1))
        ||| (p.1 == q.1 && (p.0 == q.0 + 1 || q.0 == p.0 + 1))
    }
}

/// A chain: a non-empty sequence of pairwise-adjacent on-board cells that
/// all hold the same state as the chain's first cell.
pub open spec fn is_chain(b: Seq<Occupy>, ch: Seq<(int, int)>) -> bool {
    &&& ch.len() >= 1
    &&& forall|k: int|
        0 <= k < ch.len() ==> valid_cell(#[trigger] ch[k]) && cell(b, ch[k]) == cell(b, ch[0])
    &&& forall|k: int| 0 <= k < ch.len() - 1 ==> adjacent(#[trigger] ch[k], ch[k + 1])
}

/// `q` lies in the same-state connected component of `s`.
pub open spec fn connected(b: Seq<Occupy>, s: (int, int), q: (int, int)) -> bool {
    exists|ch: Seq<(int, int)>| is_chain(b, ch) && ch[0] == s && ch[ch.len() - 1] == q
}

/// The group of `s`: every cell connected to `s` through a chain of cells
/// in the same state.
pub open spec fn group_of(b: Seq<Occupy>, s: (int, int)) -> Set<(int, int)> {
    Set::new(|q: (int, int)| connected(b, s, q))
}

/// The liberties of the group of `s`: the distinct free cells orthogonally
/// adjacent to at least one member of the group.
pub open spec fn liberties_of(b: Seq<Occupy>, s: (int, int)) -> Set<(int, int)> {
    Set::new(
        |q: (int, int)|
            cell(b, q) == Occupy::Free && exists|m: (int, int)|
                #[trigger] adjacent(q, m) && connected(b, s, m),
    )
}

/// The group of `s` touches at least one free cell.
pub open spec fn has_liberty(b: Seq<Occupy>, s: (int, int)) -> bool {
    exists|q: (int, int)| liberties_of(b, s).contains(q)
}

/// The cells captured by a stone just placed at `p0`: the members of every
/// opposing group orthogonally adjacent to `p0` that is left without a
/// single liberty.
pub open spec fn captured_by(b: Seq<Occupy>, p0: (int, int), opp: Occupy) -> Set<(int, int)> {
    Set::new(
        |q: (int, int)|
            exists|n: (int, int)|
                #[trigger] adjacent(n, p0) && cell(b, n) == opp && !has_liberty(b, n) && connected(
                    b,
                    n,
                    q,
                ),
    )
}

/// The board with every cell of `dead` set free and all others unchanged.
pub open spec fn clear_cells(b: Seq<Occupy>, dead: Set<(int, int)>) -> Seq<Occupy> {
    Seq::new(
        b.len(),
        |i: int|
            if exists|q: (int, int)|
                valid_cell(q) && cell_index(q) == i && #[trigger] dead.contains(q) {
                Occupy::Free
            } else {
                b[i]
            },
    )
}

/// The board right after tentatively placing a `c` stone at `p0`.
pub open spec fn after_place(b: Seq<Occupy>, p0: (int, int), c: Occupy) -> Seq<Occupy> {
    b.update(cell_index(p0), c)
}

/// The opposing cells a move by `c` at `p0` captures.
pub open spec fn move_captures(b: Seq<Occupy>, p0: (int, int), c: Occupy) -> Set<(int, int)> {
    captured_by(after_place(b, p0, c), p0, c.spec_opposite())
}

/// The move captures at least one opposing stone.
pub open spec fn captures_something(b: Seq<Occupy>, p0: (int, int), c: Occupy) -> bool {
    exists|q: (int, int)| move_captures(b, p0, c).contains(q)
}

/// Suicide rule, with captures evaluated first: the placed stone's own group
/// may be left without liberties only when the move captures something.
pub open spec fn move_shape_ok(b: Seq<Occupy>, p0: (int, int), c: Occupy) -> bool {
    has_liberty(after_place(b, p0, c), p0) || captures_something(b, p0, c)
}

/// The board that results from the move: the stone placed, every captured
/// group removed, and nothing else changed.
pub open spec fn move_result(b: Seq<Occupy>, p0: (int, int), c: Occupy) -> Seq<Occupy> {
    clear_cells(after_place(b, p0, c), move_captures(b, p0, c))
}

/// Simple ko: a move is barred when its resulting position reproduces the
/// position from exactly two plies earlier.
pub open spec fn ko_blocked(hist: Seq<Seq<Occupy>>, result: Seq<Occupy>) -> bool {
    hist.len() > 1 && result == hist[hist.len() - 2]
}

/// Full legality of a move by `c` at `p0` on board `b` under history `hist`:
/// the target is free, the move is no suicide, and ko does not bar it.
pub open spec fn move_accepted(
    b: Seq<Occupy>,
    hist: Seq<Seq<Occupy>>,
    p0: (int, int),
    c: Occupy,
) -> bool {
    &&& cell(b, p0) == Occupy::Free
    &&& move_shape_ok(b, p0, c)
    &&& !ko_blocked(hist, move_result(b, p0, c))
}

/// The set of cells named by a list of coordinate pairs.
pub open spec fn cell_set(s: Seq<(usize, usize)>) -> Set<(int, int)> {
    Set::new(
        |q: (int, int)|
            exists|k: int| 0 <= k < s.len() && q == ((#[trigger] s[k]).0 as int, s[k].1 as int),
    )
}

/// Every cell on the board.
pub open spec fn all_cells() -> Set<(int, int)> {
    Set::new(|p: (int, int)| valid_cell(p))
}

/// The cells a visitation buffer has not marked yet.
pub open spec fn unvisited_set(vis: Seq<bool>) -> Set<(int, int)> {
    Set::new(|p: (int, int)| valid_cell(p) && !vis[cell_index(p)])
}

/// Appending a coordinate pair to a list adds exactly that cell to the
/// list's cell set.
pub proof fn lemma_cell_set_push(s: Seq<(usize, usize)>, e: (usize, usize))
    ensures
        cell_set(s.push(e)) == cell_set(s).insert((e.0 as int, e.1 as int)),
{
    let t = s.push(e);
    assert forall|q: (int, int)| #[trigger] cell_set(t).contains(q) implies cell_set(s).insert(
        (e.0 as int, e.1 as int),
    ).contains(q) by {
        let k = choose|k: int| 0 <= k < t.len() && q == ((#[trigger] t[k]).0 as int, t[k].1 as int);
        if k < s.len() {
            assert(t[k] == s[k]);
            assert(cell_set(s).contains(q));
        } else {
            assert(t[k] == e);
        }
    }
    assert forall|q: (int, int)| cell_set(s).insert((e.0 as int, e.1 as int)).contains(
        q,
    ) implies #[trigger] cell_set(t).contains(q) by {
        if cell_set(s).contains(q) {
            let k = choose|k: int|
                0 <= k < s.len() && q == ((#[trigger] s[k]).0 as int, s[k].1 as int);
            assert(t[k] == s[k]);
        } else {
            assert(t[s.len() as int] == e);
        }
    }
    assert(cell_set(t) =~= cell_set(s).insert((e.0 as int, e.1 as int)));
}

/// Dropping the last coordinate pair of a list can only shrink its cell set
/// by that cell; every other member stays.
pub proof fn lemma_cell_set_drop_last(s: Seq<(usize, usize)>)
    requires
        s.len() >= 1,
    ensures
        forall|q: (int, int)| #[trigger] cell_set(s.drop_last()).contains(q) ==> cell_set(
            s,
        ).contains(q),
        cell_set(s).contains(((s.last().0 as int), (s.last().1 as int))),
        forall|q: (int, int)| #[trigger] cell_set(s).contains(q) ==> cell_set(
            s.drop_last(),
        ).contains(q) || q == ((s.last().0 as int), (s.last().1 as int)),
{
    let d = s.drop_last();
    assert forall|q: (int, int)| #[trigger] cell_set(d).contains(q) implies cell_set(s).contains(
        q,
    ) by {
        let k = choose|k: int| 0 <= k < d.len() && q == ((#[trigger] d[k]).0 as int, d[k].1 as int);
        assert(s[k] == d[k]);
    }
    assert(s[s.len() - 1] == s.last());
    assert forall|q: (int, int)| #[trigger] cell_set(s).contains(q) && q != ((s.last().0 as int), (
    s.last().1 as int)) implies cell_set(d).contains(q) by {
        let k = choose|k: int| 0 <= k < s.len() && q == ((#[trigger] s[k]).0 as int, s[k].1 as int);
        assert(k < s.len() - 1);
        assert(d[k] == s[k]);
    }
}

/// Marking one unmarked cell visited removes exactly that cell from the
/// unvisited set.
pub proof fn lemma_mark_cell(vis: Seq<bool>, q: (int, int))
    requires
        vis.len() == CELL_COUNT,
        valid_cell(q),
        !vis[cell_index(q)],
    ensures
        unvisited_set(vis.update(cell_index(q), true)) == unvisited_set(vis).remove(q),
        unvisited_set(vis).contains(q),
{
    let vis2 = vis.update(cell_index(q), true);
    assert(unvisited_set(vis2) =~= unvisited_set(vis).remove(q)) by {
        assert forall|p: (int, int)| valid_cell(p) implies (unvisited_set(vis2).contains(p)
            <==> unvisited_set(vis).remove(q).contains(p)) by {
            if cell_index(p) == cell_index(q) {
                lemma_cell_index_injective(p, q);
            }
        }
    }
}

/// Clearing no cells leaves the board unchanged.
pub proof fn lemma_clear_empty(b: Seq<Occupy>)
    ensures
        clear_cells(b, Set::<(int, int)>::empty()) == b,
{
    assert(clear_cells(b, Set::<(int, int)>::empty()) =~= b);
}

/// Clearing one more cell is clearing the rest, then freeing that cell.
pub proof fn lemma_clear_insert(b: Seq<Occupy>, dead: Set<(int, int)>, q: (int, int))
    requires
        board_wf(b),
        valid_cell(q),
    ensures
        clear_cells(b, dead.insert(q)) == clear_cells(b, dead).update(
            cell_index(q),
            Occupy::Free,
        ),
{
    let l = clear_cells(b, dead.insert(q));
    let r = clear_cells(b, dead).update(cell_index(q), Occupy::Free);
    assert forall|i: int| 0 <= i < b.len() implies l[i] == r[i] by {
        if i == cell_index(q) {
            assert(dead.insert(q).contains(q));
            assert(l[i] == Occupy::Free && r[i] == Occupy::Free);
        } else {
            if exists|p: (int, int)|
                valid_cell(p) && cell_index(p) == i && #[trigger] dead.insert(q).contains(p) {
                let p = choose|p: (int, int)|
                    valid_cell(p) && cell_index(p) == i && #[trigger] dead.insert(q).contains(p);
                assert(p != q);
                assert(dead.contains(p));
                assert(l[i] == Occupy::Free && r[i] == Occupy::Free);
            } else {
                if exists|p: (int, int)|
                    valid_cell(p) && cell_index(p) == i && #[trigger] dead.contains(p) {
                    let p = choose|p: (int, int)|
                        valid_cell(p) && cell_index(p) == i && #[trigger] dead.contains(p);
                    assert(dead.insert(q).contains(p));
                    assert(false);
                }
                assert(l[i] == b[i] && r[i] == b[i]);
            }
        }
    }
    assert(l =~= r);
}

/// Clearing two sets of cells in turn is clearing their union at once.
pub proof fn lemma_clear_union(b: Seq<Occupy>, s1: Set<(int, int)>, s2: Set<(int, int)>)
    ensures
        clear_cells(clear_cells(b, s1), s2) == clear_cells(b, s1.union(s2)),
{
    let l = clear_cells(clear_cells(b, s1), s2);
    let r = clear_cells(b, s1.union(s2));
    assert forall|i: int| 0 <= i < b.len() implies l[i] == r[i] by {
        if exists|p: (int, int)| valid_cell(p) && cell_index(p) == i && #[trigger] s2.contains(p) {
            let p = choose|p: (int, int)|
                valid_cell(p) && cell_index(p) == i && #[trigger] s2.contains(p);
            assert(s1.union(s2).contains(p));
            assert(l[i] == Occupy::Free && r[i] == Occupy::Free);
        } else if exists|p: (int, int)|
            valid_cell(p) && cell_index(p) == i && #[trigger] s1.contains(p) {
            let p = choose|p: (int, int)|
                valid_cell(p) && cell_index(p) == i && #[trigger] s1.contains(p);
            assert(s1.union(s2).contains(p));
            assert(l[i] == Occupy::Free && r[i] == Occupy::Free);
        } else {
            if exists|p: (int, int)|
                valid_cell(p) && cell_index(p) == i && #[trigger] s1.union(s2).contains(p) {
                let p = choose|p: (int, int)|
                    valid_cell(p) && cell_index(p) == i && #[trigger] s1.union(s2).contains(p);
                assert(s1.contains(p) || s2.contains(p));
                assert(false);
            }
            assert(l[i] == b[i] && r[i] == b[i]);
        }
    }
    assert(l =~= r);
}

/// A group has a liberty exactly when its (finite) liberty set is non-empty.
pub proof fn lemma_has_liberty_len(b: Seq<Occupy>, s: (int, int))
    requires
        liberties_of(b, s).finite(),
    ensures
        has_liberty(b, s) <==> liberties_of(b, s).len() != 0,
{
    let l = liberties_of(b, s);
    if has_liberty(b, s) {
        let q = choose|q: (int, int)| l.contains(q);
        assert(l.contains(q));
        assert(l.len() != 0);
    }
    if l.len() != 0 {
        assert(l.contains(l.choose()));
    }
}

/// Distinct on-board cells have distinct flat indices.
pub proof fn lemma_cell_index_injective(p: (int, int), q: (int, int))
    requires
        valid_cell(p),
        valid_cell(q),
        cell_index(p) == cell_index(q),
    ensures
        p == q,
{
    assert(p.0 == q.0 && p.1 == q.1) by {
        assert(BOARD_SIZE * (p.0 - q.0) == q.1 - p.1) by (nonlinear_arith)
            requires
                p.0 * BOARD_SIZE + p.1 == q.0 * BOARD_SIZE + q.1,
        ;
        assert(-(BOARD_SIZE as int) < q.1 - p.1 < BOARD_SIZE as int);
        assert(p.0 == q.0) by (nonlinear_arith)
            requires
                BOARD_SIZE * (p.0 - q.0) == q.1 - p.1,
                -(BOARD_SIZE as int) < q.1 - p.1 < BOARD_SIZE as int,
        ;
    }
}

/// There are only finitely many cells; every set of cells is finite and
/// holds at most one cell per flat index.
pub proof fn lemma_all_cells_finite()
    ensures
        all_cells().finite(),
        all_cells().len() <= CELL_COUNT,
{
    let f = |i: int| (i / (BOARD_SIZE as int), i % (BOARD_SIZE as int));
    let r = vstd::set_lib::set_int_range(0, CELL_COUNT as int);
    let m = r.map(f);
    vstd::set_lib::lemma_int_range(0, CELL_COUNT as int);
    r.lemma_map_finite(f);
    assert forall|p: (int, int)| all_cells().contains(p) implies m.contains(p) by {
        let i = cell_index(p);
        assert(0 <= i < CELL_COUNT) by (nonlinear_arith)
            requires
                valid_cell(p),
                i == p.0 * BOARD_SIZE + p.1,
                BOARD_SIZE == 19,
                CELL_COUNT == 361,
        ;
        vstd::arithmetic::div_mod::lemma_fundamental_div_mod_converse(
            i,
            BOARD_SIZE as int,
            p.0,
            p.1,
        );
        assert(f(i) == p);
        assert(r.contains(i));
    }
    vstd::set_lib::lemma_set_subset_finite(m, all_cells());
    vstd::set_lib::lemma_len_subset(all_cells(), m);
    vstd::set_lib::lemma_map_size_bound(r, m, f);
}

/// A singleton chain connects every on-board cell to itself.
pub proof fn lemma_connected_refl(b: Seq<Occupy>, s: (int, int))
    requires
        valid_cell(s),
    ensures
        connected(b, s, s),
{
    let ch = seq![s];
    assert(is_chain(b, ch) && ch[0] == s && ch[ch.len() - 1] == s);
}

/// Connectivity extends across one adjacency step into an equal-state cell.
pub proof fn lemma_connected_step(b: Seq<Occupy>, s: (int, int), m: (int, int), n: (int, int))
    requires
        connected(b, s, m),
        adjacent(m, n),
        cell(b, n) == cell(b, s),
    ensures
        connected(b, s, n),
{
    let ch = choose|ch: Seq<(int, int)>| is_chain(b, ch) && ch[0] == s && ch[ch.len() - 1] == m;
    let ch2 = ch.push(n);
    assert(cell(b, s) == cell(b, ch[0]));
    assert forall|k: int| 0 <= k < ch2.len() implies valid_cell(#[trigger] ch2[k]) && cell(
        b,
        ch2[k],
    ) == cell(b, ch2[0]) by {
        if k < ch.len() {
            assert(ch2[k] == ch[k]);
        }
    }
    assert forall|k: int| 0 <= k < ch2.len() - 1 implies adjacent(#[trigger] ch2[k], ch2[k + 1]) by {
        if k < ch.len() - 1 {
            assert(ch2[k] == ch[k] && ch2[k + 1] == ch[k + 1]);
        } else {
            assert(ch2[k] == ch[ch.len() - 1] && ch2[k + 1] == n);
        }
    }
    assert(is_chain(b, ch2) && ch2[0] == s && ch2[ch2.len() - 1] == n);
}

/// Walking a chain never leaves a set that is closed under equal-state
/// adjacency with the chain's colour.
proof fn lemma_chain_in_closed(b: Seq<Occupy>, ch: Seq<(int, int)>, a: Set<(int, int)>, c: Occupy)
    requires
        is_chain(b, ch),
        cell(b, ch[0]) == c,
        a.contains(ch[0]),
        forall|g: (int, int), n: (int, int)|
            a.contains(g) && #[trigger] adjacent(g, n) && cell(b, n) == c ==> a.contains(n),
    ensures
        a.contains(ch[ch.len() - 1]),
    decreases ch.len(),
{
    if ch.len() > 1 {
        let tail = ch.subrange(1, ch.len() as int);
        assert(adjacent(ch[0], ch[1]));
        assert(cell(b, ch[1]) == c);
        assert(a.contains(ch[1]));
        assert forall|k: int| 0 <= k < tail.len() implies valid_cell(#[trigger] tail[k]) && cell(
            b,
            tail[k],
        ) == cell(b, tail[0]) by {
            assert(tail[k] == ch[k + 1]);
        }
        assert forall|k: int| 0 <= k < tail.len() - 1 implies adjacent(
            #[trigger] tail[k],
            tail[k + 1],
        ) by {
            assert(tail[k] == ch[k + 1] && tail[k + 1] == ch[k + 2]);
        }
        assert(is_chain(b, tail));
        lemma_chain_in_closed(b, tail, a, c);
        assert(tail[tail.len() - 1] == ch[ch.len() - 1]);
    }
}

/// Every cell connected to `s` lies in any set that contains `s` and is
/// closed under equal-state adjacency.
pub proof fn lemma_connected_in_closed(
    b: Seq<Occupy>,
    s: (int, int),
    q: (int, int),
    a: Set<(int, int)>,
)
    requires
        connected(b, s, q),
        a.contains(s),
        forall|g: (int, int), n: (int, int)|
            a.contains(g) && #[trigger] adjacent(g, n) && cell(b, n) == cell(b, s) ==> a.contains(
                n,
            ),
    ensures
        a.contains(q),
{
    let ch = choose|ch: Seq<(int, int)>| is_chain(b, ch) && ch[0] == s && ch[ch.len() - 1] == q;
    lemma_chain_in_closed(b, ch, a, cell(b, s));
}

/// Members of a group are on the board and hold the seed's state.
pub proof fn lemma_connected_member(b: Seq<Occupy>, s: (int, int), q: (int, int))
    requires
        connected(b, s, q),
    ensures
        valid_cell(q),
        cell(b, q) == cell(b, s),
{
    let ch = choose|ch: Seq<(int, int)>| is_chain(b, ch) && ch[0] == s && ch[ch.len() - 1] == q;
    assert(valid_cell(ch[ch.len() - 1]) && cell(b, ch[ch.len() - 1]) == cell(b, ch[0]));
}

} // verus!

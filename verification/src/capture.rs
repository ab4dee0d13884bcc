//! Group discovery (flood fill) and capture resolution.

use vstd::prelude::*;
use vstd::pervasive::VecAdditionalExecFns;
use crate::board::{Board, Cell, Coord, GoError, Player, get_index};
use crate::model::{
    GridView, grid_wf, in_bounds, idx, coord_of, cell_at, color_at, is_stone, adj, connected,
    is_liberty_of, group_alive, no_dead_stones, clear_group, place_stone, count_group, count_true,
    count_stones, sum_sizes, run_resolve, lemma_idx_bounds, lemma_coord_of_bounds,
    lemma_connected_refl, lemma_connected_props, lemma_connected_step, lemma_closed_contains_group,
    lemma_count_true_all_false, lemma_count_true_update, lemma_count_true_le, lemma_count_match,
    lemma_count_group_le, lemma_alive_same_group, lemma_clear_preserves_alive,
    lemma_run_resolve_no_dead, lemma_run_resolve_count, lemma_run_resolve_noop,
};

verus! {

/// Some entry of s views to x.
pub open spec fn in_seq(s: Seq<Coord>, x: (int, int)) -> bool {
    exists|i: int| 0 <= i < s.len() && s[i]@ == x
}

/// Some of the first j chain entries has row-major index k.
spec fn cleared_prefix(size: int, chain: Seq<Coord>, j: int, k: int) -> bool {
    exists|jj: int| 0 <= jj < j && idx(size, (#[trigger] chain[jj])@.0, chain[jj]@.1) == k
}

spec fn chain_inv(g: GridView, marks: Seq<bool>, chain: Seq<Coord>, start: (int, int)) -> bool {
    &&& marks.len() == g.cells.len()
    &&& (forall|i: int|
        0 <= i < chain.len() ==> in_bounds(g.size, (#[trigger] chain[i])@.0, chain[i]@.1))
    &&& (forall|i: int| 0 <= i < chain.len() ==> connected(g, start, (#[trigger] chain[i])@))
    &&& (forall|i: int|
        0 <= i < chain.len() ==> marks[idx(g.size, (#[trigger] chain[i])@.0, chain[i]@.1)])
    &&& (forall|k: int|
        0 <= k < marks.len() && #[trigger] marks[k] ==> exists|i: int|
            0 <= i < chain.len() && chain[i]@ == coord_of(g.size, k))
    &&& chain.len() == count_true(marks, marks.len() as int)
}

spec fn libs_inv(g: GridView, lmarks: Seq<bool>, libs: Seq<Coord>, start: (int, int)) -> bool {
    &&& lmarks.len() == g.cells.len()
    &&& (forall|i: int| 0 <= i < libs.len() ==> is_liberty_of(g, (#[trigger] libs[i])@, start))
    &&& (forall|k: int|
        0 <= k < lmarks.len() && #[trigger] lmarks[k] ==> exists|i: int|
            0 <= i < libs.len() && libs[i]@ == coord_of(g.size, k))
}

spec fn stack_inv(g: GridView, stack: Seq<Coord>, start: (int, int)) -> bool {
    forall|i: int| 0 <= i < stack.len() ==> connected(g, start, (#[trigger] stack[i])@)
}

/// Every in-bounds neighbor of x has been recorded: empty ones as liberties,
/// same-colored stones as chain members.
spec fn expanded(g: GridView, marks: Seq<bool>, lmarks: Seq<bool>, x: (int, int)) -> bool {
    forall|y: (int, int)|
        #[trigger] adj(x, y) && in_bounds(g.size, y.0, y.1) ==> {
            &&& (cell_at(g, y.0, y.1) is Empty ==> lmarks[idx(g.size, y.0, y.1)])
            &&& (cell_at(g, y.0, y.1) is Stone && color_at(g, y) == color_at(g, x) ==> marks[idx(
                g.size,
                y.0,
                y.1,
            )])
        }
}

/// Every chain member other than cur is still waiting on the stack or expanded.
spec fn frontier_except(
    g: GridView,
    marks: Seq<bool>,
    lmarks: Seq<bool>,
    chain: Seq<Coord>,
    stack: Seq<Coord>,
    cur: (int, int),
) -> bool {
    forall|i: int|
        0 <= i < chain.len() ==> (#[trigger] chain[i])@ == cur || in_seq(stack, chain[i]@)
            || expanded(g, marks, lmarks, chain[i]@)
}

proof fn lemma_expanded_mono(
    g: GridView,
    m1: Seq<bool>,
    l1: Seq<bool>,
    m2: Seq<bool>,
    l2: Seq<bool>,
    x: (int, int),
)
    requires
        grid_wf(g),
        expanded(g, m1, l1, x),
        m1.len() == g.cells.len(),
        l1.len() == g.cells.len(),
        m2.len() == m1.len(),
        l2.len() == l1.len(),
        forall|k: int| 0 <= k < m1.len() && m1[k] ==> m2[k],
        forall|k: int| 0 <= k < l1.len() && l1[k] ==> l2[k],
    ensures
        expanded(g, m2, l2, x),
{
    assert forall|y: (int, int)| #[trigger] adj(x, y) && in_bounds(g.size, y.0, y.1) implies {
        &&& (cell_at(g, y.0, y.1) is Empty ==> l2[idx(g.size, y.0, y.1)])
        &&& (cell_at(g, y.0, y.1) is Stone && color_at(g, y) == color_at(g, x) ==> m2[idx(
            g.size,
            y.0,
            y.1,
        )])
    } by {
        lemma_idx_bounds(g.size, y.0, y.1);
    }
}

/// Record one in-bounds neighbor of a chain member: an empty point becomes a
/// liberty, a same-colored stone joins the chain and the worklist.
fn visit_neighbor(
    board: &Board,
    start: Coord,
    col: Player,
    cur: Coord,
    nb: Coord,
    marks: &mut Vec<bool>,
    lmarks: &mut Vec<bool>,
    chain: &mut Vec<Coord>,
    stack: &mut Vec<Coord>,
    libs: &mut Vec<Coord>,
)
    requires
        board.wf(),
        is_stone(board@, start@),
        col == color_at(board@, start@),
        connected(board@, start@, cur@),
        in_bounds(board@.size, nb@.0, nb@.1),
        adj(cur@, nb@),
        chain_inv(board@, old(marks)@, old(chain)@, start@),
        libs_inv(board@, old(lmarks)@, old(libs)@, start@),
        stack_inv(board@, old(stack)@, start@),
        frontier_except(board@, old(marks)@, old(lmarks)@, old(chain)@, old(stack)@, cur@),
    ensures
        chain_inv(board@, final(marks)@, final(chain)@, start@),
        libs_inv(board@, final(lmarks)@, final(libs)@, start@),
        stack_inv(board@, final(stack)@, start@),
        frontier_except(board@, final(marks)@, final(lmarks)@, final(chain)@, final(stack)@, cur@),
        final(marks)@.len() == old(marks)@.len(),
        final(lmarks)@.len() == old(lmarks)@.len(),
        forall|k: int| 0 <= k < old(marks)@.len() && old(marks)@[k] ==> final(marks)@[k],
        forall|k: int| 0 <= k < old(lmarks)@.len() && old(lmarks)@[k] ==> final(lmarks)@[k],
        final(stack)@.len() - old(stack)@.len() == final(chain)@.len() - old(chain)@.len(),
        0 <= final(chain)@.len() - old(chain)@.len() <= 1,
        forall|i: int|
            0 <= i < old(stack)@.len() ==> final(stack)@[i] == old(stack)@[i],
        cell_at(board@, nb@.0, nb@.1) is Empty ==> final(lmarks)@[idx(
            board@.size,
            nb@.0,
            nb@.1,
        )],
        (cell_at(board@, nb@.0, nb@.1) is Stone && color_at(board@, nb@) == col)
            ==> final(marks)@[idx(board@.size, nb@.0, nb@.1)],
{
    let k = get_index(board.size(), nb);
    proof {
        lemma_idx_bounds(board@.size, nb@.0, nb@.1);
    }
    match board.at(nb) {
        Cell::Empty => {
            if !lmarks[k] {
                let ghost l0 = lmarks@;
                lmarks.set(k, true);
                libs.push(nb);
                proof {
                    assert(is_liberty_of(board@, nb@, start@)) by {
                        assert(connected(board@, start@, cur@) && adj(cur@, nb@));
                    }
                    assert forall|kk: int|
                        0 <= kk < lmarks@.len() && #[trigger] lmarks@[kk] implies exists|i: int|
                        0 <= i < libs@.len() && libs@[i]@ == coord_of(board@.size, kk) by {
                        if kk == k {
                            assert(libs@[libs@.len() - 1]@ == nb@);
                            assert(coord_of(board@.size, k as int) == nb@);
                        } else {
                            assert(l0[kk]);
                            let i = choose|i: int|
                                0 <= i < old(libs)@.len() && (#[trigger] old(libs)@[i])@
                                    == coord_of(board@.size, kk);
                            assert(libs@[i]@ == coord_of(board@.size, kk));
                        }
                    }
                    assert forall|i: int|
                        0 <= i < chain@.len() implies (#[trigger] chain@[i])@ == cur@ || in_seq(
                        stack@,
                        chain@[i]@,
                    ) || expanded(board@, marks@, lmarks@, chain@[i]@) by {
                        if chain@[i]@ != cur@ && !in_seq(stack@, chain@[i]@) {
                            assert(expanded(board@, marks@, l0, chain@[i]@));
                            lemma_expanded_mono(board@, marks@, l0, marks@, lmarks@, chain@[i]@);
                        }
                    }
                }
            }
        },
        Cell::Stone(p) => {
            if p == col {
                if !marks[k] {
                    let ghost m0 = marks@;
                    marks.set(k, true);
                    chain.push(nb);
                    stack.push(nb);
                    proof {
                        lemma_connected_props(board@, start@, cur@);
                        assert(is_stone(board@, nb@));
                        assert(color_at(board@, nb@) == p);
                        lemma_connected_step(board@, start@, cur@, nb@);
                        lemma_count_true_update(m0, k as int, m0.len() as int);
                        assert forall|i: int|
                            0 <= i < chain@.len() implies marks@[idx(
                            board@.size,
                            (#[trigger] chain@[i])@.0,
                            chain@[i]@.1,
                        )] by {
                            if i < chain@.len() - 1 {
                                assert(chain@[i] == old(chain)@[i]);
                                assert(m0[idx(board@.size, chain@[i]@.0, chain@[i]@.1)]);
                                lemma_idx_bounds(board@.size, chain@[i]@.0, chain@[i]@.1);
                            } else {
                                assert(chain@[i]@ == nb@);
                                assert(idx(board@.size, nb@.0, nb@.1) == k as int);
                                assert(marks@[k as int]);
                            }
                        }
                        assert forall|kk: int|
                            0 <= kk < marks@.len() && #[trigger] marks@[kk] implies exists|i: int|
                            0 <= i < chain@.len() && chain@[i]@ == coord_of(board@.size, kk) by {
                            if kk == k {
                                assert(chain@[chain@.len() - 1]@ == nb@);
                                assert(coord_of(board@.size, k as int) == nb@);
                            } else {
                                assert(m0[kk]);
                                let i = choose|i: int|
                                    0 <= i < old(chain)@.len() && (#[trigger] old(chain)@[i])@
                                        == coord_of(board@.size, kk);
                                assert(chain@[i]@ == coord_of(board@.size, kk));
                            }
                        }
                        assert forall|i: int|
                            0 <= i < chain@.len() implies (#[trigger] chain@[i])@ == cur@
                                || in_seq(stack@, chain@[i]@) || expanded(
                                board@,
                                marks@,
                                lmarks@,
                                chain@[i]@,
                            ) by {
                            if i < chain@.len() - 1 {
                                if in_seq(old(stack)@, chain@[i]@) {
                                    let j = choose|j: int|
                                        0 <= j < old(stack)@.len() && old(stack)@[j]@
                                            == chain@[i]@;
                                    assert(stack@[j]@ == chain@[i]@);
                                } else if expanded(board@, m0, lmarks@, chain@[i]@)
                                    && chain@[i]@ != cur@ {
                                    lemma_expanded_mono(
                                        board@,
                                        m0,
                                        lmarks@,
                                        marks@,
                                        lmarks@,
                                        chain@[i]@,
                                    );
                                }
                            } else {
                                assert(stack@[stack@.len() - 1]@ == chain@[i]@);
                            }
                        }
                    }
                }
            }
        },
    }
}

/// Discover the maximal 4-connected same-colored group holding `start`, and
/// every liberty of that group: its adjacent empty points.
pub fn process_chain(board: &Board, start: Coord) -> (r: (Vec<Coord>, Vec<Coord>))
    requires
        board.wf(),
        is_stone(board@, start@),
    ensures
        forall|i: int| 0 <= i < r.0@.len() ==> connected(board@, start@, (#[trigger] r.0@[i])@),
        forall|co: (int, int)| #[trigger] connected(board@, start@, co) ==> in_seq(r.0@, co),
        r.0@.len() == count_group(board@, start@, board@.cells.len() as int),
        forall|i: int| 0 <= i < r.1@.len() ==> is_liberty_of(board@, (#[trigger] r.1@[i])@, start@),
        forall|l: (int, int)| #[trigger] is_liberty_of(board@, l, start@) ==> in_seq(r.1@, l),
{
    let ghost g = board@;
    let size = board.size();
    assert(size * size <= 255 * 255) by (nonlinear_arith)
        requires
            size <= 255,
    ;
    let n = size * size;
    assert(n == g.cells.len());
    let col = match board.at(start) {
        Cell::Stone(p) => p,
        Cell::Empty => {
            assert(false);
            Player::Black
        },
    };
    let mut marks = false_vec(n);
    let mut lmarks = false_vec(n);
    let mut chain: Vec<Coord> = Vec::new();
    let mut stack: Vec<Coord> = Vec::new();
    let mut libs: Vec<Coord> = Vec::new();
    let si = get_index(size, start);
    proof {
        lemma_idx_bounds(g.size, start@.0, start@.1);
        lemma_count_true_all_false(marks@, n as int);
        lemma_count_true_update(marks@, si as int, n as int);
    }
    marks.set(si, true);
    chain.push(start);
    stack.push(start);
    proof {
        lemma_connected_refl(g, start@);
        assert forall|kk: int|
            0 <= kk < marks@.len() && #[trigger] marks@[kk] implies exists|i: int|
            0 <= i < chain@.len() && chain@[i]@ == coord_of(g.size, kk) by {
            assert(kk == si as int);
            assert(chain@[0]@ == coord_of(g.size, kk));
        }
        assert(chain_inv(g, marks@, chain@, start@));
        assert(libs_inv(g, lmarks@, libs@, start@));
        lemma_count_true_le(marks@, n as int);
    }
    while stack.len() > 0
        invariant
            board.wf(),
            g == board@,
            size == g.size,
            n == g.cells.len(),
            is_stone(g, start@),
            col == color_at(g, start@),
            chain_inv(g, marks@, chain@, start@),
            libs_inv(g, lmarks@, libs@, start@),
            stack_inv(g, stack@, start@),
            marks@[idx(g.size, start@.0, start@.1)],
            forall|i: int|
                0 <= i < chain@.len() ==> in_seq(stack@, (#[trigger] chain@[i])@) || expanded(
                    g,
                    marks@,
                    lmarks@,
                    chain@[i]@,
                ),
            chain@.len() <= n,
        decreases 5 * (n - chain@.len()) + stack@.len(),
    {
        let ghost stack_pre = stack@;
        let cur = match stack.pop() {
            Some(cu) => cu,
            None => {
                assert(false);
                start
            },
        };
        proof {
            assert(cur@ == stack_pre[stack_pre.len() - 1]@);
            lemma_connected_props(g, start@, cur@);
            assert forall|i: int|
                0 <= i < chain@.len() implies (#[trigger] chain@[i])@ == cur@ || in_seq(
                stack@,
                chain@[i]@,
            ) || expanded(g, marks@, lmarks@, chain@[i]@) by {
                if in_seq(stack_pre, chain@[i]@) {
                    let j = choose|j: int|
                        0 <= j < stack_pre.len() && stack_pre[j]@ == chain@[i]@;
                    if j < stack_pre.len() - 1 {
                        assert(stack@[j]@ == chain@[i]@);
                    }
                }
            }
        }
        let r = cur.0;
        let c = cur.1;
        if r > 1 {
            visit_neighbor(
                board,
                start,
                col,
                cur,
                Coord(r - 1, c),
                &mut marks,
                &mut lmarks,
                &mut chain,
                &mut stack,
                &mut libs,
            );
        }
        let ghost m2 = marks@;
        let ghost l2 = lmarks@;
        if r < size {
            visit_neighbor(
                board,
                start,
                col,
                cur,
                Coord(r + 1, c),
                &mut marks,
                &mut lmarks,
                &mut chain,
                &mut stack,
                &mut libs,
            );
        }
        let ghost m3 = marks@;
        let ghost l3 = lmarks@;
        if c > 1 {
            visit_neighbor(
                board,
                start,
                col,
                cur,
                Coord(r, c - 1),
                &mut marks,
                &mut lmarks,
                &mut chain,
                &mut stack,
                &mut libs,
            );
        }
        let ghost m4 = marks@;
        let ghost l4 = lmarks@;
        if c < size {
            visit_neighbor(
                board,
                start,
                col,
                cur,
                Coord(r, c + 1),
                &mut marks,
                &mut lmarks,
                &mut chain,
                &mut stack,
                &mut libs,
            );
        }
        proof {
            assert(expanded(g, marks@, lmarks@, cur@)) by {
                assert forall|y: (int, int)|
                    #[trigger] adj(cur@, y) && in_bounds(g.size, y.0, y.1) implies {
                    &&& (cell_at(g, y.0, y.1) is Empty ==> lmarks@[idx(g.size, y.0, y.1)])
                    &&& (cell_at(g, y.0, y.1) is Stone && color_at(g, y) == color_at(g, cur@)
                        ==> marks@[idx(g.size, y.0, y.1)])
                } by {
                    assert(color_at(g, cur@) == col);
                    lemma_idx_bounds(g.size, y.0, y.1);
                    let ky = idx(g.size, y.0, y.1);
                    if y.0 == cur@.0 - 1 && y.1 == cur@.1 {
                        assert(r > 1);
                        assert(cell_at(g, y.0, y.1) is Empty ==> l2[ky]);
                        assert(cell_at(g, y.0, y.1) is Stone && color_at(g, y) == col
                            ==> m2[ky]);
                    } else if y.0 == cur@.0 + 1 && y.1 == cur@.1 {
                        assert(r < size);
                        assert(cell_at(g, y.0, y.1) is Empty ==> l3[ky]);
                        assert(cell_at(g, y.0, y.1) is Stone && color_at(g, y) == col
                            ==> m3[ky]);
                    } else if y.0 == cur@.0 && y.1 == cur@.1 - 1 {
                        assert(c > 1);
                        assert(cell_at(g, y.0, y.1) is Empty ==> l4[ky]);
                        assert(cell_at(g, y.0, y.1) is Stone && color_at(g, y) == col
                            ==> m4[ky]);
                    } else {
                        assert(y.0 == cur@.0 && y.1 == cur@.1 + 1);
                        assert(c < size);
                    }
                    assert(cell_at(g, y.0, y.1) is Empty ==> lmarks@[ky]);
                    assert(cell_at(g, y.0, y.1) is Stone && color_at(g, y) == col ==> marks@[ky]);
                }
            }
            assert forall|i: int|
                0 <= i < chain@.len() implies in_seq(stack@, (#[trigger] chain@[i])@) || expanded(
                g,
                marks@,
                lmarks@,
                chain@[i]@,
            ) by {
                if chain@[i]@ == cur@ {
                    assert(expanded(g, marks@, lmarks@, cur@));
                }
            }
            lemma_idx_bounds(g.size, start@.0, start@.1);
            lemma_count_true_le(marks@, n as int);
        }
    }
    proof {
        let sset = Set::new(
            |x: (int, int)| in_bounds(g.size, x.0, x.1) && marks@[idx(g.size, x.0, x.1)],
        );
        lemma_idx_bounds(g.size, start@.0, start@.1);
        assert(sset.contains(start@));
        assert forall|a: (int, int), b: (int, int)|
            sset.contains(a) && #[trigger] adj(a, b) && is_stone(g, a) && is_stone(g, b)
                && color_at(g, b) == color_at(g, a) implies sset.contains(b) by {
            lemma_idx_bounds(g.size, a.0, a.1);
            lemma_idx_bounds(g.size, b.0, b.1);
            let ka = idx(g.size, a.0, a.1);
            assert(marks@[ka]);
            let i = choose|i: int| 0 <= i < chain@.len() && chain@[i]@ == coord_of(g.size, ka);
            assert(chain@[i]@ == a);
            assert(!in_seq(stack@, a));
            assert(expanded(g, marks@, lmarks@, a));
        }
        assert forall|co: (int, int)| #[trigger] connected(g, start@, co) implies in_seq(
            chain@,
            co,
        ) by {
            lemma_closed_contains_group(g, sset, start@, co);
            lemma_connected_props(g, start@, co);
            lemma_idx_bounds(g.size, co.0, co.1);
            let kc = idx(g.size, co.0, co.1);
            assert(marks@[kc]);
            let i = choose|i: int| 0 <= i < chain@.len() && chain@[i]@ == coord_of(g.size, kc);
            assert(chain@[i]@ == co);
        }
        assert forall|l: (int, int)| #[trigger] is_liberty_of(g, l, start@) implies in_seq(
            libs@,
            l,
        ) by {
            let m = choose|m: (int, int)| connected(g, start@, m) && adj(m, l);
            assert(in_seq(chain@, m));
            let i = choose|i: int| 0 <= i < chain@.len() && chain@[i]@ == m;
            assert(!in_seq(stack@, m));
            assert(expanded(g, marks@, lmarks@, m));
            assert(adj(m, l));
            lemma_idx_bounds(g.size, l.0, l.1);
            let kl = idx(g.size, l.0, l.1);
            assert(lmarks@[kl]);
            let i2 = choose|i2: int| 0 <= i2 < libs@.len() && libs@[i2]@ == coord_of(g.size, kl);
            assert(libs@[i2]@ == l);
        }
        assert forall|k: int| 0 <= k < n implies (marks@[k] <==> connected(
            g,
            start@,
            coord_of(g.size, k),
        )) by {
            lemma_coord_of_bounds(g.size, k);
            if marks@[k] {
                let i = choose|i: int| 0 <= i < chain@.len() && chain@[i]@ == coord_of(g.size, k);
                assert(connected(g, start@, chain@[i]@));
            }
            if connected(g, start@, coord_of(g.size, k)) {
                let co = coord_of(g.size, k);
                assert(in_seq(chain@, co));
                let i = choose|i: int| 0 <= i < chain@.len() && chain@[i]@ == co;
                assert(marks@[idx(g.size, chain@[i]@.0, chain@[i]@.1)]);
            }
        }
        lemma_count_match(g, start@, marks@, n as int);
    }
    (chain, libs)
}

/// A vector of n entries, all false.
fn false_vec(n: usize) -> (r: Vec<bool>)
    ensures
        r@.len() == n,
        forall|k: int| 0 <= k < n ==> !r@[k],
{
    let mut v: Vec<bool> = Vec::new();
    let mut i: usize = 0;
    while i < n
        invariant
            i <= n,
            v@.len() == i,
            forall|k: int| 0 <= k < i ==> !v@[k],
        decreases n - i,
    {
        v.push(false);
        i = i + 1;
    }
    v
}

/// One capture pass: scan the whole board in row-major order, remove every
/// group without a liberty the moment it is met, and report the removed group
/// sizes in scan order. Afterwards no group on the board lacks a liberty, and
/// a pass over a board without dead groups changes nothing.
pub fn resolve_capture(board: &mut Board) -> (out: Vec<u16>)
    requires
        old(board).wf(),
    ensures
        final(board).wf(),
        final(board)@.size == old(board)@.size,
        final(board)@ == run_resolve(old(board)@, 0).0,
        out@ == run_resolve(old(board)@, 0).1,
        no_dead_stones(final(board)@),
        count_stones(final(board)@.cells, final(board)@.cells.len() as int) + sum_sizes(out@)
            == count_stones(old(board)@.cells, old(board)@.cells.len() as int),
        no_dead_stones(old(board)@) ==> final(board)@ == old(board)@ && out@ == Seq::<u16>::empty(),
{
    let ghost g0 = board@;
    let size = board.size();
    assert(size * size <= 255 * 255) by (nonlinear_arith)
        requires
            size <= 255,
    ;
    let n = size * size;
    let mut out: Vec<u16> = Vec::new();
    let mut processed = false_vec(n);
    let mut pos: usize = 0;
    proof {
        assert(out@ + run_resolve(g0, 0).1 =~= run_resolve(g0, 0).1);
    }
    while pos < n
        invariant
            board.wf(),
            board@.size == g0.size,
            grid_wf(g0),
            size == g0.size,
            n == board@.cells.len(),
            n == g0.cells.len(),
            pos <= n,
            processed@.len() == n,
            n <= 65025,
            run_resolve(g0, 0).0 == run_resolve(board@, pos as int).0,
            run_resolve(g0, 0).1 == out@ + run_resolve(board@, pos as int).1,
            forall|k: int|
                0 <= k < n && #[trigger] processed@[k] && board@.cells[k] is Stone ==> group_alive(
                    board@,
                    coord_of(board@.size, k),
                ),
        decreases n - pos,
    {
        let ghost gpre = board@;
        let coord = Coord(pos / size + 1, pos % size + 1);
        proof {
            lemma_coord_of_bounds(gpre.size, pos as int);
            assert(coord@ == coord_of(gpre.size, pos as int));
            assert(idx(gpre.size, coord@.0, coord@.1) == pos as int);
        }
        let cell = board.at(coord);
        let is_occupied = match cell {
            Cell::Stone(_) => true,
            Cell::Empty => false,
        };
        if is_occupied && !processed[pos] {
            let (chain, libs) = process_chain(board, coord);
            if libs.len() == 0 {
                proof {
                    assert(!group_alive(gpre, coord@)) by {
                        if group_alive(gpre, coord@) {
                            let l = choose|l: (int, int)| is_liberty_of(gpre, l, coord@);
                            assert(in_seq(libs@, l));
                        }
                    }
                    lemma_count_group_le(gpre, coord@, n as int);
                }
                let sz = chain.len();
                proof {
                    assert(sz <= n);
                }
                let ghost out0 = out@;
                out.push(sz as u16);
                let mut j: usize = 0;
                while j < chain.len()
                    invariant
                        j <= chain@.len(),
                        board.wf(),
                        board@.size == gpre.size,
                        grid_wf(gpre),
                        n == board@.cells.len(),
                        n == gpre.cells.len(),
                        size == gpre.size,
                        forall|i: int|
                            0 <= i < chain@.len() ==> in_bounds(
                                gpre.size,
                                (#[trigger] chain@[i])@.0,
                                chain@[i]@.1,
                            ) && connected(gpre, coord@, chain@[i]@),
                        forall|k: int|
                            0 <= k < n ==> board@.cells[k] == (if cleared_prefix(
                                gpre.size,
                                chain@,
                                j as int,
                                k,
                            ) {
                                Cell::Empty
                            } else {
                                gpre.cells[k]
                            }),
                    decreases chain@.len() - j,
                {
                    let ghost gmid = board@;
                    board.put(chain[j], Cell::Empty);
                    proof {
                        let kj = idx(gpre.size, chain@[j as int]@.0, chain@[j as int]@.1);
                        lemma_idx_bounds(gpre.size, chain@[j as int]@.0, chain@[j as int]@.1);
                        assert forall|k: int| 0 <= k < n implies board@.cells[k] == (
                        if cleared_prefix(gpre.size, chain@, j as int + 1, k) {
                            Cell::Empty
                        } else {
                            gpre.cells[k]
                        }) by {
                            if k == kj {
                                assert(cleared_prefix(gpre.size, chain@, j as int + 1, k));
                            } else {
                                assert(board@.cells[k] == gmid.cells[k]);
                                if cleared_prefix(gpre.size, chain@, j as int + 1, k) {
                                    let jj = choose|jj: int|
                                        0 <= jj < j + 1 && idx(
                                            gpre.size,
                                            (#[trigger] chain@[jj])@.0,
                                            chain@[jj]@.1,
                                        ) == k;
                                    assert(jj < j);
                                    assert(cleared_prefix(gpre.size, chain@, j as int, k));
                                }
                            }
                        }
                    }
                    j = j + 1;
                }
                let mut j2: usize = 0;
                proof {
                    assert(board@.cells =~= clear_group(gpre, coord@).cells) by {
                        assert forall|k: int| 0 <= k < n implies board@.cells[k] == clear_group(
                            gpre,
                            coord@,
                        ).cells[k] by {
                            lemma_coord_of_bounds(gpre.size, k);
                            if cleared_prefix(gpre.size, chain@, chain@.len() as int, k) {
                                let jj = choose|jj: int|
                                    0 <= jj < chain@.len() && idx(
                                        gpre.size,
                                        (#[trigger] chain@[jj])@.0,
                                        chain@[jj]@.1,
                                    ) == k;
                                lemma_idx_bounds(gpre.size, chain@[jj]@.0, chain@[jj]@.1);
                                assert(coord_of(gpre.size, k) == chain@[jj]@);
                                assert(connected(gpre, coord@, coord_of(gpre.size, k)));
                            } else {
                                if connected(gpre, coord@, coord_of(gpre.size, k)) {
                                    assert(in_seq(chain@, coord_of(gpre.size, k)));
                                    let i = choose|i: int|
                                        0 <= i < chain@.len() && chain@[i]@ == coord_of(
                                            gpre.size,
                                            k,
                                        );
                                    assert(idx(gpre.size, chain@[i]@.0, chain@[i]@.1) == k);
                                    assert(cleared_prefix(
                                        gpre.size,
                                        chain@,
                                        chain@.len() as int,
                                        k,
                                    ));
                                    assert(false);
                                }
                            }
                        }
                    }
                    assert(board@ == clear_group(gpre, coord@));
                    // the spec pass clears this very group at this position
                    assert(gpre.cells[pos as int] is Stone);
                    assert(sz as u16 == count_group(gpre, coord@, n as int) as u16);
                    assert(run_resolve(gpre, pos as int).0 == run_resolve(
                        board@,
                        pos as int + 1,
                    ).0);
                    assert(run_resolve(gpre, pos as int).1 == seq![(sz as u16)] + run_resolve(
                        board@,
                        pos as int + 1,
                    ).1);
                    assert(out0 + (seq![(sz as u16)] + run_resolve(board@, pos as int + 1).1)
                        =~= out@ + run_resolve(board@, pos as int + 1).1);
                    assert forall|k: int|
                        0 <= k < n && #[trigger] processed@[k] && board@.cells[k] is Stone
                            implies group_alive(board@, coord_of(board@.size, k)) by {
                        lemma_coord_of_bounds(gpre.size, k);
                        let ck = coord_of(gpre.size, k);
                        assert(!connected(gpre, coord@, ck) && board@.cells[k] == gpre.cells[k]);
                        assert(is_stone(gpre, ck));
                        assert(group_alive(gpre, ck));
                        lemma_clear_preserves_alive(gpre, coord@, ck);
                    }
                }
                while j2 < chain.len()
                    invariant
                        j2 <= chain@.len(),
                        board.wf(),
                        board@ == clear_group(gpre, coord@),
                        grid_wf(gpre),
                        n == board@.cells.len(),
                        n == gpre.cells.len(),
                        size == gpre.size,
                        processed@.len() == n,
                        forall|i: int|
                            0 <= i < chain@.len() ==> in_bounds(
                                gpre.size,
                                (#[trigger] chain@[i])@.0,
                                chain@[i]@.1,
                            ) && connected(gpre, coord@, chain@[i]@),
                        forall|k: int|
                            0 <= k < n && #[trigger] processed@[k] && board@.cells[k] is Stone
                                ==> group_alive(board@, coord_of(board@.size, k)),
                    decreases chain@.len() - j2,
                {
                    let k2 = get_index(size, chain[j2]);
                    processed.set(k2, true);
                    proof {
                        lemma_idx_bounds(gpre.size, chain@[j2 as int]@.0, chain@[j2 as int]@.1);
                        assert(board@.cells[k2 as int] == Cell::Empty) by {
                            assert(coord_of(gpre.size, k2 as int) == chain@[j2 as int]@);
                            assert(connected(gpre, coord@, chain@[j2 as int]@));
                        }
                    }
                    j2 = j2 + 1;
                }
            } else {
                proof {
                    assert(is_liberty_of(gpre, libs@[0]@, coord@));
                    assert(group_alive(gpre, coord@));
                }
                let mut j: usize = 0;
                while j < chain.len()
                    invariant
                        j <= chain@.len(),
                        board.wf(),
                        board@ == gpre,
                        grid_wf(gpre),
                        n == board@.cells.len(),
                        size == gpre.size,
                        processed@.len() == n,
                        group_alive(gpre, coord@),
                        forall|i: int|
                            0 <= i < chain@.len() ==> in_bounds(
                                gpre.size,
                                (#[trigger] chain@[i])@.0,
                                chain@[i]@.1,
                            ) && connected(gpre, coord@, chain@[i]@),
                        forall|k: int|
                            0 <= k < n && #[trigger] processed@[k] && board@.cells[k] is Stone
                                ==> group_alive(board@, coord_of(board@.size, k)),
                    decreases chain@.len() - j,
                {
                    let k2 = get_index(size, chain[j]);
                    processed.set(k2, true);
                    proof {
                        lemma_idx_bounds(gpre.size, chain@[j as int]@.0, chain@[j as int]@.1);
                        lemma_alive_same_group(gpre, coord@, chain@[j as int]@);
                        assert(coord_of(gpre.size, k2 as int) == chain@[j as int]@);
                    }
                    j = j + 1;
                }
            }
        } else {
            proof {
                if is_occupied {
                    assert(processed@[pos as int]);
                    assert(group_alive(gpre, coord_of(gpre.size, pos as int)));
                }
            }
        }
        pos = pos + 1;
        proof {
            assert(run_resolve(g0, 0).1 == out@ + run_resolve(board@, pos as int).1);
        }
    }
    proof {
        assert(run_resolve(board@, n as int).0 == board@);
        assert(run_resolve(board@, n as int).1 == Seq::<u16>::empty());
        assert(out@ + Seq::<u16>::empty() =~= out@);
        lemma_run_resolve_no_dead(g0, 0);
        lemma_run_resolve_count(g0, 0);
        if no_dead_stones(g0) {
            lemma_run_resolve_noop(g0, 0);
        }
    }
    out
}

/// Place a stone of `player` at an in-bounds coordinate, overwriting whatever
/// was there, then run one capture pass; out-of-bounds placement is a typed
/// failure that leaves the board unchanged.
pub fn update_board(board: &mut Board, coord: Coord, player: Player) -> (r: Result<
    Vec<u16>,
    GoError,
>)
    requires
        old(board).wf(),
    ensures
        final(board).wf(),
        final(board)@.size == old(board)@.size,
        !in_bounds(old(board)@.size, coord@.0, coord@.1) ==> r == Result::<Vec<u16>, GoError>::Err(
            GoError::InvalidCoordinate,
        ) && final(board)@ == old(board)@,
        in_bounds(old(board)@.size, coord@.0, coord@.1) ==> (r matches Ok(v) && final(board)@
            == run_resolve(place_stone(old(board)@, coord@, player), 0).0 && v@ == run_resolve(
            place_stone(old(board)@, coord@, player),
            0,
        ).1 && no_dead_stones(final(board)@)),
{
    if !(coord.0 >= 1 && coord.0 <= board.size() && coord.1 >= 1 && coord.1 <= board.size()) {
        return Err(GoError::InvalidCoordinate);
    }
    board.put(coord, Cell::Stone(player));
    proof {
        assert(board@ == place_stone(old(board)@, coord@, player));
    }
    Ok(resolve_capture(board))
}

} // verus!

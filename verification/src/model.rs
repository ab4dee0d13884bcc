//! Mathematical model of the board: cells in row-major order, 4-adjacency,
//! same-colored chains, liberties, and one capture-resolution pass.

use vstd::prelude::*;
use vstd::arithmetic::div_mod::{lemma_fundamental_div_mod, lemma_fundamental_div_mod_converse};
use crate::board::{Cell, Player};

verus! {

/// The model of a board: a row-major sequence of cells and the side length.
pub struct GridView {
    pub cells: Seq<Cell>,
    pub size: int,
}

/// Largest accepted side length: keeps every group size within `u16`
/// and every index computation within `usize`.
pub open spec fn max_size() -> int {
    255
}

pub open spec fn grid_wf(g: GridView) -> bool {
    &&& 1 <= g.size <= max_size()
    &&& g.cells.len() == g.size * g.size
}

/// Coordinates are 1-based on both axes.
pub open spec fn in_bounds(size: int, r: int, c: int) -> bool {
    1 <= r <= size && 1 <= c <= size
}

/// Row-major index of the coordinate (r, c).
pub open spec fn idx(size: int, r: int, c: int) -> int {
    (r - 1) * size + (c - 1)
}

/// The coordinate whose row-major index is k.
pub open spec fn coord_of(size: int, k: int) -> (int, int) {
    (k / size + 1, k % size + 1)
}

pub open spec fn cell_at(g: GridView, r: int, c: int) -> Cell {
    g.cells[idx(g.size, r, c)]
}

pub open spec fn is_stone(g: GridView, p: (int, int)) -> bool {
    in_bounds(g.size, p.0, p.1) && cell_at(g, p.0, p.1) is Stone
}

pub open spec fn color_at(g: GridView, p: (int, int)) -> Player {
    match cell_at(g, p.0, p.1) {
        Cell::Stone(pl) => pl,
        Cell::Empty => Player::Black,
    }
}

/// 4-directional adjacency; off-board coordinates are never adjacent to anything
/// once bounds are required alongside.
pub open spec fn adj(p: (int, int), q: (int, int)) -> bool {
    ||| p.0 == q.0 && (q.1 == p.1 + 1 || q.1 == p.1 - 1)
    ||| p.1 == q.1 && (q.0 == p.0 + 1 || q.0 == p.0 - 1)
}

/// A chain: every entry holds a stone of one color, consecutive entries 4-adjacent.
pub open spec fn path_ok(g: GridView, p: Seq<(int, int)>) -> bool {
    &&& p.len() >= 1
    &&& forall|i: int|
        0 <= i < p.len() ==> is_stone(g, #[trigger] p[i]) && color_at(g, p[i]) == color_at(g, p[0])
    &&& forall|i: int| 0 <= i < p.len() - 1 ==> adj(#[trigger] p[i], p[i + 1])
}

/// a and b hold stones of the same group: a same-colored chain joins them.
pub open spec fn connected(g: GridView, a: (int, int), b: (int, int)) -> bool {
    exists|p: Seq<(int, int)>| path_ok(g, p) && p.first() == a && p.last() == b
}

/// l is an empty in-bounds point 4-adjacent to some stone of the group of s.
pub open spec fn is_liberty_of(g: GridView, l: (int, int), s: (int, int)) -> bool {
    &&& in_bounds(g.size, l.0, l.1)
    &&& cell_at(g, l.0, l.1) is Empty
    &&& exists|m: (int, int)| connected(g, s, m) && adj(m, l)
}

pub open spec fn group_alive(g: GridView, s: (int, int)) -> bool {
    exists|l: (int, int)| is_liberty_of(g, l, s)
}

/// No stone on the board belongs to a group without liberties.
pub open spec fn no_dead_stones(g: GridView) -> bool {
    forall|k: int|
        0 <= k < g.cells.len() && #[trigger] g.cells[k] is Stone ==> group_alive(
            g,
            coord_of(g.size, k),
        )
}

/// The board after the whole group of s is removed.
pub open spec fn clear_group(g: GridView, s: (int, int)) -> GridView {
    GridView {
        cells: Seq::new(
            g.cells.len(),
            |k: int|
                if connected(g, s, coord_of(g.size, k)) {
                    Cell::Empty
                } else {
                    g.cells[k]
                },
        ),
        size: g.size,
    }
}

/// The board after a stone of pl is written at co, any previous content overwritten.
pub open spec fn place_stone(g: GridView, co: (int, int), pl: Player) -> GridView {
    GridView { cells: g.cells.update(idx(g.size, co.0, co.1), Cell::Stone(pl)), size: g.size }
}

/// How many of the first `upto` cells hold stones.
pub open spec fn count_stones(cells: Seq<Cell>, upto: int) -> int
    decreases upto,
{
    if upto <= 0 {
        0
    } else {
        count_stones(cells, upto - 1) + (if cells[upto - 1] is Stone {
            1int
        } else {
            0int
        })
    }
}

/// How many of the first `upto` flat positions belong to the group of s.
pub open spec fn count_group(g: GridView, s: (int, int), upto: int) -> int
    decreases upto,
{
    if upto <= 0 {
        0
    } else {
        count_group(g, s, upto - 1) + (if connected(g, s, coord_of(g.size, upto - 1)) {
            1int
        } else {
            0int
        })
    }
}

/// How many of the first `upto` entries are true.
pub open spec fn count_true(s: Seq<bool>, upto: int) -> int
    decreases upto,
{
    if upto <= 0 {
        0
    } else {
        count_true(s, upto - 1) + (if s[upto - 1] {
            1int
        } else {
            0int
        })
    }
}

pub open spec fn sum_sizes(s: Seq<u16>) -> int
    decreases s.len(),
{
    if s.len() == 0 {
        0
    } else {
        s[0] + sum_sizes(s.drop_first())
    }
}

/// One full capture pass from flat position `pos` on: when the scan meets a
/// stone whose group has no liberties, the whole group is cleared at once and
/// its size recorded, so later positions see the already-thinned board.
pub open spec fn run_resolve(g: GridView, pos: int) -> (GridView, Seq<u16>)
    decreases g.cells.len() - pos
        when pos <= g.cells.len()
{
    if pos < 0 || pos >= g.cells.len() {
        (g, Seq::empty())
    } else if g.cells[pos] is Stone && !group_alive(g, coord_of(g.size, pos)) {
        let sz = count_group(g, coord_of(g.size, pos), g.cells.len() as int) as u16;
        let rec = run_resolve(clear_group(g, coord_of(g.size, pos)), pos + 1);
        (rec.0, seq![sz] + rec.1)
    } else {
        run_resolve(g, pos + 1)
    }
}

/// The display text of one row from column c on: each cell's symbol and a blank.
pub open spec fn render_row(g: GridView, r: int, c: int) -> Seq<char>
    decreases g.size + 1 - c
        when c >= 1
{
    if c < 1 || c > g.size {
        Seq::empty()
    } else {
        seq![crate::board::cell_char(cell_at(g, r, c)), ' '] + render_row(g, r, c + 1)
    }
}

/// The display text from row r on: each row opened by a newline.
pub open spec fn render_rows(g: GridView, r: int) -> Seq<char>
    decreases g.size + 1 - r
        when r >= 1
{
    if r < 1 || r > g.size {
        Seq::empty()
    } else {
        seq!['\n'] + render_row(g, r, 1) + render_rows(g, r + 1)
    }
}

/// The display text of the whole grid.
pub open spec fn render(g: GridView) -> Seq<char> {
    render_rows(g, 1)
}

pub proof fn lemma_render_row_step(g: GridView, r: int, c: int)
    requires
        1 <= c <= g.size,
    ensures
        render_row(g, r, c) == seq![crate::board::cell_char(cell_at(g, r, c)), ' '] + render_row(
            g,
            r,
            c + 1,
        ),
{
}

pub proof fn lemma_render_row_done(g: GridView, r: int, c: int)
    requires
        c > g.size,
        c >= 1,
    ensures
        render_row(g, r, c) == Seq::<char>::empty(),
{
}

pub proof fn lemma_render_rows_step(g: GridView, r: int)
    requires
        1 <= r <= g.size,
    ensures
        render_rows(g, r) == seq!['\n'] + render_row(g, r, 1) + render_rows(g, r + 1),
{
}

pub proof fn lemma_render_rows_done(g: GridView, r: int)
    requires
        r > g.size,
        r >= 1,
    ensures
        render_rows(g, r) == Seq::<char>::empty(),
{
}

pub proof fn lemma_idx_bounds(size: int, r: int, c: int)
    requires
        1 <= size,
        in_bounds(size, r, c),
    ensures
        0 <= idx(size, r, c) < size * size,
        coord_of(size, idx(size, r, c)) == (r, c),
{
    let k = idx(size, r, c);
    assert(0 <= k && k < size * size) by (nonlinear_arith)
        requires
            1 <= r <= size,
            1 <= c <= size,
            k == (r - 1) * size + (c - 1),
    ;
    lemma_fundamental_div_mod_converse(k, size, r - 1, c - 1);
}

pub proof fn lemma_coord_of_bounds(size: int, k: int)
    requires
        1 <= size,
        0 <= k < size * size,
    ensures
        in_bounds(size, coord_of(size, k).0, coord_of(size, k).1),
        idx(size, coord_of(size, k).0, coord_of(size, k).1) == k,
{
    lemma_fundamental_div_mod(k, size);
    let q = k / size;
    let rem = k % size;
    assert(0 <= rem < size) by (nonlinear_arith)
        requires
            1 <= size,
            k == size * q + rem,
            0 <= k,
            rem == k % size,
    {
        vstd::arithmetic::div_mod::lemma_mod_bound(k, size);
    }
    assert(0 <= q < size) by (nonlinear_arith)
        requires
            k == size * q + rem,
            0 <= rem < size,
            0 <= k,
            k < size * size,
    ;
    assert(idx(size, q + 1, rem + 1) == q * size + rem);
    assert(q * size + rem == k) by (nonlinear_arith)
        requires
            k == size * q + rem,
    ;
}

pub proof fn lemma_connected_refl(g: GridView, a: (int, int))
    requires
        is_stone(g, a),
    ensures
        connected(g, a, a),
{
    let p = seq![a];
    assert(path_ok(g, p));
    assert(p.first() == a && p.last() == a);
}

pub proof fn lemma_connected_props(g: GridView, a: (int, int), b: (int, int))
    requires
        connected(g, a, b),
    ensures
        is_stone(g, a),
        is_stone(g, b),
        color_at(g, a) == color_at(g, b),
{
    let p = choose|p: Seq<(int, int)>| path_ok(g, p) && p.first() == a && p.last() == b;
    assert(is_stone(g, p[0]));
    assert(is_stone(g, p[p.len() - 1]));
}

pub proof fn lemma_connected_sym(g: GridView, a: (int, int), b: (int, int))
    requires
        connected(g, a, b),
    ensures
        connected(g, b, a),
{
    let p = choose|p: Seq<(int, int)>| path_ok(g, p) && p.first() == a && p.last() == b;
    let n = p.len() as int;
    let q = Seq::new(p.len(), |i: int| p[n - 1 - i]);
    assert(q[0] == p[n - 1]);
    assert forall|i: int| 0 <= i < q.len() implies is_stone(g, #[trigger] q[i]) && color_at(g, q[i])
        == color_at(g, q[0]) by {
        assert(q[i] == p[n - 1 - i]);
    }
    assert forall|i: int| 0 <= i < q.len() - 1 implies adj(#[trigger] q[i], q[i + 1]) by {
        assert(adj(p[n - 2 - i], p[n - 1 - i]));
    }
    assert(path_ok(g, q) && q.first() == b && q.last() == a);
}

pub proof fn lemma_connected_trans(g: GridView, a: (int, int), b: (int, int), c: (int, int))
    requires
        connected(g, a, b),
        connected(g, b, c),
    ensures
        connected(g, a, c),
{
    let p = choose|p: Seq<(int, int)>| path_ok(g, p) && p.first() == a && p.last() == b;
    let q = choose|q: Seq<(int, int)>| path_ok(g, q) && q.first() == b && q.last() == c;
    if q.len() == 1 {
        assert(c == b);
    } else {
        let r = p + q.drop_first();
        let pn = p.len() as int;
        assert forall|i: int| 0 <= i < r.len() implies is_stone(g, #[trigger] r[i]) && color_at(
            g,
            r[i],
        ) == color_at(g, r[0]) by {
            if i < pn {
                assert(r[i] == p[i]);
            } else {
                assert(r[i] == q[i - pn + 1]);
                assert(color_at(g, q[i - pn + 1]) == color_at(g, q[0]));
                assert(color_at(g, q[0]) == color_at(g, p[pn - 1]));
            }
        }
        assert forall|i: int| 0 <= i < r.len() - 1 implies adj(#[trigger] r[i], r[i + 1]) by {
            if i < pn - 1 {
                assert(r[i] == p[i] && r[i + 1] == p[i + 1]);
            } else if i == pn - 1 {
                assert(r[i] == p[pn - 1] && r[i + 1] == q[1]);
                assert(adj(q[0], q[1]));
            } else {
                assert(r[i] == q[i - pn + 1] && r[i + 1] == q[i - pn + 2]);
                assert(adj(q[i - pn + 1], q[i - pn + 2]));
            }
        }
        assert(path_ok(g, r) && r.first() == a && r.last() == c);
    }
}

pub proof fn lemma_connected_step(g: GridView, a: (int, int), b: (int, int), c: (int, int))
    requires
        connected(g, a, b),
        adj(b, c),
        is_stone(g, c),
        color_at(g, c) == color_at(g, b),
    ensures
        connected(g, a, c),
{
    let p = choose|p: Seq<(int, int)>| path_ok(g, p) && p.first() == a && p.last() == b;
    let q = p.push(c);
    assert forall|i: int| 0 <= i < q.len() implies is_stone(g, #[trigger] q[i]) && color_at(
        g,
        q[i],
    ) == color_at(g, q[0]) by {
        if i < p.len() {
            assert(q[i] == p[i]);
        } else {
            assert(q[i] == c);
            assert(color_at(g, p[p.len() - 1]) == color_at(g, p[0]));
        }
    }
    assert forall|i: int| 0 <= i < q.len() - 1 implies adj(#[trigger] q[i], q[i + 1]) by {
        if i < p.len() - 1 {
            assert(q[i] == p[i] && q[i + 1] == p[i + 1]);
            assert(adj(p[i], p[i + 1]));
        } else {
            assert(q[i] == p[p.len() - 1] && q[i + 1] == c);
        }
    }
    assert(path_ok(g, q) && q.first() == a && q.last() == c);
}

/// Groups that share a stone coincide: every stone lies in exactly one group.
pub proof fn lemma_groups_partition(g: GridView, a: (int, int), b: (int, int), x: (int, int))
    requires
        connected(g, a, x),
        connected(g, b, x),
    ensures
        forall|y: (int, int)| connected(g, a, y) <==> connected(g, b, y),
{
    assert forall|y: (int, int)| connected(g, a, y) implies connected(g, b, y) by {
        lemma_connected_sym(g, a, x);
        lemma_connected_trans(g, b, x, a);
        lemma_connected_trans(g, b, a, y);
    }
    assert forall|y: (int, int)| connected(g, b, y) implies connected(g, a, y) by {
        lemma_connected_sym(g, b, x);
        lemma_connected_trans(g, a, x, b);
        lemma_connected_trans(g, a, b, y);
    }
}

/// A liberty of a group serves every stone of that group.
pub proof fn lemma_alive_same_group(g: GridView, s: (int, int), m: (int, int))
    requires
        connected(g, s, m),
        group_alive(g, s),
    ensures
        group_alive(g, m),
{
    let l = choose|l: (int, int)| is_liberty_of(g, l, s);
    let w = choose|w: (int, int)| connected(g, s, w) && adj(w, l);
    lemma_connected_sym(g, s, m);
    lemma_connected_trans(g, m, s, w);
    assert(is_liberty_of(g, l, m));
}

pub proof fn lemma_prefix_connected(g: GridView, p: Seq<(int, int)>, i: int)
    requires
        path_ok(g, p),
        0 <= i < p.len(),
    ensures
        connected(g, p.first(), p[i]),
{
    let q = p.subrange(0, i + 1);
    assert forall|j: int| 0 <= j < q.len() implies is_stone(g, #[trigger] q[j]) && color_at(
        g,
        q[j],
    ) == color_at(g, q[0]) by {
        assert(q[j] == p[j]);
    }
    assert forall|j: int| 0 <= j < q.len() - 1 implies adj(#[trigger] q[j], q[j + 1]) by {
        assert(q[j] == p[j] && q[j + 1] == p[j + 1]);
        assert(adj(p[j], p[j + 1]));
    }
    assert(path_ok(g, q) && q.first() == p.first() && q.last() == p[i]);
}

pub proof fn lemma_path_stays_in_closed(g: GridView, s: Set<(int, int)>, p: Seq<(int, int)>)
    requires
        path_ok(g, p),
        s.contains(p.first()),
        forall|x: (int, int), y: (int, int)|
            s.contains(x) && #[trigger] adj(x, y) && is_stone(g, x) && is_stone(g, y) && color_at(
                g,
                y,
            ) == color_at(g, x) ==> s.contains(y),
    ensures
        s.contains(p.last()),
    decreases p.len(),
{
    if p.len() > 1 {
        let q = p.drop_last();
        assert forall|j: int| 0 <= j < q.len() implies is_stone(g, #[trigger] q[j]) && color_at(
            g,
            q[j],
        ) == color_at(g, q[0]) by {
            assert(q[j] == p[j]);
        }
        assert forall|j: int| 0 <= j < q.len() - 1 implies adj(#[trigger] q[j], q[j + 1]) by {
            assert(q[j] == p[j] && q[j + 1] == p[j + 1]);
            assert(adj(p[j], p[j + 1]));
        }
        assert(path_ok(g, q));
        lemma_path_stays_in_closed(g, s, q);
        let n = p.len() as int;
        assert(q.last() == p[n - 2]);
        assert(adj(p[n - 2], p[n - 1]));
        assert(color_at(g, p[n - 1]) == color_at(g, p[n - 2]));
    }
}

/// A set that contains the seed and is closed under same-colored adjacency
/// contains the seed's whole group.
pub proof fn lemma_closed_contains_group(
    g: GridView,
    s: Set<(int, int)>,
    start: (int, int),
    x: (int, int),
)
    requires
        s.contains(start),
        forall|a: (int, int), b: (int, int)|
            s.contains(a) && #[trigger] adj(a, b) && is_stone(g, a) && is_stone(g, b) && color_at(
                g,
                b,
            ) == color_at(g, a) ==> s.contains(b),
        connected(g, start, x),
    ensures
        s.contains(x),
{
    let p = choose|p: Seq<(int, int)>| path_ok(g, p) && p.first() == start && p.last() == x;
    lemma_path_stays_in_closed(g, s, p);
}

pub proof fn lemma_count_true_all_false(s: Seq<bool>, upto: int)
    requires
        forall|k: int| 0 <= k < upto ==> !s[k],
    ensures
        count_true(s, upto) == 0,
    decreases upto,
{
    if upto > 0 {
        lemma_count_true_all_false(s, upto - 1);
    }
}

pub proof fn lemma_count_true_le(s: Seq<bool>, upto: int)
    ensures
        0 <= count_true(s, upto) <= (if upto >= 0 {
            upto
        } else {
            0
        }),
    decreases upto,
{
    if upto > 0 {
        lemma_count_true_le(s, upto - 1);
    }
}

pub proof fn lemma_count_group_le(g: GridView, s: (int, int), upto: int)
    ensures
        0 <= count_group(g, s, upto) <= (if upto >= 0 {
            upto
        } else {
            0
        }),
    decreases upto,
{
    if upto > 0 {
        lemma_count_group_le(g, s, upto - 1);
    }
}

pub proof fn lemma_count_true_update(s: Seq<bool>, k: int, upto: int)
    requires
        0 <= k < s.len(),
        !s[k],
        upto <= s.len(),
    ensures
        count_true(s.update(k, true), upto) == count_true(s, upto) + (if 0 <= k < upto {
            1int
        } else {
            0int
        }),
    decreases upto,
{
    if upto > 0 {
        lemma_count_true_update(s, k, upto - 1);
        if upto - 1 == k {
            assert(s.update(k, true)[upto - 1]);
        } else {
            assert(s.update(k, true)[upto - 1] == s[upto - 1]);
        }
    }
}

pub proof fn lemma_count_match(g: GridView, start: (int, int), marks: Seq<bool>, upto: int)
    requires
        forall|k: int|
            0 <= k < upto ==> (marks[k] <==> connected(g, start, coord_of(g.size, k))),
    ensures
        count_true(marks, upto) == count_group(g, start, upto),
    decreases upto,
{
    if upto > 0 {
        lemma_count_match(g, start, marks, upto - 1);
    }
}

pub proof fn lemma_clear_cell_at(g: GridView, s: (int, int), r: int, c: int)
    requires
        grid_wf(g),
        in_bounds(g.size, r, c),
    ensures
        cell_at(clear_group(g, s), r, c) == (if connected(g, s, (r, c)) {
            Cell::Empty
        } else {
            cell_at(g, r, c)
        }),
{
    lemma_idx_bounds(g.size, r, c);
}

/// Removing one whole group does not change which stones the other groups hold.
pub proof fn lemma_clear_preserves_connected(g: GridView, s: (int, int), a: (int, int), b: (
    int,
    int,
))
    requires
        grid_wf(g),
        !connected(g, s, a),
    ensures
        connected(clear_group(g, s), a, b) <==> connected(g, a, b),
{
    let g2 = clear_group(g, s);
    if connected(g2, a, b) {
        let p = choose|p: Seq<(int, int)>| path_ok(g2, p) && p.first() == a && p.last() == b;
        assert forall|i: int| 0 <= i < p.len() implies is_stone(g, #[trigger] p[i]) && cell_at(
            g,
            p[i].0,
            p[i].1,
        ) == cell_at(g2, p[i].0, p[i].1) by {
            lemma_clear_cell_at(g, s, p[i].0, p[i].1);
        }
        assert(path_ok(g, p));
        assert(connected(g, a, b));
    }
    if connected(g, a, b) {
        let p = choose|p: Seq<(int, int)>| path_ok(g, p) && p.first() == a && p.last() == b;
        assert forall|i: int| 0 <= i < p.len() implies is_stone(g2, #[trigger] p[i]) && color_at(
            g2,
            p[i],
        ) == color_at(g, p[i]) by {
            assert(!connected(g, s, p[i])) by {
                if connected(g, s, p[i]) {
                    lemma_prefix_connected(g, p, i);
                    lemma_connected_sym(g, a, p[i]);
                    lemma_connected_trans(g, s, p[i], a);
                }
            }
            lemma_clear_cell_at(g, s, p[i].0, p[i].1);
        }
        assert(path_ok(g2, p)) by {
            assert forall|i: int| 0 <= i < p.len() implies is_stone(g2, #[trigger] p[i])
                && color_at(g2, p[i]) == color_at(g2, p[0]) by {}
        }
        assert(connected(g2, a, b));
    }
}

/// Removing one whole group leaves every other group alive if it was alive.
pub proof fn lemma_clear_preserves_alive(g: GridView, s: (int, int), a: (int, int))
    requires
        grid_wf(g),
        is_stone(g, a),
        !connected(g, s, a),
        group_alive(g, a),
    ensures
        group_alive(clear_group(g, s), a),
{
    let g2 = clear_group(g, s);
    let l = choose|l: (int, int)| is_liberty_of(g, l, a);
    let m = choose|m: (int, int)| connected(g, a, m) && adj(m, l);
    lemma_clear_preserves_connected(g, s, a, m);
    assert(!connected(g, s, l)) by {
        if connected(g, s, l) {
            lemma_connected_props(g, s, l);
        }
    }
    lemma_clear_cell_at(g, s, l.0, l.1);
    assert(is_liberty_of(g2, l, a));
}

pub proof fn lemma_run_resolve_wf(g: GridView, pos: int)
    requires
        grid_wf(g),
        0 <= pos <= g.cells.len(),
    ensures
        grid_wf(run_resolve(g, pos).0),
        run_resolve(g, pos).0.size == g.size,
        run_resolve(g, pos).0.cells.len() == g.cells.len(),
    decreases g.cells.len() - pos,
{
    if pos < g.cells.len() {
        if g.cells[pos] is Stone && !group_alive(g, coord_of(g.size, pos)) {
            lemma_run_resolve_wf(clear_group(g, coord_of(g.size, pos)), pos + 1);
        } else {
            lemma_run_resolve_wf(g, pos + 1);
        }
    }
}

/// After one full pass from pos, given that every stone before pos is already
/// alive, no stone of the resulting board belongs to a liberty-less group.
pub proof fn lemma_run_resolve_no_dead(g: GridView, pos: int)
    requires
        grid_wf(g),
        0 <= pos <= g.cells.len(),
        forall|k: int|
            0 <= k < pos && k < g.cells.len() && #[trigger] g.cells[k] is Stone ==> group_alive(
                g,
                coord_of(g.size, k),
            ),
    ensures
        no_dead_stones(run_resolve(g, pos).0),
    decreases g.cells.len() - pos,
{
    if pos >= g.cells.len() {
        assert(run_resolve(g, pos).0 == g);
    } else {
        let co = coord_of(g.size, pos);
        if g.cells[pos] is Stone && !group_alive(g, co) {
            let g2 = clear_group(g, co);
            assert forall|k: int|
                0 <= k < pos + 1 && k < g2.cells.len() && #[trigger] g2.cells[k] is Stone
                    implies group_alive(g2, coord_of(g2.size, k)) by {
                lemma_coord_of_bounds(g.size, k);
                let ck = coord_of(g.size, k);
                assert(!connected(g, co, ck) && g2.cells[k] == g.cells[k]);
                assert(is_stone(g, ck));
                if k < pos {
                    lemma_clear_preserves_alive(g, co, ck);
                } else {
                    assert(k == pos && ck == co);
                    lemma_connected_refl(g, co);
                    assert(false);
                }
            }
            lemma_run_resolve_no_dead(g2, pos + 1);
        } else {
            assert forall|k: int|
                0 <= k < pos + 1 && k < g.cells.len() && #[trigger] g.cells[k] is Stone
                    implies group_alive(g, coord_of(g.size, k)) by {
                if k == pos {
                    assert(group_alive(g, co));
                }
            }
            lemma_run_resolve_no_dead(g, pos + 1);
        }
    }
}

pub proof fn lemma_sum_cons(x: u16, s: Seq<u16>)
    ensures
        sum_sizes(seq![x] + s) == x + sum_sizes(s),
{
    let t = seq![x] + s;
    assert(t.drop_first() =~= s);
    assert(t[0] == x);
}

pub proof fn lemma_clear_count(g: GridView, s: (int, int), upto: int)
    requires
        grid_wf(g),
        0 <= upto <= g.cells.len(),
    ensures
        count_stones(clear_group(g, s).cells, upto) + count_group(g, s, upto) == count_stones(
            g.cells,
            upto,
        ),
    decreases upto,
{
    if upto > 0 {
        lemma_clear_count(g, s, upto - 1);
        let k = upto - 1;
        if connected(g, s, coord_of(g.size, k)) {
            lemma_connected_props(g, s, coord_of(g.size, k));
            lemma_coord_of_bounds(g.size, k);
            assert(g.cells[k] is Stone);
            assert(clear_group(g, s).cells[k] == Cell::Empty);
        } else {
            assert(clear_group(g, s).cells[k] == g.cells[k]);
        }
    }
}

/// The stones removed by one pass account exactly for the reported group sizes.
pub proof fn lemma_run_resolve_count(g: GridView, pos: int)
    requires
        grid_wf(g),
        0 <= pos <= g.cells.len(),
    ensures
        count_stones(run_resolve(g, pos).0.cells, g.cells.len() as int) + sum_sizes(
            run_resolve(g, pos).1,
        ) == count_stones(g.cells, g.cells.len() as int),
    decreases g.cells.len() - pos,
{
    let n = g.cells.len() as int;
    if pos < n {
        let co = coord_of(g.size, pos);
        if g.cells[pos] is Stone && !group_alive(g, co) {
            let g2 = clear_group(g, co);
            let sz = count_group(g, co, n) as u16;
            lemma_count_group_le(g, co, n);
            assert(n <= 255 * 255) by (nonlinear_arith)
                requires
                    1 <= g.size <= 255,
                    n == g.size * g.size,
            ;
            assert(sz as int == count_group(g, co, n));
            lemma_run_resolve_count(g2, pos + 1);
            lemma_clear_count(g, co, n);
            lemma_sum_cons(sz, run_resolve(g2, pos + 1).1);
        } else {
            lemma_run_resolve_count(g, pos + 1);
        }
    }
}

/// A pass over a board without dead stones changes nothing and reports nothing.
pub proof fn lemma_run_resolve_noop(g: GridView, pos: int)
    requires
        grid_wf(g),
        no_dead_stones(g),
        0 <= pos <= g.cells.len(),
    ensures
        run_resolve(g, pos).0 == g,
        run_resolve(g, pos).1 == Seq::<u16>::empty(),
    decreases g.cells.len() - pos,
{
    if pos < g.cells.len() {
        lemma_run_resolve_noop(g, pos + 1);
    }
}

/// Resolution is idempotent: a second pass over an already-resolved board
/// captures nothing and leaves the board unchanged.
pub proof fn lemma_resolve_idempotent(g: GridView)
    requires
        grid_wf(g),
    ensures
        run_resolve(run_resolve(g, 0).0, 0).0 == run_resolve(g, 0).0,
        run_resolve(run_resolve(g, 0).0, 0).1 == Seq::<u16>::empty(),
{
    lemma_run_resolve_no_dead(g, 0);
    lemma_run_resolve_wf(g, 0);
    lemma_run_resolve_noop(run_resolve(g, 0).0, 0);
}

} // verus!

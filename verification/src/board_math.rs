//! The eight symmetries of the square, as index tables.
//!
//! A table `t` sends a board `b` to the board `r` with `r[i] == b[t[i]]`. The tables are built
//! from the grid in which each square holds its own coordinates, by transposing it and by
//! reversing its rows or their order, and are then flattened.
use vstd::prelude::*;
use crate::lemmas::{lemma_index, lemma_places, lemma_square, lemma_start_squares};
use crate::rules::{
    at, can_move, discovers, is_cells, is_direction, is_player, is_side, legal_move, on_board,
    places, ray_at, ray_on, result_for, span, tally, turns_bound,
};

verus! {

/// The eight symmetries of the square.
#[derive(Clone, Copy, Debug, PartialEq, Eq)]
pub enum Symmetry {
    /// Everything stays.
    Identity,
    /// Each row reversed.
    Mirror,
    /// A quarter turn to the left.
    L90,
    /// A quarter turn to the left, then each row reversed: rows and columns change places.
    L90Mirror,
    /// A quarter turn to the right.
    R90,
    /// A quarter turn to the right, then each row reversed.
    R90Mirror,
    /// A half turn.
    L180,
    /// A half turn, then each row reversed: the rows in reverse order.
    L180Mirror,
}

/// The square whose content the symmetry `s` brings to `(x, y)`, on a board of side `n`.
pub open spec fn source(s: Symmetry, n: int, x: int, y: int) -> (int, int) {
    match s {
        Symmetry::Identity => (x, y),
        Symmetry::Mirror => (x, n - 1 - y),
        Symmetry::L90 => (n - 1 - y, x),
        Symmetry::L90Mirror => (y, x),
        Symmetry::R90 => (y, n - 1 - x),
        Symmetry::R90Mirror => (n - 1 - y, n - 1 - x),
        Symmetry::L180 => (n - 1 - x, n - 1 - y),
        Symmetry::L180Mirror => (n - 1 - x, y),
    }
}

/// The symmetry that undoes `s`.
pub open spec fn inverse(s: Symmetry) -> Symmetry {
    match s {
        Symmetry::L90 => Symmetry::R90,
        Symmetry::R90 => Symmetry::L90,
        _ => s,
    }
}

/// The direction in which the symmetry `s` finds what it shows in direction `(dx, dy)`.
pub open spec fn turn(s: Symmetry, dx: int, dy: int) -> (int, int) {
    match s {
        Symmetry::Identity => (dx, dy),
        Symmetry::Mirror => (dx, -dy),
        Symmetry::L90 => (-dy, dx),
        Symmetry::L90Mirror => (dy, dx),
        Symmetry::R90 => (dy, -dx),
        Symmetry::R90Mirror => (-dy, -dx),
        Symmetry::L180 => (-dx, -dy),
        Symmetry::L180Mirror => (-dx, dy),
    }
}

/// The index table of the symmetry `s` for a board of side `n`.
pub open spec fn table(s: Symmetry, n: int) -> Seq<usize> {
    Seq::new(
        (n * n) as nat,
        |i: int| (source(s, n, i / n, i % n).0 * n + source(s, n, i / n, i % n).1) as usize,
    )
}

/// A symmetry takes its squares from the board.
pub proof fn lemma_source(s: Symmetry, n: int, x: int, y: int)
    requires
        on_board(n, x, y),
    ensures
        on_board(n, source(s, n, x, y).0, source(s, n, x, y).1),
{
}

/// In row-major order a square comes before the squares of the later rows and before the later
/// squares of its own row.
proof fn lemma_rows_in_order(n: int, u: int, v: int, x: int, y: int)
    requires
        on_board(n, u, v),
        on_board(n, x, y),
        u < x || (u == x && v < y),
    ensures
        u * n + v < x * n + y,
{
    if u < x {
        assert(u * n + n <= x * n) by (nonlinear_arith)
            requires
                u + 1 <= x,
                0 < n,
        ;
    }
}

/// The grid of a symmetry holds squares of the board.
proof fn lemma_grid(g: Seq<Vec<(usize, usize)>>, s: Symmetry, n: int)
    requires
        is_grid_of(g, s, n),
    ensures
        is_grid(g, n),
{
    assert forall|x: int, y: int| 0 <= x < n && 0 <= y < n implies on_board(
        n,
        (#[trigger] g[x][y]).0 as int,
        g[x][y].1 as int,
    ) by {
        lemma_source(s, n, x, y);
    }
}

/// Flattening the grid of a symmetry gives its table.
proof fn lemma_flat_table(g: Seq<Vec<(usize, usize)>>, flat: Seq<usize>, s: Symmetry, n: int)
    requires
        is_table_side(n),
        is_grid_of(g, s, n),
        flat.len() == n * n,
        forall|x: int, y: int|
            0 <= x < n && 0 <= y < n ==> flat[x * n + y] == (#[trigger] g[x][y]).0 * n + g[x][y].1,
    ensures
        flat == table(s, n),
{
    assert forall|i: int| 0 <= i < n * n implies flat[i] == table(s, n)[i] by {
        lemma_square(n, i);
        let (x, y) = (i / n, i % n);
        assert(flat[x * n + y] == g[x][y].0 * n + g[x][y].1);
        lemma_source(s, n, x, y);
        lemma_index(n, source(s, n, x, y).0, source(s, n, x, y).1);
    }
    assert(flat =~= table(s, n));
}

/// The table of a symmetry names places of the board.
pub proof fn lemma_table(s: Symmetry, n: int)
    requires
        is_table_side(n),
    ensures
        table(s, n).len() == n * n,
        forall|i: int| 0 <= i < n * n ==> 0 <= #[trigger] table(s, n)[i] < n * n,
{
    assert forall|i: int| 0 <= i < n * n implies 0 <= #[trigger] table(s, n)[i] < n * n by {
        lemma_square(n, i);
        lemma_source(s, n, i / n, i % n);
        lemma_index(n, source(s, n, i / n, i % n).0, source(s, n, i / n, i % n).1);
    }
}

/// The tables of the symmetries fit the boards and the vectors over the actions; that of the
/// identity moves nothing.
pub proof fn lemma_tables(n: int)
    requires
        is_table_side(n),
    ensures
        forall|s: Symmetry| #[trigger] is_table(table(s, n), n * n),
        forall|s: Symmetry| #[trigger] is_table(table(s, n), n * n + 1),
        forall|i: int| 0 <= i < n * n ==> #[trigger] table(Symmetry::Identity, n)[i] == i,
{
    assert forall|s: Symmetry| #[trigger] is_table(table(s, n), n * n) by {
        lemma_table(s, n);
    }
    assert forall|s: Symmetry| #[trigger] is_table(table(s, n), n * n + 1) by {
        lemma_table(s, n);
    }
    assert forall|i: int| 0 <= i < n * n implies #[trigger] table(Symmetry::Identity, n)[i]
        == i by {
        lemma_square(n, i);
    }
}

/// A symmetry and the one that undoes it: what the first takes from a square, the second takes
/// back, place by place.
pub proof fn lemma_inverse(s: Symmetry, n: int, i: int)
    requires
        is_table_side(n),
        0 <= i < n * n,
    ensures
        0 <= table(inverse(s), n)[i] < n * n,
        table(s, n)[table(inverse(s), n)[i] as int] == i,
        0 <= table(s, n)[i] < n * n,
        table(inverse(s), n)[table(s, n)[i] as int] == i,
{
    lemma_table(s, n);
    lemma_table(inverse(s), n);
    lemma_square(n, i);
    let (x, y) = (i / n, i % n);
    let (ux, uy) = source(inverse(s), n, x, y);
    lemma_source(inverse(s), n, x, y);
    lemma_index(n, ux, uy);
    assert(source(s, n, ux, uy) == (x, y));
    let (vx, vy) = source(s, n, x, y);
    lemma_source(s, n, x, y);
    lemma_index(n, vx, vy);
    assert(source(inverse(s), n, vx, vy) == (x, y));
}

/// A symmetry followed by the one that undoes it gives back what there was: a board, or a vector
/// over the actions, whose items behind the squares no symmetry moves.
pub proof fn lemma_round_trip<T>(s: Symmetry, n: int, v: Seq<T>)
    requires
        is_table_side(n),
        v.len() >= n * n,
    ensures
        permuted(permuted(v, table(s, n)), table(inverse(s), n)) == v,
{
    let there = permuted(v, table(s, n));
    let back = permuted(there, table(inverse(s), n));
    assert forall|i: int| 0 <= i < v.len() implies back[i] == v[i] by {
        if i < n * n {
            lemma_inverse(s, n, i);
        }
    }
    assert(back =~= v);
}

/// Along a ray a symmetry finds its squares along a ray: that from the source of the first
/// square, in the direction that the symmetry turns the ray's direction to.
pub proof fn lemma_source_ray(s: Symmetry, n: int, x: int, y: int, dx: int, dy: int, i: int)
    ensures
        source(s, n, x + i * dx, y + i * dy) == (
            source(s, n, x, y).0 + i * turn(s, dx, dy).0,
            source(s, n, x, y).1 + i * turn(s, dx, dy).1,
        ),
        on_board(n, x + i * dx, y + i * dy) == on_board(
            n,
            source(s, n, x, y).0 + i * turn(s, dx, dy).0,
            source(s, n, x, y).1 + i * turn(s, dx, dy).1,
        ),
        is_direction(dx, dy) ==> is_direction(turn(s, dx, dy).0, turn(s, dx, dy).1),
{
    assert(i * (-dx) == -(i * dx)) by (nonlinear_arith);
    assert(i * (-dy) == -(i * dy)) by (nonlinear_arith);
}

/// A board seen through a symmetry is a board; each square shows what its source holds.
pub proof fn lemma_symmetric_cells(s: Symmetry, n: int, cells: Seq<i8>)
    requires
        is_side(n),
        is_cells(cells, n),
    ensures
        is_cells(permuted(cells, table(s, n)), n),
        forall|x: int, y: int|
            on_board(n, x, y) ==> #[trigger] at(permuted(cells, table(s, n)), n, x, y) == at(
                cells,
                n,
                source(s, n, x, y).0,
                source(s, n, x, y).1,
            ),
{
    let seen = permuted(cells, table(s, n));
    lemma_start_squares(n);
    lemma_table(s, n);
    assert forall|i: int| 0 <= i < seen.len() implies -1 <= #[trigger] seen[i] <= 1 by {
        assert(seen[i] == cells[table(s, n)[i] as int]);
    }
    assert forall|x: int, y: int| on_board(n, x, y) implies #[trigger] at(seen, n, x, y) == at(
        cells,
        n,
        source(s, n, x, y).0,
        source(s, n, x, y).1,
    ) by {
        lemma_index(n, x, y);
        lemma_source(s, n, x, y);
        lemma_index(n, source(s, n, x, y).0, source(s, n, x, y).1);
    }
}

/// What is legal on a board seen through a symmetry is legal on the board, at the source of the
/// square.
pub proof fn lemma_symmetric_move(
    s: Symmetry,
    n: int,
    cells: Seq<i8>,
    color: int,
    mx: int,
    my: int,
)
    requires
        is_side(n),
        is_cells(cells, n),
        legal_move(permuted(cells, table(s, n)), n, color, mx, my),
    ensures
        legal_move(cells, n, color, source(s, n, mx, my).0, source(s, n, mx, my).1),
{
    let seen = permuted(cells, table(s, n));
    lemma_symmetric_cells(s, n, cells);
    let (ox, oy, dx, dy, k) = choose|ox: int, oy: int, dx: int, dy: int, k: int|
        #![trigger discovers(seen, n, ox, oy, dx, dy, k)]
        on_board(n, ox, oy) && at(seen, n, ox, oy) == color && is_direction(dx, dy) && discovers(
            seen,
            n,
            ox,
            oy,
            dx,
            dy,
            k,
        ) && mx == ox + (k + 1) * dx && my == oy + (k + 1) * dy;
    let (sx, sy) = source(s, n, ox, oy);
    let (tx, ty) = turn(s, dx, dy);
    lemma_source(s, n, ox, oy);
    lemma_source_ray(s, n, ox, oy, dx, dy, k + 1);
    assert forall|i: int| 1 <= i <= k + 1 implies ray_on(n, sx, sy, tx, ty, i) && ray_at(
        cells,
        n,
        sx,
        sy,
        tx,
        ty,
        i,
    ) == ray_at(seen, n, ox, oy, dx, dy, i) by {
        assert(ray_on(n, ox, oy, dx, dy, i));
        lemma_source_ray(s, n, ox, oy, dx, dy, i);
        assert(at(seen, n, ox + i * dx, oy + i * dy) == at(
            cells,
            n,
            source(s, n, ox + i * dx, oy + i * dy).0,
            source(s, n, ox + i * dx, oy + i * dy).1,
        ));
    }
    assert(at(cells, n, sx, sy) == at(seen, n, ox, oy));
    assert(span(cells, n, sx, sy, tx, ty, -at(cells, n, sx, sy), k)) by {
        assert forall|i: int| 1 <= i <= k implies ray_on(n, sx, sy, tx, ty, i) && ray_at(
            cells,
            n,
            sx,
            sy,
            tx,
            ty,
            i,
        ) == -at(cells, n, sx, sy) by {
            assert(ray_at(seen, n, ox, oy, dx, dy, i) == -at(seen, n, ox, oy));
        }
    }
    assert(ray_at(seen, n, ox, oy, dx, dy, k + 1) == 0);
    assert(discovers(cells, n, sx, sy, tx, ty, k));
}

/// The symmetries change nothing that counts: seen through a symmetry a board has as many
/// pieces of each player and as many empty squares, each player can move exactly if the player
/// could, and so the game stands as it stood.
pub proof fn lemma_symmetric_board(s: Symmetry, n: int, cells: Seq<i8>, color: int)
    requires
        is_side(n),
        is_cells(cells, n),
        is_player(color),
    ensures
        is_cells(permuted(cells, table(s, n)), n),
        places(permuted(cells, table(s, n)), color).len() == places(cells, color).len(),
        places(permuted(cells, table(s, n)), -color).len() == places(cells, -color).len(),
        places(permuted(cells, table(s, n)), 0).len() == places(cells, 0).len(),
        tally(permuted(cells, table(s, n)), color) == tally(cells, color),
        can_move(permuted(cells, table(s, n)), n, color) == can_move(cells, n, color),
        can_move(permuted(cells, table(s, n)), n, -color) == can_move(cells, n, -color),
        result_for(permuted(cells, table(s, n)), n, color) == result_for(cells, n, color),
        turns_bound(permuted(cells, table(s, n)), n, color) == turns_bound(cells, n, color),
{
    let seen = permuted(cells, table(s, n));
    lemma_start_squares(n);
    lemma_symmetric_cells(s, n, cells);
    lemma_round_trip(s, n, cells);
    lemma_symmetric_count(s, n, cells, color);
    lemma_symmetric_count(s, n, cells, -color);
    lemma_symmetric_count(s, n, cells, 0);
    lemma_symmetric_can_move(s, n, cells, color);
    lemma_symmetric_can_move(s, n, cells, -color);
    lemma_symmetric_can_move(inverse(s), n, seen, color);
    lemma_symmetric_can_move(inverse(s), n, seen, -color);
}

/// Who can move on a board seen through a symmetry can move on the board.
proof fn lemma_symmetric_can_move(s: Symmetry, n: int, cells: Seq<i8>, color: int)
    requires
        is_side(n),
        is_cells(cells, n),
    ensures
        can_move(permuted(cells, table(s, n)), n, color) ==> can_move(cells, n, color),
{
    let seen = permuted(cells, table(s, n));
    if can_move(seen, n, color) {
        let (mx, my) = choose|mx: int, my: int| #[trigger] legal_move(seen, n, color, mx, my);
        lemma_symmetric_move(s, n, cells, color, mx, my);
    }
}

/// Seen through a symmetry a board holds each value as often as it did.
proof fn lemma_symmetric_count(s: Symmetry, n: int, cells: Seq<i8>, value: int)
    requires
        is_side(n),
        is_cells(cells, n),
    ensures
        places(permuted(cells, table(s, n)), value).len() == places(cells, value).len(),
{
    let t = table(s, n);
    let seen = permuted(cells, t);
    let from = places(seen, value);
    let to = places(cells, value);
    let f = |i: int| t[i] as int;
    lemma_start_squares(n);
    lemma_table(s, n);
    lemma_places(seen, value);
    assert(vstd::relations::injective_on(f, from)) by {
        assert forall|a: int, b: int|
            from.contains(a) && from.contains(b) && #[trigger] f(a) == #[trigger] f(b) implies a
            == b by {
            lemma_inverse(s, n, a);
            lemma_inverse(s, n, b);
        }
    }
    assert forall|j: int| from.map(f).contains(j) <==> to.contains(j) by {
        if from.map(f).contains(j) {
            let i = choose|i: int| from.contains(i) && j == f(i);
            assert(seen[i] == cells[t[i] as int]);
        }
        if to.contains(j) {
            lemma_inverse(s, n, j);
            let i = table(inverse(s), n)[j] as int;
            assert(seen[i] == cells[t[i] as int]);
            assert(from.contains(i) && j == f(i));
        }
    }
    assert(from.map(f) =~= to);
    vstd::set_lib::lemma_map_size(from, to, f);
}

/// `b` seen through the table `t`: the first `t.len()` items are taken from the places that `t`
/// names, the others stay.
pub open spec fn permuted<T>(b: Seq<T>, t: Seq<usize>) -> Seq<T> {
    Seq::new(
        b.len(),
        |i: int|
            if i < t.len() {
                b[t[i] as int]
            } else {
                b[i]
            },
    )
}

/// `t` names places of a sequence of length `len` only.
pub open spec fn is_table(t: Seq<usize>, len: int) -> bool {
    t.len() <= len && forall|i: int| 0 <= i < t.len() ==> #[trigger] t[i] < len
}

/// `g` is a grid of `n` rows of `n` squares of a board of side `n`.
pub open spec fn is_grid(g: Seq<Vec<(usize, usize)>>, n: int) -> bool {
    &&& g.len() == n
    &&& forall|x: int| 0 <= x < n ==> (#[trigger] g[x]).len() == n
    &&& forall|x: int, y: int|
        0 <= x < n && 0 <= y < n ==> on_board(n, (#[trigger] g[x][y]).0 as int, g[x][y].1 as int)
}

/// The grid that the symmetry `s` makes of the grid of coordinates.
pub open spec fn is_grid_of(g: Seq<Vec<(usize, usize)>>, s: Symmetry, n: int) -> bool {
    &&& g.len() == n
    &&& forall|x: int| 0 <= x < n ==> (#[trigger] g[x]).len() == n
    &&& forall|x: int, y: int|
        0 <= x < n && 0 <= y < n ==> (#[trigger] g[x][y]).0 == source(s, n, x, y).0 && g[x][y].1
            == source(s, n, x, y).1
}

/// Sides for which every index of the board fits the machine's word.
pub open spec fn is_table_side(n: int) -> bool {
    1 <= n && n * n <= usize::MAX
}

/// Each row reversed: the item at row `x`, column `y` is the one that `g` holds at row `x`,
/// column `len - 1 - y`.
fn mirrored<T: Copy>(g: &Vec<Vec<T>>) -> (r: Vec<Vec<T>>)
    ensures
        r.len() == g.len(),
        forall|x: int| 0 <= x < g.len() ==> (#[trigger] r@[x]).len() == g@[x].len(),
        forall|x: int, y: int|
            0 <= x < g.len() && 0 <= y < g@[x].len() ==> #[trigger] r@[x][y] == g@[x][g@[x].len()
                - 1 - y],
{
    let mut r: Vec<Vec<T>> = Vec::new();
    let mut x: usize = 0;
    while x < g.len()
        invariant
            x <= g.len(),
            r.len() == x,
            forall|u: int| 0 <= u < x ==> (#[trigger] r@[u]).len() == g@[u].len(),
            forall|u: int, v: int|
                0 <= u < x && 0 <= v < g@[u].len() ==> #[trigger] r@[u][v] == g@[u][g@[u].len() - 1
                    - v],
        decreases g.len() - x,
    {
        let width = g[x].len();
        let mut row: Vec<T> = Vec::new();
        let mut y: usize = 0;
        while y < width
            invariant
                x < g.len(),
                width == g@[x as int].len(),
                y <= width,
                row.len() == y,
                forall|v: int| 0 <= v < y ==> #[trigger] row@[v] == g@[x as int][width - 1 - v],
            decreases width - y,
        {
            row.push(g[x][width - 1 - y]);
            y += 1;
        }
        r.push(row);
        x += 1;
    }
    r
}

/// The rows in reverse order: row `x` is the row `len - 1 - x` of `g`.
fn upended<T: Copy>(g: &Vec<Vec<T>>) -> (r: Vec<Vec<T>>)
    ensures
        r.len() == g.len(),
        forall|x: int| 0 <= x < g.len() ==> (#[trigger] r@[x])@ == g@[g.len() - 1 - x]@,
{
    let height = g.len();
    let mut r: Vec<Vec<T>> = Vec::new();
    let mut x: usize = 0;
    while x < height
        invariant
            height == g.len(),
            x <= height,
            r.len() == x,
            forall|u: int| 0 <= u < x ==> (#[trigger] r@[u])@ == g@[height - 1 - u]@,
        decreases height - x,
    {
        let from = height - 1 - x;
        let mut row: Vec<T> = Vec::new();
        let mut y: usize = 0;
        while y < g[from].len()
            invariant
                from < g.len(),
                y <= g@[from as int].len(),
                row@ == g@[from as int]@.take(y as int),
            decreases g@[from as int].len() - y,
        {
            row.push(g[from][y]);
            assert(g@[from as int]@.take(y + 1) =~= g@[from as int]@.take(y as int).push(
                g@[from as int]@[y as int],
            ));
            y += 1;
        }
        assert(g@[from as int]@.take(y as int) =~= g@[from as int]@);
        r.push(row);
        x += 1;
    }
    r
}

/// The tables of the seven symmetries that move something.
#[derive(Clone)]
pub struct BoardMath {
    pub mirror_1d: Vec<usize>,
    pub l90_1d: Vec<usize>,
    pub l90_1d_mirror: Vec<usize>,
    pub r90_1d: Vec<usize>,
    pub r90_1d_mirror: Vec<usize>,
    pub l180_1d: Vec<usize>,
    pub l180_1d_mirror: Vec<usize>,
}

impl BoardMath {
    /// The tables are those of a board of side `n`.
    pub open spec fn wf(&self, n: int) -> bool {
        &&& self.mirror_1d@ == table(Symmetry::Mirror, n)
        &&& self.l90_1d@ == table(Symmetry::L90, n)
        &&& self.l90_1d_mirror@ == table(Symmetry::L90Mirror, n)
        &&& self.r90_1d@ == table(Symmetry::R90, n)
        &&& self.r90_1d_mirror@ == table(Symmetry::R90Mirror, n)
        &&& self.l180_1d@ == table(Symmetry::L180, n)
        &&& self.l180_1d_mirror@ == table(Symmetry::L180Mirror, n)
    }

    /// The tables for a board of side `n`.
    pub fn new(n: usize) -> (b: BoardMath)
        requires
            is_table_side(n as int),
        ensures
            b.wf(n as int),
    {
        let coords = Self::coordinates(n);
        // each row reversed
        let mirror_2d = mirrored(&coords);
        // a quarter turn to the left: transpose, then reverse each row
        let l90_2d_mirror = Self::transpose2(&coords);
        let l90_2d = mirrored(&l90_2d_mirror);
        // a quarter turn to the right: transpose, then reverse the order of the rows
        let r90_2d = upended(&l90_2d_mirror);
        let r90_2d_mirror = mirrored(&r90_2d);
        // a half turn: reverse the order of the rows, then reverse each row
        let l180_2d_mirror = upended(&coords);
        let l180_2d = mirrored(&l180_2d_mirror);

        proof {
            lemma_grid(mirror_2d@, Symmetry::Mirror, n as int);
            lemma_grid(l90_2d@, Symmetry::L90, n as int);
            lemma_grid(l90_2d_mirror@, Symmetry::L90Mirror, n as int);
            lemma_grid(r90_2d@, Symmetry::R90, n as int);
            lemma_grid(r90_2d_mirror@, Symmetry::R90Mirror, n as int);
            lemma_grid(l180_2d@, Symmetry::L180, n as int);
            lemma_grid(l180_2d_mirror@, Symmetry::L180Mirror, n as int);
        }
        let mirror_1d = Self::flatten(&mirror_2d);
        let l90_1d = Self::flatten(&l90_2d);
        let l90_1d_mirror = Self::flatten(&l90_2d_mirror);
        let r90_1d = Self::flatten(&r90_2d);
        let r90_1d_mirror = Self::flatten(&r90_2d_mirror);
        let l180_1d = Self::flatten(&l180_2d);
        let l180_1d_mirror = Self::flatten(&l180_2d_mirror);
        proof {
            lemma_flat_table(mirror_2d@, mirror_1d@, Symmetry::Mirror, n as int);
            lemma_flat_table(l90_2d@, l90_1d@, Symmetry::L90, n as int);
            lemma_flat_table(l90_2d_mirror@, l90_1d_mirror@, Symmetry::L90Mirror, n as int);
            lemma_flat_table(r90_2d@, r90_1d@, Symmetry::R90, n as int);
            lemma_flat_table(r90_2d_mirror@, r90_1d_mirror@, Symmetry::R90Mirror, n as int);
            lemma_flat_table(l180_2d@, l180_1d@, Symmetry::L180, n as int);
            lemma_flat_table(l180_2d_mirror@, l180_1d_mirror@, Symmetry::L180Mirror, n as int);
        }
        BoardMath {
            mirror_1d,
            l90_1d,
            l90_1d_mirror,
            r90_1d,
            r90_1d_mirror,
            l180_1d,
            l180_1d_mirror,
        }
    }

    /// The board `b` seen through the table `t`: the cell at place `i` is the cell that `b`
    /// holds at place `t[i]`.
    pub fn apply_2d(b: &Vec<i8>, t: &Vec<usize>) -> (r: Vec<i8>)
        requires
            t.len() == b.len(),
            is_table(t@, b.len() as int),
        ensures
            r@ == permuted(b@, t@),
    {
        Self::apply_1d(b, t)
    }

    /// The vector `b` seen through the table `t`: the item at a place `i` that `t` covers is the
    /// item that `b` holds at place `t[i]`; the items behind the table stay where they are.
    pub fn apply_1d<T: Copy>(b: &Vec<T>, t: &Vec<usize>) -> (r: Vec<T>)
        requires
            is_table(t@, b.len() as int),
        ensures
            r@ == permuted(b@, t@),
    {
        let mut r: Vec<T> = Vec::new();
        let mut x: usize = 0;
        while x < b.len()
            invariant
                x <= b.len(),
                is_table(t@, b.len() as int),
                r@ =~= permuted(b@, t@).take(x as int),
            decreases b.len() - x,
        {
            if x < t.len() {
                r.push(b[t[x]]);
            } else {
                r.push(b[x]);
            }
            x += 1;
        }
        r
    }

    /// The index table of a grid of squares: the place `x * dim + y` holds the index of the
    /// square that the grid holds at row `x`, column `y`.
    fn flatten(b_2d: &Vec<Vec<(usize, usize)>>) -> (b_1d: Vec<usize>)
        requires
            is_table_side(b_2d.len() as int),
            is_grid(b_2d@, b_2d.len() as int),
        ensures
            b_1d.len() == b_2d.len() * b_2d.len(),
            forall|x: int, y: int|
                0 <= x < b_2d.len() && 0 <= y < b_2d.len() ==> b_1d@[x * b_2d.len() + y] == (
                #[trigger] b_2d@[x][y]).0 * b_2d.len() + b_2d@[x][y].1,
    {
        let dim = b_2d.len();
        let ghost n = dim as int;
        let mut b_1d: Vec<usize> = Vec::new();
        let mut x: usize = 0;
        while x < dim
            invariant
                dim == b_2d.len(),
                n == dim,
                is_table_side(n),
                is_grid(b_2d@, n),
                x <= dim,
                b_1d.len() == x * dim,
                forall|u: int, v: int|
                    0 <= u < x && 0 <= v < n ==> b_1d@[u * n + v] == (#[trigger] b_2d@[u][v]).0 * n
                        + b_2d@[u][v].1,
            decreases dim - x,
        {
            let mut y: usize = 0;
            while y < dim
                invariant
                    dim == b_2d.len(),
                    n == dim,
                    is_table_side(n),
                    is_grid(b_2d@, n),
                    x < dim,
                    y <= dim,
                    b_1d.len() == x * dim + y,
                    forall|u: int, v: int|
                        0 <= u < n && 0 <= v < n && (u < x || (u == x && v < y)) ==> b_1d@[u * n
                            + v] == (#[trigger] b_2d@[u][v]).0 * n + b_2d@[u][v].1,
                decreases dim - y,
            {
                let square = b_2d[x][y];
                proof {
                    lemma_index(n, x as int, y as int);
                    lemma_index(n, square.0 as int, square.1 as int);
                }
                let ghost before = b_1d@;
                b_1d.push(square.0 * dim + square.1);
                assert forall|u: int, v: int|
                    0 <= u < n && 0 <= v < n && (u < x || (u == x && v < y + 1)) implies b_1d@[u
                    * n + v] == (#[trigger] b_2d@[u][v]).0 * n + b_2d@[u][v].1 by {
                    lemma_index(n, u, v);
                    if u < x || (u == x && v < y) {
                        lemma_rows_in_order(n, u, v, x as int, y as int);
                        assert(b_1d@[u * n + v] == before[u * n + v]);
                    }
                }
                y += 1;
            }
            assert((x + 1) * dim == x * dim + dim) by (nonlinear_arith);
            x += 1;
        }
        b_1d
    }

    /// The grid in which each square holds its own coordinates.
    pub fn coordinates(n: usize) -> (coords: Vec<Vec<(usize, usize)>>)
        ensures
            is_grid_of(coords@, Symmetry::Identity, n as int),
    {
        let mut coords: Vec<Vec<(usize, usize)>> = Vec::new();
        let mut x: usize = 0;
        while x < n
            invariant
                x <= n,
                coords.len() == x,
                forall|u: int| 0 <= u < x ==> (#[trigger] coords@[u]).len() == n,
                forall|u: int, v: int|
                    0 <= u < x && 0 <= v < n ==> #[trigger] coords@[u][v] == (u as usize, v as usize),
            decreases n - x,
        {
            let mut row: Vec<(usize, usize)> = Vec::new();
            let mut y: usize = 0;
            while y < n
                invariant
                    y <= n,
                    row.len() == y,
                    forall|v: int| 0 <= v < y ==> #[trigger] row@[v] == (x, v as usize),
                decreases n - y,
            {
                row.push((x, y));
                y += 1;
            }
            coords.push(row);
            x += 1;
        }
        coords
    }

    /// Rows become columns: the item at row `i`, column `j` is the one that `v` holds at row `j`,
    /// column `i`.
    pub fn transpose2<T: Copy>(v: &Vec<Vec<T>>) -> (r: Vec<Vec<T>>)
        requires
            v.len() > 0,
            forall|j: int| 0 <= j < v.len() ==> (#[trigger] v@[j]).len() == v@[0].len(),
        ensures
            r.len() == v@[0].len(),
            forall|i: int| 0 <= i < r.len() ==> (#[trigger] r@[i]).len() == v.len(),
            forall|i: int, j: int|
                0 <= i < r.len() && 0 <= j < v.len() ==> #[trigger] r@[i][j] == v@[j][i],
    {
        let len = v[0].len();
        let mut r: Vec<Vec<T>> = Vec::new();
        let mut i: usize = 0;
        while i < len
            invariant
                i <= len,
                len == v@[0].len(),
                r.len() == i,
                forall|j: int| 0 <= j < v.len() ==> (#[trigger] v@[j]).len() == len,
                forall|a: int| 0 <= a < i ==> (#[trigger] r@[a]).len() == v.len(),
                forall|a: int, j: int|
                    0 <= a < i && 0 <= j < v.len() ==> #[trigger] r@[a][j] == v@[j][a],
            decreases len - i,
        {
            let mut column: Vec<T> = Vec::new();
            let mut j: usize = 0;
            while j < v.len()
                invariant
                    j <= v.len(),
                    i < len,
                    column.len() == j,
                    forall|b: int| 0 <= b < v.len() ==> (#[trigger] v@[b]).len() == len,
                    forall|b: int| 0 <= b < j ==> #[trigger] column@[b] == v@[b][i as int],
                decreases v.len() - j,
            {
                column.push(v[j][i]);
                j += 1;
            }
            r.push(column);
            i += 1;
        }
        r
    }
}

} // verus!

//! The rules of the game, as a mathematical model.
//!
//! Everything here is specification: a board is a `Seq<i8>` of `n * n` cells in row-major order,
//! a square is a pair of coordinates `(x, y)` (row, column), and a ray is the line of squares
//! `(x + i * dx, y + i * dy)` for `i = 1, 2, ...` that leaves a square in one of eight directions.
use vstd::prelude::*;

verus! {

/// The two players are `1` and `-1`.
pub open spec fn is_player(color: int) -> bool {
    color == 1 || color == -1
}

/// Sides for which squares can be addressed by `i8` coordinates and the four starting pieces fit.
pub open spec fn is_side(n: int) -> bool {
    2 <= n <= 127
}

/// `cells` is a board of side `n`: `n * n` cells, each one empty or owned by a player.
pub open spec fn is_cells(cells: Seq<i8>, n: int) -> bool {
    &&& cells.len() == n * n
    &&& forall|i: int| 0 <= i < cells.len() ==> -1 <= #[trigger] cells[i] <= 1
}

/// `(x, y)` is a square of a board of side `n`.
pub open spec fn on_board(n: int, x: int, y: int) -> bool {
    0 <= x < n && 0 <= y < n
}

/// The content of square `(x, y)`.
pub open spec fn at(cells: Seq<i8>, n: int, x: int, y: int) -> int {
    cells[x * n + y] as int
}

/// A square as the board's functions name it.
pub open spec fn square(x: int, y: int) -> (i8, i8) {
    (x as i8, y as i8)
}

/// The content of square `(x, y)` before the first move: the four centre squares are taken,
/// `-1` on the main diagonal and `1` on the other.
pub open spec fn start_at(n: int, x: int, y: int) -> int {
    let h = n / 2;
    if (x == h - 1 && y == h) || (x == h && y == h - 1) {
        1
    } else if (x == h - 1 && y == h - 1) || (x == h && y == h) {
        -1
    } else {
        0
    }
}

/// The starting position on a board of side `n`.
pub open spec fn start_cells(n: int) -> Seq<i8> {
    Seq::new((n * n) as nat, |i: int| start_at(n, i / n, i % n) as i8)
}

/// One of the eight neighbouring directions.
pub open spec fn is_direction(dx: int, dy: int) -> bool {
    -1 <= dx <= 1 && -1 <= dy <= 1 && (dx != 0 || dy != 0)
}

/// The `j`-th direction, in the order in which rays are cast.
pub open spec fn compass(j: int) -> (int, int) {
    if j == 0 {
        (1, 1)
    } else if j == 1 {
        (1, 0)
    } else if j == 2 {
        (1, -1)
    } else if j == 3 {
        (0, -1)
    } else if j == 4 {
        (-1, -1)
    } else if j == 5 {
        (-1, 0)
    } else if j == 6 {
        (-1, 1)
    } else {
        (0, 1)
    }
}

/// The `i`-th square of the ray from `(x, y)` in direction `(dx, dy)` is on the board.
pub open spec fn ray_on(n: int, x: int, y: int, dx: int, dy: int, i: int) -> bool {
    on_board(n, x + i * dx, y + i * dy)
}

/// The content of the `i`-th square of the ray from `(x, y)` in direction `(dx, dy)`.
pub open spec fn ray_at(cells: Seq<i8>, n: int, x: int, y: int, dx: int, dy: int, i: int) -> int {
    at(cells, n, x + i * dx, y + i * dy)
}

/// The first `k` squares of the ray are on the board and all hold `color`.
pub open spec fn span(
    cells: Seq<i8>,
    n: int,
    x: int,
    y: int,
    dx: int,
    dy: int,
    color: int,
    k: int,
) -> bool {
    forall|i: int|
        #![trigger ray_on(n, x, y, dx, dy, i)]
        #![trigger ray_at(cells, n, x, y, dx, dy, i)]
        1 <= i <= k ==> ray_on(n, x, y, dx, dy, i) && ray_at(cells, n, x, y, dx, dy, i) == color
}

/// Seen from the piece on `(x, y)`, the ray runs over `k >= 1` opposing pieces and then reaches
/// an empty square: that square is a destination for the owner of `(x, y)`.
pub open spec fn discovers(cells: Seq<i8>, n: int, x: int, y: int, dx: int, dy: int, k: int) -> bool {
    &&& k >= 1
    &&& at(cells, n, x, y) != 0
    &&& span(cells, n, x, y, dx, dy, -at(cells, n, x, y), k)
    &&& ray_on(n, x, y, dx, dy, k + 1)
    &&& ray_at(cells, n, x, y, dx, dy, k + 1) == 0
}

/// The destination that the piece on `(x, y)` discovers along the ray, if there is one.
pub open spec fn discovery(cells: Seq<i8>, n: int, x: int, y: int, dx: int, dy: int) -> Option<
    (i8, i8),
> {
    if exists|k: int| discovers(cells, n, x, y, dx, dy, k) {
        let k = choose|k: int| discovers(cells, n, x, y, dx, dy, k);
        Some(square(x + (k + 1) * dx, y + (k + 1) * dy))
    } else {
        None
    }
}

/// The destinations that the piece on `(x, y)` discovers in the first `j` directions, in the
/// order of the directions.
pub open spec fn moves_upto(cells: Seq<i8>, n: int, x: int, y: int, j: int) -> Seq<(i8, i8)>
    decreases j,
{
    if j <= 0 {
        Seq::empty()
    } else {
        let rest = moves_upto(cells, n, x, y, j - 1);
        match discovery(cells, n, x, y, compass(j - 1).0, compass(j - 1).1) {
            Some(m) => rest.push(m),
            None => rest,
        }
    }
}

/// The destinations that the piece on `(x, y)` discovers, over all eight directions.
pub open spec fn moves_from(cells: Seq<i8>, n: int, x: int, y: int) -> Seq<(i8, i8)> {
    moves_upto(cells, n, x, y, 8)
}

/// The piece on `(ox, oy)` discovers `m` along one of its eight rays.
pub open spec fn reaches(cells: Seq<i8>, n: int, ox: int, oy: int, m: (i8, i8)) -> bool {
    exists|j: int|
        0 <= j < 8 && #[trigger] discovery(cells, n, ox, oy, compass(j).0, compass(j).1) == Some(m)
}

/// `(mx, my)` is a legal destination for `color`: some piece of `color` discovers it along a ray.
pub open spec fn legal_move(cells: Seq<i8>, n: int, color: int, mx: int, my: int) -> bool {
    exists|ox: int, oy: int, dx: int, dy: int, k: int|
        #![trigger discovers(cells, n, ox, oy, dx, dy, k)]
        on_board(n, ox, oy) && at(cells, n, ox, oy) == color && is_direction(dx, dy) && discovers(
            cells,
            n,
            ox,
            oy,
            dx,
            dy,
            k,
        ) && mx == ox + (k + 1) * dx && my == oy + (k + 1) * dy
}

/// `color` has at least one legal destination.
pub open spec fn can_move(cells: Seq<i8>, n: int, color: int) -> bool {
    exists|mx: int, my: int| #[trigger] legal_move(cells, n, color, mx, my)
}

/// Seen from the square `(x, y)`, the ray runs over `k >= 0` pieces of the opponent of `color`
/// and then reaches a piece of `color`.
pub open spec fn captures(
    cells: Seq<i8>,
    n: int,
    x: int,
    y: int,
    dx: int,
    dy: int,
    color: int,
    k: int,
) -> bool {
    &&& k >= 0
    &&& span(cells, n, x, y, dx, dy, -color, k)
    &&& ray_on(n, x, y, dx, dy, k + 1)
    &&& ray_at(cells, n, x, y, dx, dy, k + 1) == color
}

/// What a piece of `color` put on `(x, y)` turns over along the ray: the square itself and the
/// opposing pieces up to the next piece of `color`; nothing where the ray meets an empty square
/// or the edge first.
pub open spec fn flips(
    cells: Seq<i8>,
    n: int,
    x: int,
    y: int,
    dx: int,
    dy: int,
    color: int,
) -> Seq<(i8, i8)> {
    if exists|k: int| captures(cells, n, x, y, dx, dy, color, k) {
        let k = choose|k: int| captures(cells, n, x, y, dx, dy, color, k);
        Seq::new((k + 1) as nat, |i: int| square(x + i * dx, y + i * dy))
    } else {
        Seq::empty()
    }
}

/// A piece of `color` put on `(x, y)` makes `(u, v)` its own: `(u, v)` is that square, or the
/// piece turns it over along one of the first `j` directions.
pub open spec fn turned_upto(
    cells: Seq<i8>,
    n: int,
    x: int,
    y: int,
    color: int,
    j: int,
    u: int,
    v: int,
) -> bool {
    (u == x && v == y) || exists|i: int|
        0 <= i < j && #[trigger] flips(
            cells,
            n,
            x,
            y,
            compass(i).0,
            compass(i).1,
            color,
        ).contains(square(u, v))
}

/// The board after the first `j` directions of a move of `color` to `(x, y)`.
pub open spec fn moved_upto(cells: Seq<i8>, n: int, x: int, y: int, color: int, j: int) -> Seq<
    i8,
> {
    Seq::new(
        cells.len(),
        |i: int|
            if turned_upto(cells, n, x, y, color, j, i / n, i % n) {
                color as i8
            } else {
                cells[i]
            },
    )
}

/// The board after `color` has moved to `(x, y)`: the square and every run that the move
/// captures, in all eight directions, belong to `color`; every other cell is as before.
pub open spec fn moved(cells: Seq<i8>, n: int, x: int, y: int, color: int) -> Seq<i8> {
    moved_upto(cells, n, x, y, color, 8)
}

/// `m` is among the first `t` items of `s`.
pub open spec fn listed(s: Seq<(i8, i8)>, t: int, m: (i8, i8)) -> bool {
    exists|i: int| 0 <= i < t && s[i] == m
}

/// The places, among the first `t` cells, of the cells that hold `color`.
pub open spec fn places_upto(cells: Seq<i8>, color: int, t: int) -> Set<int> {
    Set::new(|i: int| 0 <= i < t && i < cells.len() && cells[i] == color)
}

/// The places of the cells that hold `color`.
pub open spec fn places(cells: Seq<i8>, color: int) -> Set<int> {
    places_upto(cells, color, cells.len() as int)
}

/// The places of the cells that are not empty.
pub open spec fn occupied(cells: Seq<i8>) -> Set<int> {
    Set::new(|i: int| 0 <= i < cells.len() && cells[i] != 0)
}

/// The number of pieces of `color` minus the number of pieces of its opponent.
pub open spec fn tally(cells: Seq<i8>, color: int) -> int {
    places(cells, color).len() - places(cells, -color).len()
}

/// How the game stands for `color`: `0` while one of the two players can move; after that `1`
/// where `color` has more pieces than its opponent, and `-1` where it has not.
pub open spec fn result_for(cells: Seq<i8>, n: int, color: int) -> int {
    if can_move(cells, n, color) || can_move(cells, n, -color) {
        0
    } else if tally(cells, color) > 0 {
        1
    } else {
        -1
    }
}

/// A bound on the number of turns that are left when `color` is to move: each move fills an
/// empty square, and a pass is followed by a move.
pub open spec fn turns_bound(cells: Seq<i8>, n: int, color: int) -> nat {
    2 * places(cells, 0).len() + (if can_move(cells, n, color) {
        0nat
    } else {
        1nat
    })
}

/// The board as `player` sees it: every cell multiplied by `player`, so that the pieces of
/// `player` are those of `1`.
pub open spec fn seen_by(cells: Seq<i8>, player: int) -> Seq<i8> {
    Seq::new(cells.len(), |i: int| (cells[i] * player) as i8)
}

/// The letter that stands for a cell in a key.
pub open spec fn glyph(c: i8) -> char {
    if c == -1 {
        'X'
    } else if c == 0 {
        '-'
    } else {
        'O'
    }
}

/// The key of a board: one letter for each cell, in the order of the cells.
pub open spec fn key_of(cells: Seq<i8>) -> Seq<char> {
    Seq::new(cells.len(), |i: int| glyph(cells[i]))
}

} // verus!

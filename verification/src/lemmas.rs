//! What follows from the rules: the facts that the proofs of the library rest on, and the laws
//! of the game.
use vstd::prelude::*;
use crate::rules::{
    at, can_move, captures, compass, discovers, discovery, flips, glyph, is_cells, is_direction,
    is_player, is_side, key_of, legal_move, listed, moved, moves_upto, occupied, on_board, places,
    places_upto, ray_at, ray_on, reaches, result_for, seen_by, square, start_at, start_cells, tally,
    turned_upto, turns_bound,
};

verus! {

/// Squares of a board of side `n` have indices below `n * n`.
pub proof fn lemma_index(n: int, x: int, y: int)
    requires
        on_board(n, x, y),
    ensures
        0 <= x * n + y < n * n,
        (x * n + y) / n == x,
        (x * n + y) % n == y,
{
    assert(0 <= x * n && x * n + n <= n * n) by (nonlinear_arith)
        requires
            0 <= x < n,
    ;
    vstd::arithmetic::div_mod::lemma_fundamental_div_mod_converse(x * n + y, n, x, y);
}

/// Every index below `n * n` is that of a square of the board.
pub proof fn lemma_square(n: int, i: int)
    requires
        0 < n,
        0 <= i < n * n,
    ensures
        on_board(n, i / n, i % n),
        (i / n) * n + i % n == i,
{
    vstd::arithmetic::div_mod::lemma_fundamental_div_mod(i, n);
    assert(n * (i / n) == (i / n) * n) by (nonlinear_arith);
    assert(0 <= i / n < n) by (nonlinear_arith)
        requires
            0 < n,
            0 <= i < n * n,
            i == n * (i / n) + i % n,
            0 <= i % n < n,
    ;
}

/// The indices of the four centre squares.
pub proof fn lemma_start_squares(n: int)
    requires
        is_side(n),
    ensures
        n * n <= 16129,
        on_board(n, n / 2 - 1, n / 2 - 1),
        on_board(n, n / 2, n / 2),
        forall|x: int, y: int|
            on_board(n, x, y) ==> 0 <= #[trigger] (x * n + y) < n * n && (x * n + y) / n == x && (x
                * n + y) % n == y,
{
    assert(n * n <= 16129) by (nonlinear_arith)
        requires
            2 <= n <= 127,
    ;
    assert forall|x: int, y: int| on_board(n, x, y) implies 0 <= #[trigger] (x * n + y) < n * n
        && (x * n + y) / n == x && (x * n + y) % n == y by {
        lemma_index(n, x, y);
    }
}

/// One more step along a ray.
pub proof fn lemma_ray_step(x: int, dx: int, i: int)
    ensures
        x + (i + 1) * dx == x + i * dx + dx,
{
    assert((i + 1) * dx == i * dx + dx) by (nonlinear_arith);
}

/// Going back `i` steps from the square `k + 1` steps along a ray.
proof fn lemma_ray_back(x: int, dx: int, k: int, i: int)
    ensures
        x + (k + 1) * dx + i * (-dx) == x + (k + 1 - i) * dx,
        i == k + 1 ==> x + (k + 1) * dx + i * (-dx) == x,
{
    assert((k + 1) * dx + i * (-dx) == (k + 1 - i) * dx) by (nonlinear_arith);
    assert(0 * dx == 0);
}

/// Two rays that leave a square in different directions have no square in common, and neither
/// comes back to the square.
pub proof fn lemma_rays_apart(dx1: int, dy1: int, t: int, dx2: int, dy2: int, i: int)
    requires
        is_direction(dx1, dy1),
        is_direction(dx2, dy2),
        t >= 0,
        i >= 1,
        t * dx1 == i * dx2,
        t * dy1 == i * dy2,
    ensures
        dx1 == dx2,
        dy1 == dy2,
        t == i,
{
    assert(t * dx1 == (if dx1 == 1 {
        t
    } else if dx1 == 0 {
        0
    } else {
        -t
    })) by (nonlinear_arith)
        requires
            -1 <= dx1 <= 1,
    ;
    assert(t * dy1 == (if dy1 == 1 {
        t
    } else if dy1 == 0 {
        0
    } else {
        -t
    })) by (nonlinear_arith)
        requires
            -1 <= dy1 <= 1,
    ;
    assert(i * dx2 == (if dx2 == 1 {
        i
    } else if dx2 == 0 {
        0
    } else {
        -i
    })) by (nonlinear_arith)
        requires
            -1 <= dx2 <= 1,
    ;
    assert(i * dy2 == (if dy2 == 1 {
        i
    } else if dy2 == 0 {
        0
    } else {
        -i
    })) by (nonlinear_arith)
        requires
            -1 <= dy2 <= 1,
    ;
}

/// The eight directions are exactly the values of `compass`.
pub proof fn lemma_compass(dx: int, dy: int) -> (j: int)
    requires
        is_direction(dx, dy),
    ensures
        0 <= j < 8,
        compass(j) == (dx, dy),
{
    if dx == 1 {
        if dy == 1 {
            0
        } else if dy == 0 {
            1
        } else {
            2
        }
    } else if dx == 0 {
        if dy == -1 {
            3
        } else {
            7
        }
    } else {
        if dy == -1 {
            4
        } else if dy == 0 {
            5
        } else {
            6
        }
    }
}

/// A piece discovers at most one destination along a ray.
pub proof fn lemma_discovers_unique(
    cells: Seq<i8>,
    n: int,
    x: int,
    y: int,
    dx: int,
    dy: int,
    k1: int,
    k2: int,
)
    requires
        discovers(cells, n, x, y, dx, dy, k1),
        discovers(cells, n, x, y, dx, dy, k2),
    ensures
        k1 == k2,
{
    if k1 < k2 {
        assert(ray_on(n, x, y, dx, dy, k1 + 1));
    }
    if k2 < k1 {
        assert(ray_on(n, x, y, dx, dy, k2 + 1));
    }
}

/// A ray captures at most one run.
pub proof fn lemma_captures_unique(
    cells: Seq<i8>,
    n: int,
    x: int,
    y: int,
    dx: int,
    dy: int,
    color: int,
    k1: int,
    k2: int,
)
    requires
        is_player(color),
        captures(cells, n, x, y, dx, dy, color, k1),
        captures(cells, n, x, y, dx, dy, color, k2),
    ensures
        k1 == k2,
{
    if k1 < k2 {
        assert(ray_on(n, x, y, dx, dy, k1 + 1));
    }
    if k2 < k1 {
        assert(ray_on(n, x, y, dx, dy, k2 + 1));
    }
}

/// What is among all items of a sequence is what the sequence contains.
pub proof fn lemma_listed_all(s: Seq<(i8, i8)>, m: (i8, i8))
    ensures
        listed(s, s.len() as int, m) <==> s.contains(m),
{
    if listed(s, s.len() as int, m) {
        let i = choose|i: int| 0 <= i < s.len() && s[i] == m;
        assert(s[i] == m);
    }
    if s.contains(m) {
        let i = choose|i: int| 0 <= i < s.len() && s[i] == m;
        assert(0 <= i < s.len() && s[i] == m);
    }
}

/// What is among the first `t + 1` items is among the first `t` or is the item at place `t`.
pub proof fn lemma_listed(s: Seq<(i8, i8)>, t: int, m: (i8, i8))
    requires
        0 <= t < s.len(),
    ensures
        listed(s, t + 1, m) <==> listed(s, t, m) || s[t] == m,
{
    if listed(s, t + 1, m) {
        let i = choose|i: int| 0 <= i < t + 1 && s[i] == m;
        if i < t {
            assert(listed(s, t, m));
        }
    }
    if listed(s, t, m) {
        let i = choose|i: int| 0 <= i < t && s[i] == m;
        assert(0 <= i < t + 1 && s[i] == m);
    }
    if s[t] == m {
        assert(0 <= t < t + 1 && s[t] == m);
    }
}

/// An empty square discovers nothing.
pub proof fn lemma_empty_square_moves(cells: Seq<i8>, n: int, x: int, y: int, j: int)
    requires
        at(cells, n, x, y) == 0,
    ensures
        moves_upto(cells, n, x, y, j) == Seq::<(i8, i8)>::empty(),
    decreases j,
{
    if j > 0 {
        lemma_empty_square_moves(cells, n, x, y, j - 1);
    }
}

/// What `moves_upto` holds: the destinations discovered in the first `j` directions.
pub proof fn lemma_moves_upto(cells: Seq<i8>, n: int, x: int, y: int, j: int, m: (i8, i8))
    requires
        0 <= j <= 8,
    ensures
        moves_upto(cells, n, x, y, j).contains(m) <==> exists|i: int|
            0 <= i < j && #[trigger] discovery(cells, n, x, y, compass(i).0, compass(i).1) == Some(
                m,
            ),
    decreases j,
{
    if j > 0 {
        lemma_moves_upto(cells, n, x, y, j - 1, m);
        let rest = moves_upto(cells, n, x, y, j - 1);
        let found = discovery(cells, n, x, y, compass(j - 1).0, compass(j - 1).1);
        match found {
            Some(d) => {
                assert(rest.push(d).last() == d);
                assert(forall|t: int| 0 <= t < rest.len() ==> rest.push(d)[t] == rest[t]);
                if moves_upto(cells, n, x, y, j).contains(m) {
                    let t = choose|t: int|
                        0 <= t < rest.push(d).len() && rest.push(d)[t] == m;
                    if t < rest.len() {
                        assert(rest[t] == m);
                    }
                }
            },
            None => {},
        }
    }
}

/// A destination is legal for `color` exactly if one of the pieces of `color` reaches it.
pub proof fn lemma_legal_move(cells: Seq<i8>, n: int, color: int, m: (i8, i8))
    requires
        is_side(n),
    ensures
        legal_move(cells, n, color, m.0 as int, m.1 as int) <==> exists|ox: int, oy: int|
            on_board(n, ox, oy) && at(cells, n, ox, oy) == color && #[trigger] reaches(
                cells,
                n,
                ox,
                oy,
                m,
            ),
{
    if legal_move(cells, n, color, m.0 as int, m.1 as int) {
        let (ox, oy, dx, dy, k) = choose|ox: int, oy: int, dx: int, dy: int, k: int|
            #![trigger discovers(cells, n, ox, oy, dx, dy, k)]
            on_board(n, ox, oy) && at(cells, n, ox, oy) == color && is_direction(dx, dy)
                && discovers(cells, n, ox, oy, dx, dy, k) && m.0 as int == ox + (k + 1) * dx
                && m.1 as int == oy + (k + 1) * dy;
        let j = lemma_compass(dx, dy);
        let k2 = choose|k2: int| discovers(cells, n, ox, oy, dx, dy, k2);
        lemma_discovers_unique(cells, n, ox, oy, dx, dy, k, k2);
        assert(discovery(cells, n, ox, oy, compass(j).0, compass(j).1) == Some(m));
        assert(reaches(cells, n, ox, oy, m));
    }
    if exists|ox: int, oy: int|
        on_board(n, ox, oy) && at(cells, n, ox, oy) == color && #[trigger] reaches(
            cells,
            n,
            ox,
            oy,
            m,
        ) {
        let (ox, oy) = choose|ox: int, oy: int|
            on_board(n, ox, oy) && at(cells, n, ox, oy) == color && #[trigger] reaches(
                cells,
                n,
                ox,
                oy,
                m,
            );
        let j = choose|j: int|
            0 <= j < 8 && #[trigger] discovery(cells, n, ox, oy, compass(j).0, compass(j).1)
                == Some(m);
        let (dx, dy) = compass(j);
        let k = choose|k: int| discovers(cells, n, ox, oy, dx, dy, k);
        assert(ray_on(n, ox, oy, dx, dy, k + 1));
        assert(discovers(cells, n, ox, oy, dx, dy, k));
    }
}

/// A legal destination is an empty square of the board.
pub proof fn lemma_legal_on_board(cells: Seq<i8>, n: int, color: int, mx: int, my: int)
    requires
        legal_move(cells, n, color, mx, my),
    ensures
        on_board(n, mx, my),
        at(cells, n, mx, my) == 0,
{
    let (ox, oy, dx, dy, k) = choose|ox: int, oy: int, dx: int, dy: int, k: int|
        #![trigger discovers(cells, n, ox, oy, dx, dy, k)]
        on_board(n, ox, oy) && at(cells, n, ox, oy) == color && is_direction(dx, dy) && discovers(
            cells,
            n,
            ox,
            oy,
            dx,
            dy,
            k,
        ) && mx == ox + (k + 1) * dx && my == oy + (k + 1) * dy;
    assert(ray_on(n, ox, oy, dx, dy, k + 1));
    assert(ray_at(cells, n, ox, oy, dx, dy, k + 1) == 0);
}

/// Seen from the other end, a discovery is a capture: where the piece on `(x, y)` discovers a
/// square behind `k` opposing pieces, a piece of the same colour put on that square captures
/// those `k` pieces, looking back.
pub proof fn lemma_discovery_captures(
    cells: Seq<i8>,
    n: int,
    x: int,
    y: int,
    dx: int,
    dy: int,
    k: int,
)
    requires
        on_board(n, x, y),
        discovers(cells, n, x, y, dx, dy, k),
    ensures
        captures(
            cells,
            n,
            x + (k + 1) * dx,
            y + (k + 1) * dy,
            -dx,
            -dy,
            at(cells, n, x, y),
            k,
        ),
{
    let (mx, my) = (x + (k + 1) * dx, y + (k + 1) * dy);
    let (bx, by) = (-dx, -dy);
    let color = at(cells, n, x, y);
    assert forall|i: int| 1 <= i <= k implies #[trigger] ray_on(n, mx, my, bx, by, i) && ray_at(
        cells,
        n,
        mx,
        my,
        bx,
        by,
        i,
    ) == -color by {
        lemma_ray_back(x, dx, k, i);
        lemma_ray_back(y, dy, k, i);
        assert(ray_on(n, x, y, dx, dy, k + 1 - i));
        assert(ray_at(cells, n, x, y, dx, dy, k + 1 - i) == -color);
    }
    lemma_ray_back(x, dx, k, k + 1);
    lemma_ray_back(y, dy, k, k + 1);
}

/// Seen from the other end, a capture is a discovery: where a piece of `color` put on the empty
/// square `(x, y)` captures `k >= 1` pieces, the piece of `color` that ends the run discovers the
/// square, looking back.
pub proof fn lemma_capture_discovers(
    cells: Seq<i8>,
    n: int,
    x: int,
    y: int,
    dx: int,
    dy: int,
    color: int,
    k: int,
)
    requires
        is_player(color),
        on_board(n, x, y),
        at(cells, n, x, y) == 0,
        k >= 1,
        captures(cells, n, x, y, dx, dy, color, k),
    ensures
        on_board(n, x + (k + 1) * dx, y + (k + 1) * dy),
        at(cells, n, x + (k + 1) * dx, y + (k + 1) * dy) == color,
        discovers(cells, n, x + (k + 1) * dx, y + (k + 1) * dy, -dx, -dy, k),
{
    let (ox, oy) = (x + (k + 1) * dx, y + (k + 1) * dy);
    let (bx, by) = (-dx, -dy);
    assert(ray_on(n, x, y, dx, dy, k + 1));
    assert(ray_at(cells, n, x, y, dx, dy, k + 1) == color);
    assert forall|i: int| 1 <= i <= k implies #[trigger] ray_on(n, ox, oy, bx, by, i) && ray_at(
        cells,
        n,
        ox,
        oy,
        bx,
        by,
        i,
    ) == -color by {
        lemma_ray_back(x, dx, k, i);
        lemma_ray_back(y, dy, k, i);
        assert(ray_on(n, x, y, dx, dy, k + 1 - i));
        assert(ray_at(cells, n, x, y, dx, dy, k + 1 - i) == -color);
    }
    lemma_ray_back(x, dx, k, k + 1);
    lemma_ray_back(y, dy, k, k + 1);
}

/// The generator of moves and the move agree: a square is a legal destination for `color`
/// exactly if it is an empty square of the board from which a piece of `color` captures
/// something, one opposing piece or more, in one of the eight directions.
pub proof fn lemma_legal_captures(cells: Seq<i8>, n: int, color: int, mx: int, my: int)
    requires
        is_side(n),
        is_cells(cells, n),
        is_player(color),
    ensures
        legal_move(cells, n, color, mx, my) <==> on_board(n, mx, my) && at(cells, n, mx, my) == 0
            && exists|j: int, k: int|
            0 <= j < 8 && k >= 1 && #[trigger] captures(
                cells,
                n,
                mx,
                my,
                compass(j).0,
                compass(j).1,
                color,
                k,
            ),
{
    if legal_move(cells, n, color, mx, my) {
        lemma_legal_on_board(cells, n, color, mx, my);
        let (ox, oy, dx, dy, k) = choose|ox: int, oy: int, dx: int, dy: int, k: int|
            #![trigger discovers(cells, n, ox, oy, dx, dy, k)]
            on_board(n, ox, oy) && at(cells, n, ox, oy) == color && is_direction(dx, dy)
                && discovers(cells, n, ox, oy, dx, dy, k) && mx == ox + (k + 1) * dx && my == oy
                + (k + 1) * dy;
        lemma_discovery_captures(cells, n, ox, oy, dx, dy, k);
        let j = lemma_compass(-dx, -dy);
        assert(captures(cells, n, mx, my, compass(j).0, compass(j).1, color, k));
    }
    if on_board(n, mx, my) && at(cells, n, mx, my) == 0 && exists|j: int, k: int|
        0 <= j < 8 && k >= 1 && #[trigger] captures(
            cells,
            n,
            mx,
            my,
            compass(j).0,
            compass(j).1,
            color,
            k,
        ) {
        let (j, k) = choose|j: int, k: int|
            0 <= j < 8 && k >= 1 && #[trigger] captures(
                cells,
                n,
                mx,
                my,
                compass(j).0,
                compass(j).1,
                color,
                k,
            );
        let (dx, dy) = compass(j);
        lemma_capture_discovers(cells, n, mx, my, dx, dy, color, k);
        let (ox, oy) = (mx + (k + 1) * dx, my + (k + 1) * dy);
        lemma_ray_back(mx, dx, k, k + 1);
        lemma_ray_back(my, dy, k, k + 1);
        assert(discovers(cells, n, ox, oy, -dx, -dy, k));
        assert(is_direction(-dx, -dy));
    }
}

/// What `flips` holds: the square and the squares that follow it on the ray, all on the board.
pub proof fn lemma_flips(cells: Seq<i8>, n: int, x: int, y: int, dx: int, dy: int, color: int)
    requires
        is_side(n),
        on_board(n, x, y),
    ensures
        forall|t: int|
            #![trigger flips(cells, n, x, y, dx, dy, color)[t]]
            0 <= t < flips(cells, n, x, y, dx, dy, color).len() ==> {
                let f = flips(cells, n, x, y, dx, dy, color)[t];
                f == square(x + t * dx, y + t * dy) && f.0 == x + t * dx && f.1 == y + t * dy
                    && on_board(n, f.0 as int, f.1 as int)
            },
{
    assert forall|t: int|
        #![trigger flips(cells, n, x, y, dx, dy, color)[t]]
        0 <= t < flips(cells, n, x, y, dx, dy, color).len() implies {
        let f = flips(cells, n, x, y, dx, dy, color)[t];
        f == square(x + t * dx, y + t * dy) && f.0 == x + t * dx && f.1 == y + t * dy && on_board(
            n,
            f.0 as int,
            f.1 as int,
        )
    } by {
        let k = choose|k: int| captures(cells, n, x, y, dx, dy, color, k);
        assert(captures(cells, n, x, y, dx, dy, color, k));
        assert(flips(cells, n, x, y, dx, dy, color).len() == k + 1);
        if t >= 1 {
            assert(ray_on(n, x, y, dx, dy, t));
        }
    }
}

/// What a ray captures depends only on the cells of the ray.
pub proof fn lemma_flips_stable(
    cells: Seq<i8>,
    other: Seq<i8>,
    n: int,
    x: int,
    y: int,
    dx: int,
    dy: int,
    color: int,
)
    requires
        is_player(color),
        forall|i: int|
            #![trigger ray_at(other, n, x, y, dx, dy, i)]
            i >= 1 && ray_on(n, x, y, dx, dy, i) ==> ray_at(other, n, x, y, dx, dy, i) == ray_at(
                cells,
                n,
                x,
                y,
                dx,
                dy,
                i,
            ),
    ensures
        forall|k: int|
            captures(other, n, x, y, dx, dy, color, k) <==> captures(
                cells,
                n,
                x,
                y,
                dx,
                dy,
                color,
                k,
            ),
        flips(other, n, x, y, dx, dy, color) == flips(cells, n, x, y, dx, dy, color),
{
    assert forall|k: int|
        captures(other, n, x, y, dx, dy, color, k) <==> captures(
            cells,
            n,
            x,
            y,
            dx,
            dy,
            color,
            k,
        ) by {
        if captures(other, n, x, y, dx, dy, color, k) {
            assert forall|i: int| 1 <= i <= k implies ray_on(n, x, y, dx, dy, i) && ray_at(
                cells,
                n,
                x,
                y,
                dx,
                dy,
                i,
            ) == -color by {
                assert(ray_at(other, n, x, y, dx, dy, i) == -color);
            }
            assert(ray_at(other, n, x, y, dx, dy, k + 1) == color);
        }
        if captures(cells, n, x, y, dx, dy, color, k) {
            assert forall|i: int| 1 <= i <= k implies ray_on(n, x, y, dx, dy, i) && ray_at(
                other,
                n,
                x,
                y,
                dx,
                dy,
                i,
            ) == -color by {
                assert(ray_at(cells, n, x, y, dx, dy, i) == -color);
            }
            assert(ray_at(other, n, x, y, dx, dy, k + 1) == ray_at(cells, n, x, y, dx, dy, k + 1));
        }
    }
    if exists|k: int| captures(cells, n, x, y, dx, dy, color, k) {
        let k1 = choose|k: int| captures(cells, n, x, y, dx, dy, color, k);
        let k2 = choose|k: int| captures(other, n, x, y, dx, dy, color, k);
        assert(captures(other, n, x, y, dx, dy, color, k1));
        lemma_captures_unique(cells, n, x, y, dx, dy, color, k1, k2);
    }
}

/// What a move turns over besides its own square was the opponent's.
pub proof fn lemma_turned(cells: Seq<i8>, n: int, x: int, y: int, color: int, u: int, v: int)
    requires
        is_side(n),
        on_board(n, x, y),
        on_board(n, u, v),
        turned_upto(cells, n, x, y, color, 8, u, v),
        !(u == x && v == y),
    ensures
        at(cells, n, u, v) == -color,
{
    let j = choose|j: int|
        0 <= j < 8 && #[trigger] flips(cells, n, x, y, compass(j).0, compass(j).1, color).contains(
            square(u, v),
        );
    let (dx, dy) = compass(j);
    let f = flips(cells, n, x, y, dx, dy, color);
    let t = choose|t: int| 0 <= t < f.len() && f[t] == square(u, v);
    lemma_flips(cells, n, x, y, dx, dy, color);
    assert(f[t].0 == x + t * dx && f[t].1 == y + t * dy);
    let k = choose|k: int| captures(cells, n, x, y, dx, dy, color, k);
    assert(t >= 1) by {
        if t == 0 {
            assert(0 * dx == 0 && 0 * dy == 0);
        }
    }
    assert(ray_on(n, x, y, dx, dy, t));
    assert(ray_at(cells, n, x, y, dx, dy, t) == -color);
}

/// A move leaves a board: the cells that it turns belong to `color`, the others are as before.
pub proof fn lemma_moved(cells: Seq<i8>, n: int, x: int, y: int, color: int)
    requires
        is_side(n),
        is_cells(cells, n),
        is_player(color),
        on_board(n, x, y),
    ensures
        is_cells(moved(cells, n, x, y, color), n),
        forall|u: int, v: int|
            on_board(n, u, v) ==> #[trigger] at(moved(cells, n, x, y, color), n, u, v) == (
            if turned_upto(cells, n, x, y, color, 8, u, v) {
                color
            } else {
                at(cells, n, u, v)
            }),
{
    assert forall|u: int, v: int| on_board(n, u, v) implies #[trigger] at(
        moved(cells, n, x, y, color),
        n,
        u,
        v,
    ) == (if turned_upto(cells, n, x, y, color, 8, u, v) {
        color
    } else {
        at(cells, n, u, v)
    }) by {
        lemma_index(n, u, v);
    }
}

/// After a move no ray from its square captures a run of one or more pieces.
proof fn lemma_no_second_capture(
    cells: Seq<i8>,
    n: int,
    x: int,
    y: int,
    color: int,
    j: int,
    k: int,
)
    requires
        is_side(n),
        is_cells(cells, n),
        is_player(color),
        on_board(n, x, y),
        0 <= j < 8,
        k >= 1,
    ensures
        !captures(moved(cells, n, x, y, color), n, x, y, compass(j).0, compass(j).1, color, k),
{
    let after = moved(cells, n, x, y, color);
    let (dx, dy) = compass(j);
    lemma_moved(cells, n, x, y, color);
    if captures(after, n, x, y, dx, dy, color, k) {
        // the first square of the run still belongs to the opponent, so the move did not turn it
        assert(ray_on(n, x, y, dx, dy, 1));
        assert(ray_at(after, n, x, y, dx, dy, 1) == -color);
        let (u1, v1) = (x + 1 * dx, y + 1 * dy);
        assert(at(after, n, u1, v1) == -color);
        assert(!turned_upto(cells, n, x, y, color, 8, u1, v1));
        // so in `cells` the ray captured nothing
        let f = flips(cells, n, x, y, dx, dy, color);
        assert(!f.contains(square(u1, v1)));
        lemma_flips(cells, n, x, y, dx, dy, color);
        if exists|k0: int| captures(cells, n, x, y, dx, dy, color, k0) {
            let k0 = choose|k0: int| captures(cells, n, x, y, dx, dy, color, k0);
            if k0 >= 1 {
                assert(f[1] == square(u1, v1));
            }
            assert(k0 == 0);
            // then the first square of the ray held `color` already
            assert(ray_at(cells, n, x, y, dx, dy, 1) == color);
            assert(at(after, n, u1, v1) == color);
        } else {
            // the run of the opponent's pieces was there before, and what ends it now ended it then
            assert forall|i: int| 1 <= i <= k implies ray_on(n, x, y, dx, dy, i) && ray_at(
                cells,
                n,
                x,
                y,
                dx,
                dy,
                i,
            ) == -color by {
                assert(ray_on(n, x, y, dx, dy, i));
                assert(ray_at(after, n, x, y, dx, dy, i) == -color);
                let (u, v) = (x + i * dx, y + i * dy);
                assert(at(after, n, u, v) == -color);
            }
            assert(ray_on(n, x, y, dx, dy, k + 1));
            let (u, v) = (x + (k + 1) * dx, y + (k + 1) * dy);
            assert(at(after, n, u, v) == color);
            if turned_upto(cells, n, x, y, color, 8, u, v) {
                if u == x && v == y {
                    lemma_rays_apart(dx, dy, 0, dx, dy, k + 1);
                } else {
                    let j2 = choose|j2: int|
                        0 <= j2 < 8 && #[trigger] flips(
                            cells,
                            n,
                            x,
                            y,
                            compass(j2).0,
                            compass(j2).1,
                            color,
                        ).contains(square(u, v));
                    let (dx2, dy2) = compass(j2);
                    let f2 = flips(cells, n, x, y, dx2, dy2, color);
                    let t = choose|t: int| 0 <= t < f2.len() && f2[t] == square(u, v);
                    lemma_flips(cells, n, x, y, dx2, dy2, color);
                    assert(f2[t].0 == x + t * dx2 && f2[t].1 == y + t * dy2);
                    lemma_rays_apart(dx2, dy2, t, dx, dy, k + 1);
                    assert(f2 == f);
                    assert(f.len() > 0);
                }
            } else {
                assert(ray_at(cells, n, x, y, dx, dy, k + 1) == color);
                assert(captures(cells, n, x, y, dx, dy, color, k));
            }
        }
    }
}

/// Once `color` has moved to a square, nobody can move there again, and the same move made
/// once more changes nothing: it finds no run left to capture.
pub proof fn lemma_move_settles(cells: Seq<i8>, n: int, x: int, y: int, color: int)
    requires
        is_side(n),
        is_cells(cells, n),
        is_player(color),
        on_board(n, x, y),
    ensures
        is_cells(moved(cells, n, x, y, color), n),
        at(moved(cells, n, x, y, color), n, x, y) == color,
        forall|other: int| !legal_move(moved(cells, n, x, y, color), n, other, x, y),
        forall|j: int, k: int|
            0 <= j < 8 && #[trigger] captures(
                moved(cells, n, x, y, color),
                n,
                x,
                y,
                compass(j).0,
                compass(j).1,
                color,
                k,
            ) ==> k == 0,
        moved(moved(cells, n, x, y, color), n, x, y, color) == moved(cells, n, x, y, color),
{
    let after = moved(cells, n, x, y, color);
    lemma_moved(cells, n, x, y, color);
    lemma_moved(after, n, x, y, color);
    assert forall|other: int| !legal_move(after, n, other, x, y) by {
        if legal_move(after, n, other, x, y) {
            lemma_legal_on_board(after, n, other, x, y);
        }
    }
    assert forall|j: int, k: int|
        0 <= j < 8 && #[trigger] captures(
            after,
            n,
            x,
            y,
            compass(j).0,
            compass(j).1,
            color,
            k,
        ) implies k == 0 by {
        if k >= 1 {
            lemma_no_second_capture(cells, n, x, y, color, j, k);
        }
    }
    assert forall|i: int| 0 <= i < after.len() implies moved(after, n, x, y, color)[i]
        == after[i] by {
        lemma_square(n, i);
        let (u, v) = (i / n, i % n);
        if turned_upto(after, n, x, y, color, 8, u, v) && !(u == x && v == y) {
            let j = choose|j: int|
                0 <= j < 8 && #[trigger] flips(
                    after,
                    n,
                    x,
                    y,
                    compass(j).0,
                    compass(j).1,
                    color,
                ).contains(square(u, v));
            let (dx, dy) = compass(j);
            let f = flips(after, n, x, y, dx, dy, color);
            let t = choose|t: int| 0 <= t < f.len() && f[t] == square(u, v);
            lemma_flips(after, n, x, y, dx, dy, color);
            let k = choose|k: int| captures(after, n, x, y, dx, dy, color, k);
            assert(captures(after, n, x, y, compass(j).0, compass(j).1, color, k));
            assert(t == 0);
            assert(f[t].0 == x + t * dx && f[t].1 == y + t * dy);
            assert(0 * dx == 0 && 0 * dy == 0);
        }
    }
    assert(moved(after, n, x, y, color) =~= after);
}

/// Counting one cell more.
pub proof fn lemma_places_step(cells: Seq<i8>, color: int, t: int)
    requires
        0 <= t < cells.len(),
    ensures
        places_upto(cells, color, t).finite(),
        places_upto(cells, color, t + 1).finite(),
        places_upto(cells, color, t).len() <= t,
        places_upto(cells, color, t + 1).len() == places_upto(cells, color, t).len() + (if cells[t]
            == color {
            1nat
        } else {
            0nat
        }),
{
    let before = places_upto(cells, color, t);
    let after = places_upto(cells, color, t + 1);
    vstd::set_lib::lemma_int_range(0, t);
    assert(before.subset_of(vstd::set_lib::set_int_range(0, t)));
    vstd::set_lib::lemma_len_subset(before, vstd::set_lib::set_int_range(0, t));
    if cells[t] == color {
        assert(after =~= before.insert(t));
    } else {
        assert(after =~= before);
    }
}

/// The cells that hold a colour are finitely many, no more than there are cells.
pub proof fn lemma_places(cells: Seq<i8>, color: int)
    ensures
        places(cells, color).finite(),
        places(cells, color).len() <= cells.len(),
{
    let len = cells.len() as int;
    vstd::set_lib::lemma_int_range(0, len);
    assert(places(cells, color).subset_of(vstd::set_lib::set_int_range(0, len)));
    vstd::set_lib::lemma_len_subset(places(cells, color), vstd::set_lib::set_int_range(0, len));
}

/// A move onto an empty square fills that square and no other, and empties none.
pub proof fn lemma_move_fills(cells: Seq<i8>, n: int, x: int, y: int, color: int)
    requires
        is_side(n),
        is_cells(cells, n),
        is_player(color),
        on_board(n, x, y),
        at(cells, n, x, y) == 0,
    ensures
        is_cells(moved(cells, n, x, y, color), n),
        places(cells, 0).finite(),
        places(cells, 0).len() >= 1,
        places(moved(cells, n, x, y, color), 0).len() == places(cells, 0).len() - 1,
{
    let after = moved(cells, n, x, y, color);
    lemma_moved(cells, n, x, y, color);
    lemma_index(n, x, y);
    let origin = x * n + y;
    lemma_places(cells, 0);
    assert forall|i: int| places(after, 0).contains(i) <==> places(cells, 0).remove(
        origin,
    ).contains(i) by {
        if 0 <= i < cells.len() {
            lemma_square(n, i);
            let (u, v) = (i / n, i % n);
            if turned_upto(cells, n, x, y, color, 8, u, v) && i != origin {
                lemma_turned(cells, n, x, y, color, u, v);
            }
        }
    }
    assert(places(after, 0) =~= places(cells, 0).remove(origin));
    assert(places(cells, 0).contains(origin));
}

/// The starting position is a board with exactly four pieces, on the four centre squares: those
/// of `-1` on the main diagonal, those of `1` on the other.
pub proof fn lemma_start_position(n: int)
    requires
        is_side(n),
    ensures
        is_cells(start_cells(n), n),
        forall|x: int, y: int|
            on_board(n, x, y) ==> #[trigger] at(start_cells(n), n, x, y) == start_at(n, x, y),
        places(start_cells(n), 1) == set![(n / 2 - 1) * n + n / 2, (n / 2) * n + (n / 2 - 1)],
        places(start_cells(n), -1) == set![(n / 2 - 1) * n + (n / 2 - 1), (n / 2) * n + n / 2],
        occupied(start_cells(n)) == places(start_cells(n), 1) + places(start_cells(n), -1),
        occupied(start_cells(n)).len() == 4,
{
    let cells = start_cells(n);
    let h = n / 2;
    lemma_start_squares(n);
    assert forall|x: int, y: int| on_board(n, x, y) implies #[trigger] at(cells, n, x, y)
        == start_at(n, x, y) by {
        lemma_index(n, x, y);
    }
    let ones = set![(h - 1) * n + h, h * n + (h - 1)];
    let others = set![(h - 1) * n + (h - 1), h * n + h];
    lemma_index(n, h - 1, h);
    lemma_index(n, h, h - 1);
    lemma_index(n, h - 1, h - 1);
    lemma_index(n, h, h);
    assert forall|i: int| places(cells, 1).contains(i) <==> ones.contains(i) by {
        if 0 <= i < n * n {
            lemma_square(n, i);
        }
    }
    assert forall|i: int| places(cells, -1).contains(i) <==> others.contains(i) by {
        if 0 <= i < n * n {
            lemma_square(n, i);
        }
    }
    assert(places(cells, 1) =~= ones);
    assert(places(cells, -1) =~= others);
    assert(occupied(cells) =~= ones + others);
    let all = set![(h - 1) * n + h, h * n + (h - 1), (h - 1) * n + (h - 1), h * n + h];
    assert(ones + others =~= all);
    assert(all.len() == 4) by {
        let a = set![(h - 1) * n + h];
        let b = a.insert(h * n + (h - 1));
        let c = b.insert((h - 1) * n + (h - 1));
        let d = c.insert(h * n + h);
        assert(a.len() == 1);
        assert(b.len() == 2);
        assert(c.len() == 3);
        assert(d.len() == 4);
        assert(d =~= all);
    }
}

/// Seen by `player`, each square holds its content multiplied by `player`, and a piece discovers
/// what it discovered.
pub proof fn lemma_seen_by_rays(cells: Seq<i8>, n: int, player: int)
    requires
        is_side(n),
        is_cells(cells, n),
        is_player(player),
    ensures
        is_cells(seen_by(cells, player), n),
        forall|x: int, y: int|
            on_board(n, x, y) ==> #[trigger] at(seen_by(cells, player), n, x, y) == at(
                cells,
                n,
                x,
                y,
            ) * player,
        forall|x: int, y: int, dx: int, dy: int, k: int|
            on_board(n, x, y) && #[trigger] discovers(cells, n, x, y, dx, dy, k) ==> discovers(
                seen_by(cells, player),
                n,
                x,
                y,
                dx,
                dy,
                k,
            ),
{
    let seen = seen_by(cells, player);
    assert forall|i: int| 0 <= i < seen.len() implies -1 <= #[trigger] seen[i] <= 1 && seen[i]
        == cells[i] * player by {
        assert(-1 <= cells[i] * player <= 1) by (nonlinear_arith)
            requires
                -1 <= cells[i] <= 1,
                player == 1 || player == -1,
        ;
    }
    assert forall|x: int, y: int| on_board(n, x, y) implies #[trigger] at(seen, n, x, y) == at(
        cells,
        n,
        x,
        y,
    ) * player by {
        lemma_index(n, x, y);
    }
    assert forall|x: int, y: int, dx: int, dy: int, k: int|
        on_board(n, x, y) && #[trigger] discovers(cells, n, x, y, dx, dy, k) implies discovers(
        seen,
        n,
        x,
        y,
        dx,
        dy,
        k,
    ) by {
        let own = at(cells, n, x, y);
        assert(at(seen, n, x, y) == own * player);
        assert(own * player != 0 && -(own * player) == (-own) * player) by (nonlinear_arith)
            requires
                own != 0,
                player == 1 || player == -1,
        ;
        assert forall|i: int| 1 <= i <= k implies ray_on(n, x, y, dx, dy, i) && ray_at(
            seen,
            n,
            x,
            y,
            dx,
            dy,
            i,
        ) == -(own * player) by {
            assert(ray_on(n, x, y, dx, dy, i));
            assert(ray_at(cells, n, x, y, dx, dy, i) == -own);
            assert(at(seen, n, x + i * dx, y + i * dy) == at(cells, n, x + i * dx, y + i * dy)
                * player);
        }
        assert(ray_on(n, x, y, dx, dy, k + 1));
        assert(at(seen, n, x + (k + 1) * dx, y + (k + 1) * dy) == at(
            cells,
            n,
            x + (k + 1) * dx,
            y + (k + 1) * dy,
        ) * player);
        assert(ray_at(seen, n, x, y, dx, dy, k + 1) == 0);
    }
}

/// What is legal for `color * player` is legal for `color` on the board as `player` sees it.
pub proof fn lemma_seen_by_legal(
    cells: Seq<i8>,
    n: int,
    player: int,
    color: int,
    mx: int,
    my: int,
)
    requires
        is_side(n),
        is_cells(cells, n),
        is_player(player),
        legal_move(cells, n, color, mx, my),
    ensures
        legal_move(seen_by(cells, player), n, color * player, mx, my),
{
    lemma_seen_by_rays(cells, n, player);
    let (ox, oy, dx, dy, k) = choose|ox: int, oy: int, dx: int, dy: int, k: int|
        #![trigger discovers(cells, n, ox, oy, dx, dy, k)]
        on_board(n, ox, oy) && at(cells, n, ox, oy) == color && is_direction(dx, dy) && discovers(
            cells,
            n,
            ox,
            oy,
            dx,
            dy,
            k,
        ) && mx == ox + (k + 1) * dx && my == oy + (k + 1) * dy;
    assert(discovers(seen_by(cells, player), n, ox, oy, dx, dy, k));
    assert(at(seen_by(cells, player), n, ox, oy) == color * player);
}

/// A destination is legal for `player` exactly if it is legal for `1` on the board as `player`
/// sees it, and legal for the opponent exactly if it is legal for `-1` there.
pub proof fn lemma_seen_by_move(cells: Seq<i8>, n: int, player: int, mx: int, my: int)
    requires
        is_side(n),
        is_cells(cells, n),
        is_player(player),
    ensures
        legal_move(seen_by(cells, player), n, 1, mx, my) == legal_move(cells, n, player, mx, my),
        legal_move(seen_by(cells, player), n, -1, mx, my) == legal_move(cells, n, -player, mx, my),
{
    let seen = seen_by(cells, player);
    lemma_seen_by_rays(cells, n, player);
    lemma_seen_by_rays(seen, n, player);
    assert(seen_by(seen, player) =~= cells) by {
        assert forall|i: int| 0 <= i < cells.len() implies (#[trigger] seen[i] * player) as i8
            == cells[i] by {
            assert(cells[i] * player * player == cells[i]) by (nonlinear_arith)
                requires
                    player == 1 || player == -1,
            ;
            assert(-1 <= cells[i] * player <= 1) by (nonlinear_arith)
                requires
                    -1 <= cells[i] <= 1,
                    player == 1 || player == -1,
            ;
        }
    }
    assert(player * player == 1 && (-player) * player == -1 && 1 * player == player && -1 * player
        == -player) by (nonlinear_arith)
        requires
            player == 1 || player == -1,
    ;
    if legal_move(cells, n, player, mx, my) {
        lemma_seen_by_legal(cells, n, player, player, mx, my);
    }
    if legal_move(cells, n, -player, mx, my) {
        lemma_seen_by_legal(cells, n, player, -player, mx, my);
    }
    if legal_move(seen, n, 1, mx, my) {
        lemma_seen_by_legal(seen, n, player, 1, mx, my);
    }
    if legal_move(seen, n, -1, mx, my) {
        lemma_seen_by_legal(seen, n, player, -1, mx, my);
    }
}

/// Seen by `player`, the board is a board again; seen by `1` it is itself. Who can move, who
/// has more pieces and how many squares are empty does not depend on which player is called
/// `1`.
pub proof fn lemma_seen_by(cells: Seq<i8>, n: int, player: int)
    requires
        is_side(n),
        is_cells(cells, n),
        is_player(player),
    ensures
        is_cells(seen_by(cells, player), n),
        seen_by(cells, 1) == cells,
        can_move(seen_by(cells, player), n, 1) == can_move(cells, n, player),
        can_move(seen_by(cells, player), n, -1) == can_move(cells, n, -player),
        tally(seen_by(cells, player), 1) == tally(cells, player),
        places(seen_by(cells, player), 0) == places(cells, 0),
        result_for(seen_by(cells, player), n, 1) == result_for(cells, n, player),
        turns_bound(seen_by(cells, player), n, 1) == turns_bound(cells, n, player),
{
    let seen = seen_by(cells, player);
    assert(seen_by(cells, 1) =~= cells);
    assert forall|i: int| 0 <= i < seen.len() implies -1 <= #[trigger] seen[i] <= 1 && seen[i]
        == cells[i] * player by {
        assert(-1 <= cells[i] * player <= 1) by (nonlinear_arith)
            requires
                -1 <= cells[i] <= 1,
                player == 1 || player == -1,
        ;
    }
    assert(places(seen, 1) =~= places(cells, player));
    assert(places(seen, -1) =~= places(cells, -player));
    assert(places(seen, 0) =~= places(cells, 0));
    if can_move(seen, n, 1) {
        let (mx, my) = choose|mx: int, my: int| #[trigger] legal_move(seen, n, 1, mx, my);
        lemma_seen_by_move(cells, n, player, mx, my);
        assert(legal_move(cells, n, player, mx, my));
    }
    if can_move(cells, n, player) {
        let (mx, my) = choose|mx: int, my: int| #[trigger] legal_move(cells, n, player, mx, my);
        lemma_seen_by_move(cells, n, player, mx, my);
        assert(legal_move(seen, n, 1, mx, my));
    }
    if can_move(seen, n, -1) {
        let (mx, my) = choose|mx: int, my: int| #[trigger] legal_move(seen, n, -1, mx, my);
        lemma_seen_by_move(cells, n, player, mx, my);
        assert(legal_move(cells, n, -player, mx, my));
    }
    if can_move(cells, n, -player) {
        let (mx, my) = choose|mx: int, my: int| #[trigger] legal_move(cells, n, -player, mx, my);
        lemma_seen_by_move(cells, n, player, mx, my);
        assert(legal_move(seen, n, -1, mx, my));
    }
}

/// Two boards with the same key are the same board.
pub proof fn lemma_key_of(a: Seq<i8>, b: Seq<i8>)
    requires
        forall|i: int| 0 <= i < a.len() ==> -1 <= #[trigger] a[i] <= 1,
        forall|i: int| 0 <= i < b.len() ==> -1 <= #[trigger] b[i] <= 1,
        key_of(a) == key_of(b),
    ensures
        a == b,
{
    assert(a.len() == key_of(a).len());
    assert(b.len() == key_of(b).len());
    assert forall|i: int| 0 <= i < a.len() implies a[i] == b[i] by {
        assert(key_of(a)[i] == glyph(a[i]));
        assert(key_of(b)[i] == glyph(b[i]));
    }
    assert(a =~= b);
}

} // verus!

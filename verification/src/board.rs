//! The board and the capture rule: casting rays, finding destinations, flipping pieces.
use vstd::prelude::*;
use std::collections::HashSet;
use vstd::std_specs::iter::IteratorSpec;
use crate::lemmas::{
    lemma_captures_unique, lemma_discovers_unique, lemma_empty_square_moves, lemma_flips,
    lemma_flips_stable, lemma_index, lemma_legal_move, lemma_legal_on_board, lemma_listed,
    lemma_listed_all, lemma_moves_upto, lemma_places_step, lemma_ray_step, lemma_rays_apart,
    lemma_square, lemma_start_squares,
};
use crate::rules::{
    at, can_move, captures, compass, discovers, discovery, flips, is_cells, is_direction, is_player,
    is_side, legal_move, listed, moved, moves_from, moves_upto, on_board, places_upto, ray_at,
    ray_on, reaches, span, square, start_cells, tally, turned_upto,
};

verus! {

/// A square board, stored row by row: the square `(x, y)` is `pieces[x * n + y]`.
#[derive(Clone)]
pub struct Board {
    pub n: usize,
    pub pieces: Vec<i8>,
}

/// The place of square `(x, y)` in the row-major sequence of cells.
fn index(n: usize, x: usize, y: usize) -> (i: usize)
    requires
        is_side(n as int),
        on_board(n as int, x as int, y as int),
    ensures
        i == x * n + y,
        i < n * n,
{
    proof {
        lemma_index(n as int, x as int, y as int);
        assert(x * n <= 127 * 127) by (nonlinear_arith)
            requires
                0 <= x < n <= 127,
        ;
    }
    x * n + y
}

/// The square whose place in the row-major order is `k`.
spec fn square_at(n: int, k: u16) -> (i8, i8) {
    square(k as int / n, k as int % n)
}

/// A square and its place name each other.
proof fn lemma_place(n: int, x: int, y: int, k: u16)
    requires
        is_side(n),
        on_board(n, x, y),
        k < n * n,
    ensures
        x * n + y < n * n <= 16129,
        on_board(n, k as int / n, k as int % n),
        square_at(n, k) == square(x, y) <==> k == x * n + y,
{
    lemma_start_squares(n);
    lemma_index(n, x, y);
    lemma_square(n, k as int);
}

/// A piece of `color` that comes before `(x, y)` in the order of the scan reaches `m`. The scan
/// goes through the columns, and in each column through the rows.
spec fn reached_before(cells: Seq<i8>, n: int, color: int, x: int, y: int, m: (i8, i8)) -> bool {
    exists|ox: int, oy: int|
        on_board(n, ox, oy) && (oy < y || (oy == y && ox < x)) && at(cells, n, ox, oy) == color
            && #[trigger] reaches(cells, n, ox, oy, m)
}

/// No piece of `color` that comes before `(x, y)` in the order of the scan discovers anything.
spec fn idle_before(cells: Seq<i8>, n: int, color: int, x: int, y: int) -> bool {
    forall|ox: int, oy: int|
        on_board(n, ox, oy) && (oy < y || (oy == y && ox < x)) && at(cells, n, ox, oy) == color
            ==> (#[trigger] moves_from(cells, n, ox, oy)).len() == 0
}

/// One square more in the scan.
proof fn lemma_reached_step(cells: Seq<i8>, n: int, color: int, x: int, y: int, m: (i8, i8))
    requires
        on_board(n, x, y),
    ensures
        reached_before(cells, n, color, x + 1, y, m) <==> reached_before(cells, n, color, x, y, m)
            || (at(cells, n, x, y) == color && reaches(cells, n, x, y, m)),
{
    if reached_before(cells, n, color, x + 1, y, m) {
        let (ox, oy) = choose|ox: int, oy: int|
            on_board(n, ox, oy) && (oy < y || (oy == y && ox < x + 1)) && at(cells, n, ox, oy)
                == color && #[trigger] reaches(cells, n, ox, oy, m);
        if !(ox == x && oy == y) {
            assert(reached_before(cells, n, color, x, y, m));
        }
    }
    if reached_before(cells, n, color, x, y, m) {
        let (ox, oy) = choose|ox: int, oy: int|
            on_board(n, ox, oy) && (oy < y || (oy == y && ox < x)) && at(cells, n, ox, oy) == color
                && #[trigger] reaches(cells, n, ox, oy, m);
        assert(reached_before(cells, n, color, x + 1, y, m));
    }
    if at(cells, n, x, y) == color && reaches(cells, n, x, y, m) {
        assert(reached_before(cells, n, color, x + 1, y, m));
    }
}

/// From the end of a column to the beginning of the next; and at the end of the scan every
/// piece has had its turn, so that what has been reached is what is legal.
proof fn lemma_reached_column(cells: Seq<i8>, n: int, color: int, y: int, m: (i8, i8))
    requires
        is_side(n),
    ensures
        reached_before(cells, n, color, n, y, m) <==> reached_before(cells, n, color, 0, y + 1, m),
        reached_before(cells, n, color, 0, n, m) <==> legal_move(
            cells,
            n,
            color,
            m.0 as int,
            m.1 as int,
        ),
{
    if reached_before(cells, n, color, n, y, m) {
        let (ox, oy) = choose|ox: int, oy: int|
            on_board(n, ox, oy) && (oy < y || (oy == y && ox < n)) && at(cells, n, ox, oy) == color
                && #[trigger] reaches(cells, n, ox, oy, m);
        assert(reached_before(cells, n, color, 0, y + 1, m));
    }
    if reached_before(cells, n, color, 0, y + 1, m) {
        let (ox, oy) = choose|ox: int, oy: int|
            on_board(n, ox, oy) && (oy < y + 1 || (oy == y + 1 && ox < 0)) && at(cells, n, ox, oy)
                == color && #[trigger] reaches(cells, n, ox, oy, m);
        assert(reached_before(cells, n, color, n, y, m));
    }
    lemma_legal_move(cells, n, color, m);
    if reached_before(cells, n, color, 0, n, m) {
        let (ox, oy) = choose|ox: int, oy: int|
            on_board(n, ox, oy) && (oy < n || (oy == n && ox < 0)) && at(cells, n, ox, oy) == color
                && #[trigger] reaches(cells, n, ox, oy, m);
        assert(reaches(cells, n, ox, oy, m));
    }
    if legal_move(cells, n, color, m.0 as int, m.1 as int) {
        let (ox, oy) = choose|ox: int, oy: int|
            on_board(n, ox, oy) && at(cells, n, ox, oy) == color && #[trigger] reaches(
                cells,
                n,
                ox,
                oy,
                m,
            );
        assert(reached_before(cells, n, color, 0, n, m));
    }
}

impl Board {
    /// The eight directions, in the order in which rays are cast.
    pub const DIRECTIONS: [(i8, i8); 8] = [
        (1, 1),
        (1, 0),
        (1, -1),
        (0, -1),
        (-1, -1),
        (-1, 0),
        (-1, 1),
        (0, 1),
    ];

    /// The side of the board.
    pub open spec fn side(&self) -> int {
        self.n as int
    }

    /// The side is in range and `pieces` is a board of that side.
    pub open spec fn wf(&self) -> bool {
        is_side(self.side()) && is_cells(self.pieces@, self.side())
    }

    /// The starting position: the four centre squares are taken, two by each player, each
    /// player's pair on a diagonal.
    pub fn new(n: usize) -> (b: Board)
        requires
            is_side(n as int),
        ensures
            b.side() == n,
            b.pieces@ == start_cells(n as int),
            b.wf(),
    {
        proof {
            lemma_start_squares(n as int);
        }
        let h: usize = n / 2;
        let mut pieces: Vec<i8> = Vec::new();
        let mut i: usize = 0;
        while i < n * n
            invariant
                is_side(n as int),
                n * n <= 16129,
                i <= n * n,
                pieces@ == Seq::new(i as nat, |j: int| 0i8),
            decreases n * n - i,
        {
            pieces.push(0);
            i += 1;
        }
        pieces.set(index(n, h - 1, h), 1);
        pieces.set(index(n, h, h - 1), 1);
        pieces.set(index(n, h - 1, h - 1), -1);
        pieces.set(index(n, h, h), -1);
        assert forall|j: int| 0 <= j < n * n implies pieces@[j] == start_cells(n as int)[j] by {
            lemma_square(n as int, j);
        }
        assert(pieces@ =~= start_cells(n as int));
        Board { n, pieces }
    }

    /// The content of square `(x, y)`.
    fn cell(&self, x: i8, y: i8) -> (c: i8)
        requires
            self.wf(),
            on_board(self.side(), x as int, y as int),
        ensures
            c == at(self.pieces@, self.side(), x as int, y as int),
            -1 <= c <= 1,
    {
        self.pieces[index(self.n, x as usize, y as usize)]
    }

    /// The number of pieces of `color` minus the number of pieces of its opponent.
    pub fn count_diff(&self, color: i8) -> (count: i32)
        requires
            self.wf(),
            is_player(color as int),
        ensures
            count == tally(self.pieces@, color as int),
    {
        proof {
            lemma_start_squares(self.side());
        }
        let mut count: i32 = 0;
        let mut i: usize = 0;
        assert(places_upto(self.pieces@, color as int, 0) =~= Set::empty());
        assert(places_upto(self.pieces@, -color, 0) =~= Set::empty());
        while i < self.pieces.len()
            invariant
                self.pieces.len() <= 16129,
                is_player(color as int),
                i <= self.pieces.len(),
                places_upto(self.pieces@, color as int, i as int).finite(),
                places_upto(self.pieces@, -color, i as int).finite(),
                places_upto(self.pieces@, color as int, i as int).len() <= i,
                places_upto(self.pieces@, -color, i as int).len() <= i,
                count == places_upto(self.pieces@, color as int, i as int).len() - places_upto(
                    self.pieces@,
                    -color,
                    i as int,
                ).len(),
            decreases self.pieces.len() - i,
        {
            proof {
                lemma_places_step(self.pieces@, color as int, i as int);
                lemma_places_step(self.pieces@, -color, i as int);
            }
            let square = self.pieces[i];
            if square == color {
                count += 1;
            }
            if square == -color {
                count -= 1;
            }
            i += 1;
            proof {
                if i < self.pieces.len() {
                    lemma_places_step(self.pieces@, color as int, i as int);
                    lemma_places_step(self.pieces@, -color, i as int);
                }
            }
        }
        count
    }

    /// The legal destinations of `color`, each once, in no particular order: the order is that
    /// in which the set that gathers them hands them out.
    pub fn get_legal_moves(&self, color: i8) -> (r: Vec<(i8, i8)>)
        requires
            self.wf(),
            is_player(color as int),
        ensures
            r@.no_duplicates(),
            forall|m: (i8, i8)|
                #![trigger r@.contains(m)]
                r@.contains(m) <==> legal_move(
                    self.pieces@,
                    self.side(),
                    color as int,
                    m.0 as int,
                    m.1 as int,
                ),
    {
        broadcast use vstd::std_specs::hash::group_hash_axioms;

        let ghost cells = self.pieces@;
        let ghost n = self.side();
        let mut moves: HashSet<u16> = HashSet::new();
        let mut y: usize = 0;
        while y < self.n
            invariant
                self.wf(),
                cells == self.pieces@,
                n == self.side(),
                y <= self.n,
                forall|k: u16|
                    #![trigger moves@.contains(k)]
                    moves@.contains(k) <==> k < n * n && reached_before(
                        cells,
                        n,
                        color as int,
                        0,
                        y as int,
                        square_at(n, k),
                    ),
            decreases self.n - y,
        {
            let mut x: usize = 0;
            while x < self.n
                invariant
                    self.wf(),
                    cells == self.pieces@,
                    n == self.side(),
                    y < self.n,
                    x <= self.n,
                    forall|k: u16|
                        #![trigger moves@.contains(k)]
                        moves@.contains(k) <==> k < n * n && reached_before(
                            cells,
                            n,
                            color as int,
                            x as int,
                            y as int,
                            square_at(n, k),
                        ),
                decreases self.n - x,
            {
                let ghost before = moves@;
                if self.cell(x as i8, y as i8) == color {
                    let new_moves = self.get_moves_for_square((x as i8, y as i8));
                    let mut t: usize = 0;
                    while t < new_moves.len()
                        invariant
                            self.wf(),
                            n == self.side(),
                            cells == self.pieces@,
                            on_board(n, x as int, y as int),
                            at(cells, n, x as int, y as int) == color,
                            new_moves@ == moves_from(cells, n, x as int, y as int),
                            t <= new_moves.len(),
                            forall|k: u16|
                                #![trigger moves@.contains(k)]
                                moves@.contains(k) <==> before.contains(k) || (k < n * n
                                    && listed(new_moves@, t as int, square_at(n, k))),
                        decreases new_moves.len() - t,
                    {
                        let new_move = new_moves[t];
                        let ghost held = moves@;
                        proof {
                            assert(new_moves@.contains(new_move));
                            lemma_moves_upto(cells, n, x as int, y as int, 8, new_move);
                            lemma_legal_move(cells, n, color as int, new_move);
                            lemma_legal_on_board(
                                cells,
                                n,
                                color as int,
                                new_move.0 as int,
                                new_move.1 as int,
                            );
                            lemma_index(n, new_move.0 as int, new_move.1 as int);
                            lemma_start_squares(n);
                        }
                        let place = index(self.n, new_move.0 as usize, new_move.1 as usize);
                        moves.insert(place as u16);
                        assert forall|k: u16|
                            #![trigger moves@.contains(k)]
                            moves@.contains(k) <==> before.contains(k) || (k < n * n && listed(
                                new_moves@,
                                t + 1,
                                square_at(n, k),
                            )) by {
                            assert(held.contains(k) <==> before.contains(k) || (k < n * n
                                && listed(new_moves@, t as int, square_at(n, k))));
                            lemma_listed(new_moves@, t as int, square_at(n, k));
                            if k < n * n {
                                lemma_place(n, new_move.0 as int, new_move.1 as int, k);
                            }
                        }
                        t += 1;
                    }
                    assert forall|k: u16|
                        #![trigger moves@.contains(k)]
                        moves@.contains(k) <==> k < n * n && reached_before(
                            cells,
                            n,
                            color as int,
                            x + 1,
                            y as int,
                            square_at(n, k),
                        ) by {
                        let m = square_at(n, k);
                        lemma_moves_upto(cells, n, x as int, y as int, 8, m);
                        lemma_listed_all(new_moves@, m);
                        lemma_reached_step(cells, n, color as int, x as int, y as int, m);
                    }
                } else {
                    assert forall|k: u16|
                        #![trigger moves@.contains(k)]
                        moves@.contains(k) <==> k < n * n && reached_before(
                            cells,
                            n,
                            color as int,
                            x + 1,
                            y as int,
                            square_at(n, k),
                        ) by {
                        lemma_reached_step(
                            cells,
                            n,
                            color as int,
                            x as int,
                            y as int,
                            square_at(n, k),
                        );
                    }
                }
                x += 1;
            }
            assert forall|k: u16|
                #![trigger moves@.contains(k)]
                moves@.contains(k) <==> k < n * n && reached_before(
                    cells,
                    n,
                    color as int,
                    0,
                    y + 1,
                    square_at(n, k),
                ) by {
                lemma_reached_column(cells, n, color as int, y as int, square_at(n, k));
            }
            y += 1;
        }
        let ghost keys = vstd::std_specs::hash::spec_hash_keys_iter(&moves).remaining();
        let mut r: Vec<(i8, i8)> = Vec::new();
        for k in it: moves.iter()
            invariant
                self.wf(),
                n == self.side(),
                it.seq() == keys,
                keys.unref().to_set() == moves@,
                forall|k: u16| #![trigger moves@.contains(k)] moves@.contains(k) ==> k < n * n,
                r.len() == it.index(),
                forall|i: int| 0 <= i < r.len() ==> #[trigger] r@[i] == square_at(n, *keys[i]),
        {
            proof {
                assert(keys.unref()[it.index() as int] == *k);
                assert(keys.unref().to_set().contains(*k));
                lemma_square(n, *k as int);
                lemma_start_squares(n);
            }
            let place = *k as usize;
            r.push(((place / self.n) as i8, (place % self.n) as i8));
        }
        proof {
            assert forall|i: int| 0 <= i < keys.len() implies *(#[trigger] keys[i]) < n * n by {
                assert(keys.unref()[i] == *keys[i]);
                assert(keys.unref().to_set().contains(*keys[i]));
            }
            assert forall|i: int, j: int| 0 <= i < j < r@.len() implies r@[i] != r@[j] by {
                assert(keys[i] != keys[j]);
                let (a, b) = (*keys[i], *keys[j]);
                lemma_square(n, a as int);
                lemma_place(n, a as int / n, a as int % n, a);
                lemma_place(n, a as int / n, a as int % n, b);
            }
            assert forall|m: (i8, i8)|
                #![trigger r@.contains(m)]
                r@.contains(m) <==> legal_move(
                    cells,
                    n,
                    color as int,
                    m.0 as int,
                    m.1 as int,
                ) by {
                lemma_reached_column(cells, n, color as int, n, m);
                if r@.contains(m) {
                    let i = choose|i: int| 0 <= i < r@.len() && r@[i] == m;
                    assert(keys.unref()[i] == *keys[i]);
                    assert(moves@.contains(*keys[i]));
                }
                if legal_move(cells, n, color as int, m.0 as int, m.1 as int) {
                    lemma_legal_on_board(cells, n, color as int, m.0 as int, m.1 as int);
                    lemma_index(n, m.0 as int, m.1 as int);
                    lemma_start_squares(n);
                    let k = (m.0 * n + m.1) as u16;
                    lemma_place(n, m.0 as int, m.1 as int, k);
                    assert(moves@.contains(k));
                    assert(keys.unref().contains(k));
                    let i = choose|i: int| 0 <= i < keys.unref().len() && keys.unref()[i] == k;
                    assert(r@[i] == m);
                }
            }
        }
        r
    }

    /// Whether `color` has a legal destination. The scan stops at the first piece that discovers
    /// one.
    pub fn has_legal_moves(&self, color: i8) -> (r: bool)
        requires
            self.wf(),
            is_player(color as int),
        ensures
            r == can_move(self.pieces@, self.side(), color as int),
    {
        let ghost cells = self.pieces@;
        let ghost n = self.side();
        let mut y: usize = 0;
        while y < self.n
            invariant
                self.wf(),
                cells == self.pieces@,
                n == self.side(),
                y <= self.n,
                idle_before(cells, n, color as int, 0, y as int),
            decreases self.n - y,
        {
            let mut x: usize = 0;
            while x < self.n
                invariant
                    self.wf(),
                    cells == self.pieces@,
                    n == self.side(),
                    y < self.n,
                    x <= self.n,
                    idle_before(cells, n, color as int, x as int, y as int),
                decreases self.n - x,
            {
                if self.cell(x as i8, y as i8) == color {
                    let new_moves = self.get_moves_for_square((x as i8, y as i8));
                    if new_moves.len() > 0 {
                        proof {
                            let m = new_moves[0];
                            lemma_moves_upto(cells, n, x as int, y as int, 8, m);
                            assert(reaches(cells, n, x as int, y as int, m));
                            lemma_legal_move(cells, n, color as int, m);
                        }
                        return true;
                    }
                }
                x += 1;
            }
            y += 1;
        }
        proof {
            if can_move(cells, n, color as int) {
                let (mx, my) = choose|mx: int, my: int| #[trigger]
                    legal_move(cells, n, color as int, mx, my);
                lemma_legal_on_board(cells, n, color as int, mx, my);
                let m = square(mx, my);
                lemma_legal_move(cells, n, color as int, m);
                let (ox, oy) = choose|ox: int, oy: int|
                    on_board(n, ox, oy) && at(cells, n, ox, oy) == color && #[trigger] reaches(
                        cells,
                        n,
                        ox,
                        oy,
                        m,
                    );
                lemma_moves_upto(cells, n, ox, oy, 8, m);
                assert(moves_from(cells, n, ox, oy).contains(m));
            }
        }
        false
    }

    /// The destinations that the piece on `square` discovers, one ray after the other; none where
    /// `square` is empty.
    pub fn get_moves_for_square(&self, square: (i8, i8)) -> (r: Vec<(i8, i8)>)
        requires
            self.wf(),
            on_board(self.side(), square.0 as int, square.1 as int),
        ensures
            r@ == moves_from(self.pieces@, self.side(), square.0 as int, square.1 as int),
    {
        let color = self.cell(square.0, square.1);
        let mut moves: Vec<(i8, i8)> = Vec::new();
        if color == 0 {
            proof {
                lemma_empty_square_moves(
                    self.pieces@,
                    self.side(),
                    square.0 as int,
                    square.1 as int,
                    8,
                );
            }
            return moves;
        }
        let mut j: usize = 0;
        while j < 8
            invariant
                self.wf(),
                on_board(self.side(), square.0 as int, square.1 as int),
                j <= 8,
                moves@ == moves_upto(
                    self.pieces@,
                    self.side(),
                    square.0 as int,
                    square.1 as int,
                    j as int,
                ),
            decreases 8 - j,
        {
            let direction = Self::DIRECTIONS[j];
            assert(direction.0 == compass(j as int).0 && direction.1 == compass(j as int).1);
            let action = self.discover_move(square, direction);
            match action {
                Some(x) => moves.push(x),
                None => {},
            }
            j += 1;
        }
        moves
    }

    /// Puts a piece of `color` on `action` and turns over what it captures: in each of the eight
    /// directions the unbroken run of opposing pieces that a piece of `color` ends. A direction
    /// without such a run changes nothing.
    #[verifier::loop_isolation(false)]
    pub fn execute_move(&mut self, action: (i8, i8), color: i8)
        requires
            old(self).wf(),
            on_board(old(self).side(), action.0 as int, action.1 as int),
            is_player(color as int),
        ensures
            final(self).n == old(self).n,
            final(self).pieces@ == moved(
                old(self).pieces@,
                old(self).side(),
                action.0 as int,
                action.1 as int,
                color as int,
            ),
            final(self).wf(),
    {
        let ghost cells = self.pieces@;
        let ghost n = self.side();
        let ghost (x, y) = (action.0 as int, action.1 as int);
        let ghost c = color as int;
        proof {
            lemma_start_squares(n);
        }
        let origin = index(self.n, action.0 as usize, action.1 as usize);
        self.pieces.set(origin, color);
        assert forall|i: int| 0 <= i < cells.len() implies #[trigger] self.pieces@[i] == (
        if turned_upto(cells, n, x, y, c, 0, i / n, i % n) {
            color
        } else {
            cells[i]
        }) by {
            lemma_square(n, i);
        }
        let mut j: usize = 0;
        while j < 8
            invariant
                j <= 8,
                self.n == n,
                self.pieces@.len() == cells.len(),
                is_cells(self.pieces@, n),
                forall|i: int|
                    0 <= i < cells.len() ==> #[trigger] self.pieces@[i] == (if turned_upto(
                        cells,
                        n,
                        x,
                        y,
                        c,
                        j as int,
                        i / n,
                        i % n,
                    ) {
                        color
                    } else {
                        cells[i]
                    }),
            decreases 8 - j,
        {
            let direction = Self::DIRECTIONS[j];
            let ghost (dx, dy) = compass(j as int);
            assert(dx == direction.0 && dy == direction.1);
            proof {
                let now = self.pieces@;
                assert forall|i: int|
                    #![trigger ray_at(now, n, x, y, dx, dy, i)]
                    i >= 1 && ray_on(n, x, y, dx, dy, i) implies ray_at(now, n, x, y, dx, dy, i)
                    == ray_at(cells, n, x, y, dx, dy, i) by {
                    let (u, v) = (x + i * dx, y + i * dy);
                    lemma_index(n, u, v);
                    if turned_upto(cells, n, x, y, c, j as int, u, v) {
                        if u == x && v == y {
                            lemma_rays_apart(dx, dy, 0, dx, dy, i);
                        } else {
                            let j2 = choose|j2: int|
                                0 <= j2 < j && #[trigger] flips(
                                    cells,
                                    n,
                                    x,
                                    y,
                                    compass(j2).0,
                                    compass(j2).1,
                                    c,
                                ).contains(square(u, v));
                            let (dx2, dy2) = compass(j2);
                            let f = flips(cells, n, x, y, dx2, dy2, c);
                            let t = choose|t: int| 0 <= t < f.len() && f[t] == square(u, v);
                            lemma_flips(cells, n, x, y, dx2, dy2, c);
                            assert(f[t].0 == x + t * dx2 && f[t].1 == y + t * dy2);
                            lemma_rays_apart(dx2, dy2, t, dx, dy, i);
                        }
                    }
                }
                lemma_flips_stable(cells, now, n, x, y, dx, dy, c);
                lemma_flips(cells, n, x, y, dx, dy, c);
            }
            let fl = self.get_flips(action, direction, color);
            let mut t: usize = 0;
            while t < fl.len()
                invariant
                    t <= fl.len(),
                    self.n == n,
                    self.pieces@.len() == cells.len(),
                    is_cells(self.pieces@, n),
                    forall|i: int|
                        0 <= i < cells.len() ==> #[trigger] self.pieces@[i] == (if turned_upto(
                            cells,
                            n,
                            x,
                            y,
                            c,
                            j as int,
                            i / n,
                            i % n,
                        ) || listed(fl@, t as int, square(i / n, i % n)) {
                            color
                        } else {
                            cells[i]
                        }),
                decreases fl.len() - t,
            {
                let flip = fl[t];
                assert(on_board(n, flip.0 as int, flip.1 as int));
                let here = index(self.n, flip.0 as usize, flip.1 as usize);
                let ghost before = self.pieces@;
                self.pieces.set(here, color);
                assert forall|i: int| 0 <= i < cells.len() implies #[trigger] self.pieces@[i] == (
                if turned_upto(cells, n, x, y, c, j as int, i / n, i % n) || listed(
                    fl@,
                    t + 1,
                    square(i / n, i % n),
                ) {
                    color
                } else {
                    cells[i]
                }) by {
                    lemma_square(n, i);
                    let sq = square(i / n, i % n);
                    assert(before[i] == (if turned_upto(cells, n, x, y, c, j as int, i / n, i % n)
                        || listed(fl@, t as int, sq) {
                        color
                    } else {
                        cells[i]
                    }));
                    lemma_listed(fl@, t as int, sq);
                }
                t += 1;
            }
            assert forall|i: int| 0 <= i < cells.len() implies #[trigger] self.pieces@[i] == (
            if turned_upto(cells, n, x, y, c, j + 1, i / n, i % n) {
                color
            } else {
                cells[i]
            }) by {
                let sq = square(i / n, i % n);
                let (u, v) = (i / n, i % n);
                if listed(fl@, t as int, sq) {
                    let k = choose|k: int| 0 <= k < t && fl@[k] == sq;
                    assert(flips(cells, n, x, y, compass(j as int).0, compass(j as int).1, c).contains(
                        sq,
                    ));
                }
                if turned_upto(cells, n, x, y, c, j + 1, u, v) && !turned_upto(
                    cells,
                    n,
                    x,
                    y,
                    c,
                    j as int,
                    u,
                    v,
                ) {
                    let j2 = choose|j2: int|
                        0 <= j2 < j + 1 && #[trigger] flips(
                            cells,
                            n,
                            x,
                            y,
                            compass(j2).0,
                            compass(j2).1,
                            c,
                        ).contains(sq);
                    assert(j2 == j);
                    let k = choose|k: int| 0 <= k < fl@.len() && fl@[k] == sq;
                    assert(listed(fl@, t as int, sq));
                }
                if turned_upto(cells, n, x, y, c, j as int, u, v) && !(u == x && v == y) {
                    let j2 = choose|j2: int|
                        0 <= j2 < j && #[trigger] flips(
                            cells,
                            n,
                            x,
                            y,
                            compass(j2).0,
                            compass(j2).1,
                            c,
                        ).contains(sq);
                    assert(0 <= j2 < j + 1);
                }
            }
            j += 1;
        }
        assert(self.pieces@ =~= moved(cells, n, x, y, c));
    }

    /// The destination that the piece on `origin` discovers in `direction`: the empty square
    /// behind an unbroken run of one or more opposing pieces. `None` where `origin` is empty, and
    /// where the run is missing or ends on a piece of the same colour or at the edge.
    pub fn discover_move(&self, origin: (i8, i8), direction: (i8, i8)) -> (r: Option<(i8, i8)>)
        requires
            self.wf(),
            on_board(self.side(), origin.0 as int, origin.1 as int),
            is_direction(direction.0 as int, direction.1 as int),
        ensures
            r == discovery(
                self.pieces@,
                self.side(),
                origin.0 as int,
                origin.1 as int,
                direction.0 as int,
                direction.1 as int,
            ),
    {
        let ghost cells = self.pieces@;
        let ghost n = self.side();
        let ghost (x, y) = (origin.0 as int, origin.1 as int);
        let ghost (dx, dy) = (direction.0 as int, direction.1 as int);
        let color = self.cell(origin.0, origin.1);
        if color == 0 {
            return None;
        }
        let ray = self.increment_move(origin, direction, self.n);
        let mut t: usize = 0;
        while t < ray.len()
            invariant
                self.wf(),
                cells == self.pieces@,
                n == self.side(),
                t <= ray.len(),
                (x, y) == (origin.0 as int, origin.1 as int),
                (dx, dy) == (direction.0 as int, direction.1 as int),
                color == at(cells, n, x, y),
                color != 0,
                -1 <= color <= 1,
                span(cells, n, x, y, dx, dy, -color, t as int),
                forall|i: int| 1 <= i <= ray.len() ==> #[trigger] ray_on(n, x, y, dx, dy, i),
                forall|j: int|
                    0 <= j < ray.len() ==> #[trigger] ray[j] == square(
                        x + (j + 1) * dx,
                        y + (j + 1) * dy,
                    ),
            decreases ray.len() - t,
        {
            assert(ray_on(n, x, y, dx, dy, t + 1));
            let here = self.cell(ray[t].0, ray[t].1);
            assert(here == ray_at(cells, n, x, y, dx, dy, t + 1));
            if here == 0 {
                if t > 0 {
                    proof {
                        assert(discovers(cells, n, x, y, dx, dy, t as int));
                        let k = choose|k: int| discovers(cells, n, x, y, dx, dy, k);
                        lemma_discovers_unique(cells, n, x, y, dx, dy, k, t as int);
                    }
                    return Some(ray[t]);
                }
                assert forall|k: int| !discovers(cells, n, x, y, dx, dy, k) by {
                    if discovers(cells, n, x, y, dx, dy, k) {
                        assert(ray_on(n, x, y, dx, dy, 1));
                    }
                }
                return None;
            }
            if here == color {
                assert forall|k: int| !discovers(cells, n, x, y, dx, dy, k) by {
                    if discovers(cells, n, x, y, dx, dy, k) {
                        if k > t {
                            assert(ray_on(n, x, y, dx, dy, t + 1));
                        } else {
                            assert(ray_on(n, x, y, dx, dy, k + 1));
                        }
                    }
                }
                return None;
            }
            t += 1;
        }
        assert forall|k: int| !discovers(cells, n, x, y, dx, dy, k) by {
            if discovers(cells, n, x, y, dx, dy, k) {
                if k >= ray.len() {
                    assert(ray_on(n, x, y, dx, dy, ray.len() + 1));
                } else {
                    assert(ray_on(n, x, y, dx, dy, k + 1));
                }
            }
        }
        None
    }

    /// What a piece of `color` put on `origin` turns over in `direction`: `origin` itself, then
    /// the unbroken run of opposing pieces, where a piece of `color` ends the run; nothing where
    /// an empty square or the edge ends it.
    pub fn get_flips(&self, origin: (i8, i8), direction: (i8, i8), color: i8) -> (r: Vec<(i8, i8)>)
        requires
            self.wf(),
            on_board(self.side(), origin.0 as int, origin.1 as int),
            is_direction(direction.0 as int, direction.1 as int),
            is_player(color as int),
        ensures
            r@ == flips(
                self.pieces@,
                self.side(),
                origin.0 as int,
                origin.1 as int,
                direction.0 as int,
                direction.1 as int,
                color as int,
            ),
    {
        let ghost cells = self.pieces@;
        let ghost n = self.side();
        let ghost (x, y) = (origin.0 as int, origin.1 as int);
        let ghost (dx, dy) = (direction.0 as int, direction.1 as int);
        let mut flips: Vec<(i8, i8)> = Vec::new();
        flips.push(origin);
        let ray = self.increment_move(origin, direction, self.n);
        let mut t: usize = 0;
        while t < ray.len()
            invariant
                self.wf(),
                cells == self.pieces@,
                n == self.side(),
                t <= ray.len(),
                (x, y) == (origin.0 as int, origin.1 as int),
                (dx, dy) == (direction.0 as int, direction.1 as int),
                is_player(color as int),
                on_board(n, x, y),
                span(cells, n, x, y, dx, dy, -color, t as int),
                flips@ =~= Seq::new((t + 1) as nat, |i: int| square(x + i * dx, y + i * dy)),
                forall|i: int| 1 <= i <= ray.len() ==> #[trigger] ray_on(n, x, y, dx, dy, i),
                forall|j: int|
                    0 <= j < ray.len() ==> #[trigger] ray[j] == square(
                        x + (j + 1) * dx,
                        y + (j + 1) * dy,
                    ),
            decreases ray.len() - t,
        {
            assert(ray_on(n, x, y, dx, dy, t + 1));
            let here = self.cell(ray[t].0, ray[t].1);
            assert(here == ray_at(cells, n, x, y, dx, dy, t + 1));
            if here == 0 {
                assert forall|k: int| !captures(cells, n, x, y, dx, dy, color as int, k) by {
                    if captures(cells, n, x, y, dx, dy, color as int, k) {
                        if k > t {
                            assert(ray_on(n, x, y, dx, dy, t + 1));
                        } else {
                            assert(ray_on(n, x, y, dx, dy, k + 1));
                        }
                    }
                }
                return Vec::new();
            }
            if here == -color {
                flips.push(ray[t]);
            } else {
                proof {
                    assert(captures(cells, n, x, y, dx, dy, color as int, t as int));
                    let k = choose|k: int| captures(cells, n, x, y, dx, dy, color as int, k);
                    lemma_captures_unique(cells, n, x, y, dx, dy, color as int, k, t as int);
                }
                return flips;
            }
            t += 1;
        }
        assert forall|k: int| !captures(cells, n, x, y, dx, dy, color as int, k) by {
            if captures(cells, n, x, y, dx, dy, color as int, k) {
                if k >= ray.len() {
                    assert(ray_on(n, x, y, dx, dy, ray.len() + 1));
                } else {
                    assert(ray_on(n, x, y, dx, dy, k + 1));
                }
            }
        }
        Vec::new()
    }

    /// The squares of the ray that leaves `action` in `direction`, nearest first, as far as they
    /// lie on a board of side `n`.
    pub fn increment_move(&self, action: (i8, i8), direction: (i8, i8), n: usize) -> (r: Vec<
        (i8, i8),
    >)
        requires
            n <= 127,
            is_direction(direction.0 as int, direction.1 as int),
            -128 <= action.0 + direction.0 <= 127,
            -128 <= action.1 + direction.1 <= 127,
        ensures
            forall|i: int|
                1 <= i <= r.len() ==> #[trigger] ray_on(
                    n as int,
                    action.0 as int,
                    action.1 as int,
                    direction.0 as int,
                    direction.1 as int,
                    i,
                ),
            forall|j: int|
                0 <= j < r.len() ==> #[trigger] r[j] == square(
                    action.0 + (j + 1) * direction.0,
                    action.1 + (j + 1) * direction.1,
                ),
            !ray_on(
                n as int,
                action.0 as int,
                action.1 as int,
                direction.0 as int,
                direction.1 as int,
                r.len() + 1,
            ),
    {
        let ghost (ax, ay) = (action.0 as int, action.1 as int);
        let ghost (dx, dy) = (direction.0 as int, direction.1 as int);
        let mut output: Vec<(i8, i8)> = Vec::new();
        let mut x: i8 = action.0 + direction.0;
        let mut y: i8 = action.1 + direction.1;
        let side: i8 = n as i8;
        proof {
            lemma_ray_step(ax, dx, 0);
            lemma_ray_step(ay, dy, 0);
        }
        while x >= 0 && x < side && y >= 0 && y < side
            invariant
                side == n,
                is_direction(dx, dy),
                (ax, ay) == (action.0 as int, action.1 as int),
                (dx, dy) == (direction.0 as int, direction.1 as int),
                x == ax + (output.len() + 1) * dx,
                y == ay + (output.len() + 1) * dy,
                forall|i: int|
                    1 <= i <= output.len() ==> #[trigger] ray_on(n as int, ax, ay, dx, dy, i),
                forall|j: int|
                    0 <= j < output.len() ==> #[trigger] output[j] == square(
                        ax + (j + 1) * dx,
                        ay + (j + 1) * dy,
                    ),
            decreases
                    (if dx > 0 {
                        side - x
                    } else if dx < 0 {
                        x + 1
                    } else if dy > 0 {
                        side - y
                    } else {
                        y + 1
                    }),
        {
            proof {
                lemma_ray_step(ax, dx, output.len() + 1);
                lemma_ray_step(ay, dy, output.len() + 1);
            }
            output.push((x, y));
            x += direction.0;
            y += direction.1;
        }
        output
    }
}

} // verus!

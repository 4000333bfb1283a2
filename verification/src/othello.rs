//! Othello as a [`Game`].
use vstd::prelude::*;
use vstd::string::StringExecFns;
use crate::board::Board;
use crate::board_math::{
    lemma_symmetric_board, lemma_table, lemma_tables, permuted, table, BoardMath, Symmetry,
};
use crate::game::Game;
use crate::lemmas::{
    lemma_index, lemma_key_of, lemma_legal_on_board, lemma_listed, lemma_listed_all,
    lemma_move_fills, lemma_seen_by, lemma_seen_by_move, lemma_square, lemma_start_squares,
};
use crate::rules::{
    can_move, is_cells, is_player, key_of, legal_move, listed, moved, result_for, seen_by, square,
    start_cells, turns_bound,
};
use crate::vecs::{copied, filled};

verus! {

/// The `i`-th symmetry, in the order in which the symmetric forms are listed.
pub open spec fn symmetry(i: int) -> Symmetry {
    if i == 1 {
        Symmetry::Mirror
    } else if i == 2 {
        Symmetry::L90
    } else if i == 3 {
        Symmetry::L90Mirror
    } else if i == 4 {
        Symmetry::R90
    } else if i == 5 {
        Symmetry::R90Mirror
    } else if i == 6 {
        Symmetry::L180
    } else if i == 7 {
        Symmetry::L180Mirror
    } else {
        Symmetry::Identity
    }
}

/// Othello on a board of side `n`: the starting position and the tables of the symmetries.
#[derive(Clone)]
pub struct Othello {
    n: usize,
    b: Board,
    bm: BoardMath,
}

impl Othello {
    /// The side of the board.
    pub closed spec fn side(&self) -> int {
        self.n as int
    }

    /// The action that stands for passing: the one behind the squares.
    pub open spec fn pass(&self) -> int {
        self.side() * self.side()
    }

    /// The game's own data is in order: the side is one that [`Game::new`] accepts, the board
    /// kept is the starting position, and the tables are those of the side.
    pub closed spec fn well_formed(&self) -> bool {
        &&& 2 <= self.n <= 15
        &&& self.b.n == self.n
        &&& self.b.pieces@ == start_cells(self.n as int)
        &&& self.b.wf()
        &&& self.bm.wf(self.n as int)
    }
}

impl Game for Othello {
    /// Sides from 2 to 15: the four starting pieces fit, and every action, the pass among them,
    /// fits a byte.
    open spec fn supports(n: usize) -> bool {
        2 <= n <= 15
    }

    /// The game is well formed, on a board of a side that is supported.
    open spec fn inv(&self) -> bool {
        self.well_formed() && 2 <= self.side() <= 15
    }

    /// As many rows as columns.
    open spec fn board_size(&self) -> (int, int) {
        (self.side(), self.side())
    }

    /// One action for each square, and one for passing.
    open spec fn action_count(&self) -> int {
        self.side() * self.side() + 1
    }

    /// A board of the side of the game, each cell empty or owned by a player.
    open spec fn is_board(&self, board: Seq<i8>) -> bool {
        is_cells(board, self.side())
    }

    /// The four centre squares are taken, two by each player.
    open spec fn start(&self) -> Seq<i8> {
        start_cells(self.side())
    }

    /// The action of a square is legal where the square is a legal destination; passing is
    /// legal exactly if no square is.
    open spec fn legal(&self, board: Seq<i8>, player: int, action: int) -> bool {
        if action == self.pass() {
            !can_move(board, self.side(), player)
        } else {
            0 <= action < self.pass() && legal_move(
                board,
                self.side(),
                player,
                action / self.side(),
                action % self.side(),
            )
        }
    }

    /// Passing leaves the board as it is; the action of a square is the move to the square.
    open spec fn next(&self, board: Seq<i8>, player: int, action: int) -> Seq<i8> {
        if action == self.pass() {
            board
        } else {
            moved(board, self.side(), action / self.side(), action % self.side(), player)
        }
    }

    /// The game goes on while one of the players can move. After that the player with more
    /// pieces has won; a player who has as many pieces as the other has not.
    open spec fn outcome(&self, board: Seq<i8>, player: int) -> int {
        result_for(board, self.side(), player)
    }

    /// Every cell multiplied by the player.
    open spec fn canonical(&self, board: Seq<i8>, player: int) -> Seq<i8> {
        seen_by(board, player)
    }

    /// The tables of the eight symmetries of the square: the identity, the mirror image, and
    /// the quarter turn to the left, the quarter turn to the right and the half turn, each
    /// followed by its mirror image.
    open spec fn symmetry_tables(&self) -> Seq<Seq<usize>> {
        Seq::new(8, |i: int| table(symmetry(i), self.side()))
    }

    /// One letter for each cell: `X` for `-1`, `-` for an empty cell, `O` for `1`.
    open spec fn key(&self, board: Seq<i8>) -> Seq<char> {
        key_of(board)
    }

    /// Twice the number of empty squares, and one more where the player has to pass.
    open spec fn turns_left(&self, board: Seq<i8>, player: int) -> nat {
        turns_bound(board, self.side(), player)
    }

    /// A board of side `n` has `n * n` cells.
    proof fn lemma_board_size(&self, board: Seq<i8>) {
    }

    /// A legal destination where there is one, the pass where there is none.
    proof fn lemma_some_action(&self, board: Seq<i8>, player: int) -> (action: int) {
        let n = self.side();
        if can_move(board, n, player) {
            let (mx, my) = choose|mx: int, my: int| #[trigger] legal_move(board, n, player, mx, my);
            lemma_legal_on_board(board, n, player, mx, my);
            lemma_index(n, mx, my);
            mx * n + my
        } else {
            n * n
        }
    }

    /// A move fills an empty square; a pass hands the turn to a player who can move.
    proof fn lemma_turn(&self, board: Seq<i8>, player: int, action: int) {
        let n = self.side();
        if action != self.pass() {
            lemma_square(n, action);
            lemma_move_fills(board, n, action / n, action % n, player);
            assert(can_move(board, n, player));
        }
    }

    /// The rules do not tell the colours apart.
    proof fn lemma_canonical(&self, board: Seq<i8>, player: int) {
        let n = self.side();
        lemma_seen_by(board, n, player);
        assert forall|action: int|
            #![trigger self.legal(board, player, action)]
            #![trigger self.legal(self.canonical(board, player), 1, action)]
            self.legal(self.canonical(board, player), 1, action) == self.legal(
                board,
                player,
                action,
            ) by {
            lemma_seen_by_move(board, n, player, action / n, action % n);
        }
    }

    /// A symmetry of the square takes rays to rays and keeps the number of pieces.
    proof fn lemma_symmetry(&self, board: Seq<i8>, player: int, i: int) {
        let n = self.side();
        lemma_start_squares(n);
        lemma_tables(n);
        lemma_table(symmetry(i), n);
        lemma_symmetric_board(symmetry(i), n, board, player);
        assert(permuted(board, table(Symmetry::Identity, n)) =~= board);
    }

    /// The letter of a cell tells what the cell holds.
    proof fn lemma_key(&self, a: Seq<i8>, b: Seq<i8>) {
        lemma_key_of(a, b);
    }

    /// Othello on a board of side `n`.
    fn new(n: usize) -> (game: Self)
        ensures
            game.side() == n,
    {
        assert(n * n <= 225) by (nonlinear_arith)
            requires
                n <= 15,
        ;
        Othello { n, b: Board::new(n), bm: BoardMath::new(n) }
    }

    /// The starting position.
    fn get_init_board(&self) -> (board: &Vec<i8>) {
        &self.b.pieces
    }

    /// The side of the board, twice.
    fn get_board_size(&self) -> (size: (i8, i8)) {
        (self.n as i8, self.n as i8)
    }

    /// The number of squares and one.
    fn get_action_size(&self) -> (size: usize) {
        assert(self.n * self.n <= 225) by (nonlinear_arith)
            requires
                self.n <= 15,
        ;
        self.n * self.n + 1
    }

    /// The board after the pass or the move, and the other player.
    fn get_next_state(&self, board: &Vec<i8>, player: i8, action: u8) -> (state: (Vec<i8>, i8)) {
        assert(self.n * self.n <= 225) by (nonlinear_arith)
            requires
                self.n <= 15,
        ;
        if action as usize == self.n * self.n {
            return (copied(board), -player);
        }
        proof {
            lemma_square(self.side(), action as int);
        }
        let mut b = Board { n: self.n, pieces: copied(board) };
        let m = ((action / self.n as u8) as i8, (action % self.n as u8) as i8);
        b.execute_move(m, player);
        (b.pieces, -player)
    }

    /// The mask of the legal destinations, with the pass set exactly if nothing else is.
    fn get_valid_moves(&self, board: &Vec<i8>, player: i8) -> (valids: Vec<u8>)
        ensures
            valids@[self.pass()] == 1u8 <==> forall|action: int|
                0 <= action < self.pass() ==> #[trigger] valids@[action] == 0u8,
    {
        let ghost n = self.side();
        let ghost cells = board@;
        assert(self.n * self.n <= 225) by (nonlinear_arith)
            requires
                self.n <= 15,
        ;
        let size = self.get_action_size();
        let mut valids: Vec<u8> = filled(size, 0);
        let b = Board { n: self.n, pieces: copied(board) };
        let legal_moves = b.get_legal_moves(player);
        if legal_moves.len() == 0 {
            valids.set(size - 1, 1);
            assert forall|action: int| 0 <= action < valids.len() implies #[trigger] valids@[action]
                == (if self.legal(cells, player as int, action) {
                1u8
            } else {
                0u8
            }) by {
                if action < n * n {
                    lemma_square(n, action);
                    let m = square(action / n, action % n);
                    assert(!legal_moves@.contains(m));
                } else {
                    if can_move(cells, n, player as int) {
                        let (mx, my) = choose|mx: int, my: int| #[trigger]
                            legal_move(cells, n, player as int, mx, my);
                        lemma_legal_on_board(cells, n, player as int, mx, my);
                        let m = square(mx, my);
                        assert(legal_moves@.contains(m));
                    }
                }
            }
            assert(valids@[n * n] == 1u8);
            return valids;
        }
        let mut t: usize = 0;
        while t < legal_moves.len()
            invariant
                t <= legal_moves.len(),
                n == self.side(),
                2 <= n <= 15,
                valids.len() == n * n + 1,
                forall|m: (i8, i8)|
                    #![trigger legal_moves@.contains(m)]
                    legal_moves@.contains(m) <==> legal_move(
                        cells,
                        n,
                        player as int,
                        m.0 as int,
                        m.1 as int,
                    ),
                forall|a: int|
                    0 <= a < n * n ==> #[trigger] valids@[a] == (if listed(
                        legal_moves@,
                        t as int,
                        square(a / n, a % n),
                    ) {
                        1u8
                    } else {
                        0u8
                    }),
                valids@[n * n] == 0,
            decreases legal_moves.len() - t,
        {
            let legal_move = legal_moves[t];
            proof {
                assert(legal_moves@.contains(legal_move));
                lemma_legal_on_board(
                    cells,
                    n,
                    player as int,
                    legal_move.0 as int,
                    legal_move.1 as int,
                );
                lemma_index(n, legal_move.0 as int, legal_move.1 as int);
                assert(n * legal_move.0 == legal_move.0 * n && n * legal_move.0 <= 15 * 14)
                    by (nonlinear_arith)
                    requires
                        0 <= legal_move.0 < n <= 15,
                ;
            }
            let i = self.n * (legal_move.0 as usize) + legal_move.1 as usize;
            let ghost before = valids@;
            valids.set(i, 1);
            assert forall|a: int| 0 <= a < n * n implies #[trigger] valids@[a] == (if listed(
                legal_moves@,
                t + 1,
                square(a / n, a % n),
            ) {
                1u8
            } else {
                0u8
            }) by {
                lemma_square(n, a);
                let sq = square(a / n, a % n);
                assert(before[a] == (if listed(legal_moves@, t as int, sq) {
                    1u8
                } else {
                    0u8
                }));
                lemma_listed(legal_moves@, t as int, sq);
            }
            t += 1;
        }
        assert forall|action: int| 0 <= action < valids.len() implies #[trigger] valids@[action] == (
        if self.legal(cells, player as int, action) {
            1u8
        } else {
            0u8
        }) by {
            if action < n * n {
                lemma_square(n, action);
                let sq = square(action / n, action % n);
                lemma_listed_all(legal_moves@, sq);
            } else {
                let m = legal_moves@[0];
                assert(legal_moves@.contains(m));
                assert(legal_move(cells, n, player as int, m.0 as int, m.1 as int));
            }
        }
        proof {
            let m = legal_moves@[0];
            assert(legal_moves@.contains(m));
            lemma_legal_on_board(cells, n, player as int, m.0 as int, m.1 as int);
            lemma_index(n, m.0 as int, m.1 as int);
            assert(valids@[m.0 * n + m.1] == 1u8);
        }
        valids
    }

    /// `0` while one of the players can move; then `1` where `player` has more pieces than the
    /// other and `-1` where not.
    fn get_game_ended(&self, board: &Vec<i8>, player: i8) -> (ended: i8) {
        let b = Board { n: self.n, pieces: copied(board) };
        if b.has_legal_moves(player) {
            return 0;
        }
        if b.has_legal_moves(-player) {
            return 0;
        }
        if b.count_diff(player) > 0 {
            return 1;
        }
        -1
    }

    /// The board with every cell multiplied by `player`.
    fn get_canonical_form(&self, board: &Vec<i8>, player: i8) -> (canon: Vec<i8>) {
        let mut canon: Vec<i8> = Vec::new();
        let mut x: usize = 0;
        while x < board.len()
            invariant
                x <= board.len(),
                is_cells(board@, self.side()),
                is_player(player as int),
                canon@ =~= seen_by(board@, player as int).take(x as int),
            decreases board.len() - x,
        {
            let cell = board[x];
            assert(-1 <= cell * player <= 1) by (nonlinear_arith)
                requires
                    -1 <= cell <= 1,
                    player == 1 || player == -1,
            ;
            canon.push(cell * player);
            x += 1;
        }
        canon
    }

    /// The eight forms of the board, each with `pi` in the same form; the entry of `pi` for the
    /// pass stays where it is.
    fn get_symmetries<T: Copy>(&self, board: &Vec<i8>, pi: &Vec<T>) -> (forms: Vec<
        (Vec<i8>, Vec<T>),
    >) {
        let ghost n = self.side();
        proof {
            lemma_tables(n);
        }
        assert(permuted(board@, table(Symmetry::Identity, n)) =~= board@);
        assert(permuted(pi@, table(Symmetry::Identity, n)) =~= pi@);
        let mut forms: Vec<(Vec<i8>, Vec<T>)> = Vec::new();
        forms.push((copied(board), copied(pi)));
        forms.push(
            (
                BoardMath::apply_2d(board, &self.bm.mirror_1d),
                BoardMath::apply_1d(pi, &self.bm.mirror_1d),
            ),
        );
        forms.push(
            (BoardMath::apply_2d(board, &self.bm.l90_1d), BoardMath::apply_1d(pi, &self.bm.l90_1d)),
        );
        forms.push(
            (
                BoardMath::apply_2d(board, &self.bm.l90_1d_mirror),
                BoardMath::apply_1d(pi, &self.bm.l90_1d_mirror),
            ),
        );
        forms.push(
            (BoardMath::apply_2d(board, &self.bm.r90_1d), BoardMath::apply_1d(pi, &self.bm.r90_1d)),
        );
        forms.push(
            (
                BoardMath::apply_2d(board, &self.bm.r90_1d_mirror),
                BoardMath::apply_1d(pi, &self.bm.r90_1d_mirror),
            ),
        );
        forms.push(
            (
                BoardMath::apply_2d(board, &self.bm.l180_1d),
                BoardMath::apply_1d(pi, &self.bm.l180_1d),
            ),
        );
        forms.push(
            (
                BoardMath::apply_2d(board, &self.bm.l180_1d_mirror),
                BoardMath::apply_1d(pi, &self.bm.l180_1d_mirror),
            ),
        );
        forms
    }

    /// The letters of the cells, in the order of the cells.
    fn string_representation(&self, board: &Vec<i8>) -> (key: String) {
        let mut sr = String::new();
        let mut i: usize = 0;
        proof {
            reveal_strlit("X");
            reveal_strlit("-");
            reveal_strlit("O");
        }
        while i < board.len()
            invariant
                i <= board.len(),
                "X"@ == seq!['X'],
                "-"@ == seq!['-'],
                "O"@ == seq!['O'],
                sr@ =~= key_of(board@).take(i as int),
            decreases board.len() - i,
        {
            let cell = board[i];
            let content = if cell == -1 {
                "X"
            } else if cell == 0 {
                "-"
            } else {
                "O"
            };
            sr.append(content);
            i += 1;
        }
        sr
    }
}

} // verus!

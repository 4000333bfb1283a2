//! What a search or a self-play loop needs to know of a game.
//!
//! The game is for two players, `1` and `-1`, who move in turn and see the whole board. An
//! action is a number below the action size. The specification functions of the trait are the
//! model of one game; the laws say what every game keeps, and the executable methods are held
//! to the model.
use vstd::prelude::*;
use crate::board_math::{is_table, permuted};
use crate::rules::is_player;

verus! {

/// A game for two players on a board of cells, with its model, its laws and its moves.
pub trait Game: Sized {
    /// The sizes for which the game can be set up.
    spec fn supports(n: usize) -> bool;

    /// The game's own data is in order.
    spec fn inv(&self) -> bool;

    /// The dimensions of the board: the number of its rows and the number of its columns.
    spec fn board_size(&self) -> (int, int);

    /// The number of actions: one for each way to move, whether legal or not.
    spec fn action_count(&self) -> int;

    /// `board` is a position of this game.
    spec fn is_board(&self, board: Seq<i8>) -> bool;

    /// The position before the first move.
    spec fn start(&self) -> Seq<i8>;

    /// `player` may take `action` on `board`.
    spec fn legal(&self, board: Seq<i8>, player: int, action: int) -> bool;

    /// The position after `player` has taken `action` on `board`.
    spec fn next(&self, board: Seq<i8>, player: int, action: int) -> Seq<i8>;

    /// `0` while the game goes on; after its end `1` where `player` has won and `-1` where
    /// `player` has not.
    spec fn outcome(&self, board: Seq<i8>, player: int) -> int;

    /// `board` as `player` sees it: the position in which `player`'s pieces are those of `1`.
    spec fn canonical(&self, board: Seq<i8>, player: int) -> Seq<i8>;

    /// The symmetries of the board, each as an index table, in the order in which symmetric
    /// forms are listed. A table sends a position, or a vector over the actions, to the one that
    /// holds at each place `i` of the table what the first one holds at place `table[i]`. The
    /// first table is that of the identity.
    spec fn symmetry_tables(&self) -> Seq<Seq<usize>>;

    /// The key under which `board` is remembered.
    spec fn key(&self, board: Seq<i8>) -> Seq<char>;

    /// A bound on the number of turns that can still be taken with `player` to move.
    spec fn turns_left(&self, board: Seq<i8>, player: int) -> nat;

    /// The board has rows and columns, and a position has a cell for each square.
    proof fn lemma_board_size(&self, board: Seq<i8>)
        requires
            self.inv(),
            self.is_board(board),
        ensures
            self.board_size().0 > 0,
            self.board_size().1 > 0,
            board.len() == self.board_size().0 * self.board_size().1,
    ;

    /// A player always has something to do: where no move is legal, passing is.
    proof fn lemma_some_action(&self, board: Seq<i8>, player: int) -> (action: int)
        requires
            self.inv(),
            self.is_board(board),
            is_player(player),
        ensures
            0 <= action < self.action_count(),
            self.legal(board, player, action),
    ;

    /// A legal action is one of the game's actions and leads to a position of the game. While
    /// the game goes on, it brings the end nearer.
    proof fn lemma_turn(&self, board: Seq<i8>, player: int, action: int)
        requires
            self.inv(),
            self.is_board(board),
            is_player(player),
            self.legal(board, player, action),
        ensures
            0 <= action < self.action_count(),
            self.is_board(self.next(board, player, action)),
            self.outcome(board, player) == 0 ==> self.turns_left(
                self.next(board, player, action),
                -player,
            ) < self.turns_left(board, player),
    ;

    /// Nothing depends on which of the two players is called `1`: what `player` may do on
    /// `board`, and how the game stands for `player`, is what `1` may do on the canonical form,
    /// and how the game stands there for `1`.
    proof fn lemma_canonical(&self, board: Seq<i8>, player: int)
        requires
            self.inv(),
            self.is_board(board),
            is_player(player),
        ensures
            self.is_board(self.canonical(board, player)),
            self.canonical(board, 1) == board,
            forall|action: int|
                #![trigger self.legal(board, player, action)]
                #![trigger self.legal(self.canonical(board, player), 1, action)]
                self.legal(self.canonical(board, player), 1, action) == self.legal(
                    board,
                    player,
                    action,
                ),
            self.outcome(self.canonical(board, player), 1) == self.outcome(board, player),
            self.turns_left(self.canonical(board, player), 1) == self.turns_left(board, player),
    ;

    /// There is a symmetry, and the first one moves nothing. Seen through a symmetry, a position
    /// is a position of the game again, and the game stands for each player as it stood.
    proof fn lemma_symmetry(&self, board: Seq<i8>, player: int, i: int)
        requires
            self.inv(),
            self.is_board(board),
            is_player(player),
            0 <= i < self.symmetry_tables().len(),
        ensures
            is_table(self.symmetry_tables()[i], board.len() as int),
            self.is_board(permuted(board, self.symmetry_tables()[i])),
            self.outcome(permuted(board, self.symmetry_tables()[i]), player) == self.outcome(
                board,
                player,
            ),
            permuted(board, self.symmetry_tables()[0]) == board,
    ;

    /// Two positions with the same key are the same position.
    proof fn lemma_key(&self, a: Seq<i8>, b: Seq<i8>)
        requires
            self.inv(),
            self.is_board(a),
            self.is_board(b),
            self.key(a) == self.key(b),
        ensures
            a == b,
    ;

    /// A game on a board of side `n`.
    fn new(n: usize) -> (game: Self)
        requires
            Self::supports(n),
        ensures
            game.inv(),
    ;

    /// The position before the first move.
    fn get_init_board(&self) -> (board: &Vec<i8>)
        requires
            self.inv(),
        ensures
            board@ == self.start(),
            self.is_board(board@),
    ;

    /// The dimensions of the board.
    fn get_board_size(&self) -> (size: (i8, i8))
        requires
            self.inv(),
        ensures
            size.0 == self.board_size().0,
            size.1 == self.board_size().1,
    ;

    /// The number of actions. An action fits a byte.
    fn get_action_size(&self) -> (size: usize)
        requires
            self.inv(),
        ensures
            size == self.action_count(),
            size <= 256,
    ;

    /// The position after `player` has taken `action`, and the player who moves next.
    fn get_next_state(&self, board: &Vec<i8>, player: i8, action: u8) -> (state: (Vec<i8>, i8))
        requires
            self.inv(),
            self.is_board(board@),
            is_player(player as int),
            self.legal(board@, player as int, action as int),
        ensures
            state.0@ == self.next(board@, player as int, action as int),
            state.1 == -player,
    ;

    /// The mask of the legal actions of `player`: `1` at a legal action, `0` at any other. At
    /// least one action is legal.
    fn get_valid_moves(&self, board: &Vec<i8>, player: i8) -> (valids: Vec<u8>)
        requires
            self.inv(),
            self.is_board(board@),
            is_player(player as int),
        ensures
            valids.len() == self.action_count(),
            exists|action: int| 0 <= action < valids.len() && #[trigger] valids@[action] == 1u8,
            forall|action: int|
                0 <= action < valids.len() ==> #[trigger] valids@[action] == (if self.legal(
                    board@,
                    player as int,
                    action,
                ) {
                    1u8
                } else {
                    0u8
                }),
    ;

    /// How the game stands for `player`: `0` while it goes on. The value can be negated.
    fn get_game_ended(&self, board: &Vec<i8>, player: i8) -> (ended: i8)
        requires
            self.inv(),
            self.is_board(board@),
            is_player(player as int),
        ensures
            ended == self.outcome(board@, player as int),
            ended > -128,
    ;

    /// `board` as `player` sees it.
    fn get_canonical_form(&self, board: &Vec<i8>, player: i8) -> (canon: Vec<i8>)
        requires
            self.inv(),
            self.is_board(board@),
            is_player(player as int),
        ensures
            canon@ == self.canonical(board@, player as int),
    ;

    /// `board` and `pi` in every orientation that the symmetries of the board give them.
    fn get_symmetries<T: Copy>(&self, board: &Vec<i8>, pi: &Vec<T>) -> (forms: Vec<
        (Vec<i8>, Vec<T>),
    >)
        requires
            self.inv(),
            self.is_board(board@),
            pi.len() == self.action_count(),
        ensures
            forms.len() == self.symmetry_tables().len(),
            forall|i: int|
                0 <= i < forms.len() ==> (#[trigger] forms@[i]).0@ == permuted(
                    board@,
                    self.symmetry_tables()[i],
                ) && forms@[i].1@ == permuted(pi@, self.symmetry_tables()[i]),
    ;

    /// The key under which `board` is remembered.
    fn string_representation(&self, board: &Vec<i8>) -> (key: String)
        requires
            self.inv(),
            self.is_board(board@),
        ensures
            key@ == self.key(board@),
    ;
}

} // verus!

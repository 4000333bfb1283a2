//! Games between two players, for comparing them.
use vstd::prelude::*;
use crate::game::Game;
use crate::rules::is_player;
use crate::vecs::copied;

verus! {

/// Someone who plays: asked with the position as the one to move sees it, a player answers with
/// an action. Nothing is taken for granted of the answer.
pub trait Player {
    fn decide(&mut self, canonical_board: &Vec<i8>) -> (action: usize);
}

/// Someone who watches a game that is played in verbose mode. What is handed over is a position
/// of the game and the number of the rows of its board.
pub trait Spectator {
    /// Before the turn number `turn`, with `player` to move on `board`, a board of `side` rows.
    fn turn(&mut self, turn: usize, player: i8, board: &Vec<i8>, side: usize);

    /// After the last turn: `result` is how the game stands for player `1`.
    fn game_over(&mut self, turn: usize, result: i8, board: &Vec<i8>, side: usize);
}

/// A player has answered with an action that is not legal.
#[derive(Clone, Copy, Debug, PartialEq, Eq)]
pub struct IllegalAction {
    /// Who was to move.
    pub player: i8,
    /// What the player answered.
    pub action: usize,
}

/// The position that a game has reached, and who is to move there, after `actions` have been
/// taken in turn from the starting position, with `start` moving first.
pub open spec fn played<G: Game>(game: G, start: int, actions: Seq<int>) -> (Seq<i8>, int)
    decreases actions.len(),
{
    if actions.len() == 0 {
        (game.start(), start)
    } else {
        let (board, player) = played(game, start, actions.drop_last());
        (game.next(board, player, actions.last()), -player)
    }
}

/// `actions` are the actions of a game that `start` begins: each of them was taken while the
/// game went on, and was legal for the player who took it.
pub open spec fn in_play<G: Game>(game: G, start: int, actions: Seq<int>) -> bool
    decreases actions.len(),
{
    actions.len() == 0 || {
        let (board, player) = played(game, start, actions.drop_last());
        &&& in_play(game, start, actions.drop_last())
        &&& game.outcome(board, player) == 0
        &&& game.legal(board, player, actions.last())
    }
}

/// `result` is the result of a game that `start` begins: the game has ended after some actions,
/// and `result` says how it stands for player `1`.
pub open spec fn ends_with<G: Game>(game: G, start: int, result: i8) -> bool {
    exists|actions: Seq<int>|
        #![trigger played(game, start, actions)]
        in_play(game, start, actions) && {
            let (board, player) = played(game, start, actions);
            game.outcome(board, player) != 0 && result == player * game.outcome(board, player)
        }
}

/// A game that `start` begins has stopped at the answer `refused`: after some actions the game
/// went on, and the answer of the player to move was not legal.
pub open spec fn stops_at<G: Game>(game: G, start: int, refused: IllegalAction) -> bool {
    exists|actions: Seq<int>|
        #![trigger played(game, start, actions)]
        in_play(game, start, actions) && {
            let (board, player) = played(game, start, actions);
            &&& game.outcome(board, player) == 0
            &&& refused.player == player
            &&& !game.legal(board, player, refused.action as int)
        }
}

/// Where actions have been taken, the first of them was taken at the starting position while
/// the game went on.
proof fn lemma_in_play_from_start<G: Game>(game: G, start: int, actions: Seq<int>)
    requires
        in_play(game, start, actions),
        actions.len() > 0,
    ensures
        game.outcome(game.start(), start) == 0,
    decreases actions.len(),
{
    if actions.len() > 1 {
        lemma_in_play_from_start(game, start, actions.drop_last());
    } else {
        assert(actions.drop_last().len() == 0);
    }
}

/// How many of the games with the results `results` player one has won, how many player two,
/// and how many nobody: a result is `1` where player one has won, `-1` where player two has,
/// and anything else for a draw.
pub open spec fn score(results: Seq<i8>) -> (int, int, int)
    decreases results.len(),
{
    if results.len() == 0 {
        (0, 0, 0)
    } else {
        let (one, two, draws) = score(results.drop_last());
        if results.last() == 1 {
            (one + 1, two, draws)
        } else if results.last() == -1 {
            (one, two + 1, draws)
        } else {
            (one, two, draws + 1)
        }
    }
}

/// Every game is counted once, for one of the players or as a draw.
pub proof fn lemma_score(results: Seq<i8>)
    ensures
        score(results).0 >= 0,
        score(results).1 >= 0,
        score(results).2 >= 0,
        score(results).0 + score(results).1 + score(results).2 == results.len(),
    decreases results.len(),
{
    if results.len() > 0 {
        lemma_score(results.drop_last());
    }
}

/// Two players, the game that they play, and someone who watches.
pub struct Arena<'a, F: Player, F2: Player, G: Game, D: Spectator> {
    player1: F,
    player2: F2,
    game: &'a G,
    display: D,
}

impl<'a, F: Player, F2: Player, G: Game, D: Spectator> Arena<'a, F, F2, G, D> {
    /// The game is in order.
    pub closed spec fn wf(&self) -> bool {
        self.game.inv()
    }

    /// The game that is played.
    pub closed spec fn game(&self) -> &G {
        self.game
    }

    /// An arena in which `player1` plays as `1` and `player2` as `-1`.
    pub fn new(player1: F, player2: F2, game: &'a G, display: D) -> (arena: Self)
        requires
            game.inv(),
        ensures
            arena.wf(),
            arena.game() == game,
    {
        Arena { player1, player2, game, display }
    }

    /// The number of the rows of the board, which the spectator is told.
    fn rows(&self, board: &Vec<i8>) -> (rows: usize)
        requires
            self.wf(),
            self.game().is_board(board@),
        ensures
            rows == self.game().board_size().0,
    {
        proof {
            self.game.lemma_board_size(board@);
        }
        self.game.get_board_size().0 as usize
    }

    /// What a player's answer leads to: the next position and the one who moves then, where the
    /// answer is a legal action; the refusal, where it is not. The answer is held against the
    /// legal actions of the position as the player sees it.
    pub fn advance(&self, board: &Vec<i8>, player: i8, action: usize) -> (r: Result<
        (Vec<i8>, i8),
        IllegalAction,
    >)
        requires
            self.wf(),
            self.game().is_board(board@),
            is_player(player as int),
        ensures
            match r {
                Ok(state) => self.game().legal(board@, player as int, action as int) && state.0@
                    == self.game().next(board@, player as int, action as int) && state.1
                    == -player && self.game().is_board(state.0@) && (self.game().outcome(
                    board@,
                    player as int,
                ) == 0 ==> self.game().turns_left(state.0@, -player) < self.game().turns_left(
                    board@,
                    player as int,
                )),
                Err(e) => !self.game().legal(board@, player as int, action as int) && e == (
                IllegalAction { player, action }),
            },
    {
        proof {
            self.game.lemma_canonical(board@, player as int);
        }
        let canon = self.game.get_canonical_form(board, player);
        let valids = self.game.get_valid_moves(&canon, 1);
        let size = self.game.get_action_size();
        if action >= size {
            proof {
                if self.game.legal(board@, player as int, action as int) {
                    self.game.lemma_turn(board@, player as int, action as int);
                }
            }
            return Err(IllegalAction { player, action });
        }
        if valids[action] == 0 {
            return Err(IllegalAction { player, action });
        }
        proof {
            self.game.lemma_turn(board@, player as int, action as int);
        }
        Ok(self.game.get_next_state(board, player, action as u8))
    }

    /// One game, which `start_player` begins. The player whose turn it is is asked with the
    /// position as that player sees it. The game ends with the result, `1` where player one has
    /// won and `-1` where player two has, or with the first answer that is not a legal action.
    pub fn play_game(&mut self, start_player: i8, verbose: bool) -> (r: Result<
        i8,
        IllegalAction,
    >)
        requires
            old(self).wf(),
            is_player(start_player as int),
        ensures
            final(self).wf(),
            final(self).game() == old(self).game(),
            match r {
                Ok(result) => ends_with(*old(self).game(), start_player as int, result),
                Err(refused) => stops_at(*old(self).game(), start_player as int, refused),
            },
            old(self).game().outcome(old(self).game().start(), start_player as int) != 0 ==> r
                == Ok::<i8, IllegalAction>(
                (start_player * old(self).game().outcome(
                    old(self).game().start(),
                    start_player as int,
                )) as i8,
            ),
    {
        let mut cur_player = start_player;
        let mut board = copied(self.game.get_init_board());
        let mut it: usize = 0;
        let mut ended = self.game.get_game_ended(&board, cur_player);
        let ghost mut answers: Seq<int> = Seq::empty();
        while ended == 0
            invariant
                self.wf(),
                self.game() == old(self).game(),
                self.game().is_board(board@),
                is_player(cur_player as int),
                ended == self.game().outcome(board@, cur_player as int),
                ended > -128,
                in_play(*self.game(), start_player as int, answers),
                played(*self.game(), start_player as int, answers) == (board@, cur_player as int),
            decreases self.game().turns_left(board@, cur_player as int),
        {
            if it < usize::MAX {
                it += 1;
            }
            if verbose {
                let side = self.rows(&board);
                self.display.turn(it, cur_player, &board, side);
            }
            let canon = self.game.get_canonical_form(&board, cur_player);
            let action = if cur_player == 1 {
                self.player1.decide(&canon)
            } else {
                self.player2.decide(&canon)
            };
            proof {
                if self.game().legal(board@, cur_player as int, action as int) {
                    self.game().lemma_turn(board@, cur_player as int, action as int);
                }
            }
            match self.advance(&board, cur_player, action) {
                Ok(next_state) => {
                    proof {
                        assert(answers.push(action as int).drop_last() =~= answers);
                        answers = answers.push(action as int);
                    }
                    board = next_state.0;
                    cur_player = next_state.1;
                },
                Err(e) => {
                    proof {
                        if answers.len() > 0 {
                            lemma_in_play_from_start(*self.game(), start_player as int, answers);
                        }
                    }
                    return Err(e);
                },
            }
            ended = self.game.get_game_ended(&board, cur_player);
        }
        proof {
            if answers.len() > 0 {
                lemma_in_play_from_start(*self.game(), start_player as int, answers);
            }
        }
        if verbose {
            let result = self.game.get_game_ended(&board, 1);
            let side = self.rows(&board);
            self.display.game_over(it, result, &board, side);
        }
        assert(-127 <= cur_player * ended <= 127) by (nonlinear_arith)
            requires
                cur_player == 1 || cur_player == -1,
                -127 <= ended <= 127,
        ;
        Ok(cur_player * ended)
    }

    /// A series of games: `num / 2` games that player one begins, then `num / 2` games that
    /// player two begins. In all of them player one is `1`. The result is the numbers of games
    /// that player one has won, that player two has won, and that nobody has won; or the first
    /// answer that is not a legal action. Where no game is due, and where the game is over before
    /// the first move, no player is asked and the numbers are owed.
    pub fn play_games(&mut self, num: usize, verbose: bool) -> (r: Result<
        (i32, i32, i32),
        IllegalAction,
    >)
        requires
            old(self).wf(),
            num <= i32::MAX,
        ensures
            final(self).wf(),
            final(self).game() == old(self).game(),
            r matches Ok(won) ==> exists|first: Seq<i8>, second: Seq<i8>|
                #![trigger score(first + second)]
                {
                    &&& first.len() == num / 2
                    &&& second.len() == num / 2
                    &&& forall|i: int|
                        0 <= i < first.len() ==> ends_with(
                            *old(self).game(),
                            1,
                            #[trigger] first[i],
                        )
                    &&& forall|i: int|
                        0 <= i < second.len() ==> ends_with(
                            *old(self).game(),
                            -1,
                            #[trigger] second[i],
                        )
                    &&& score(first + second) == (won.0 as int, won.1 as int, won.2 as int)
                },
            r matches Err(refused) ==> stops_at(*old(self).game(), 1, refused) || stops_at(
                *old(self).game(),
                -1,
                refused,
            ),
            r matches Ok(won) ==> won.0 >= 0 && won.1 >= 0 && won.2 >= 0 && won.0 + won.1 + won.2
                == 2 * (num / 2),
            num / 2 == 0 ==> r is Ok,
            old(self).game().outcome(old(self).game().start(), 1) != 0 && old(
                self,
            ).game().outcome(old(self).game().start(), -1) != 0 ==> r is Ok,
    {
        let half = num / 2;
        let mut one_won: i32 = 0;
        let mut two_won: i32 = 0;
        let mut draws: i32 = 0;
        let ghost mut first: Seq<i8> = Seq::empty();
        let ghost mut second: Seq<i8> = Seq::empty();
        let mut played: usize = 0;
        while played < half
            invariant
                self.wf(),
                self.game() == old(self).game(),
                played <= half <= i32::MAX / 2,
                half == num / 2,
                first.len() == played,
                second.len() == 0,
                forall|i: int|
                    0 <= i < first.len() ==> ends_with(*old(self).game(), 1, #[trigger] first[i]),
                score(first + second) == (one_won as int, two_won as int, draws as int),
            decreases half - played,
        {
            proof {
                lemma_score(first + second);
            }
            let game_result = match self.play_game(1, verbose) {
                Ok(result) => result,
                Err(e) => {
                    return Err(e);
                },
            };
            proof {
                assert((first.push(game_result) + second).drop_last() =~= first + second);
                first = first.push(game_result);
            }
            if game_result == 1 {
                one_won += 1;
            } else if game_result == -1 {
                two_won += 1;
            } else {
                draws += 1;
            }
            played += 1;
        }
        let mut played: usize = 0;
        while played < half
            invariant
                self.wf(),
                self.game() == old(self).game(),
                played <= half <= i32::MAX / 2,
                half == num / 2,
                first.len() == half,
                second.len() == played,
                forall|i: int|
                    0 <= i < first.len() ==> ends_with(*old(self).game(), 1, #[trigger] first[i]),
                forall|i: int|
                    0 <= i < second.len() ==> ends_with(
                        *old(self).game(),
                        -1,
                        #[trigger] second[i],
                    ),
                score(first + second) == (one_won as int, two_won as int, draws as int),
            decreases half - played,
        {
            proof {
                lemma_score(first + second);
            }
            let game_result = match self.play_game(-1, verbose) {
                Ok(result) => result,
                Err(e) => {
                    return Err(e);
                },
            };
            proof {
                assert((first + second.push(game_result)).drop_last() =~= first + second);
                second = second.push(game_result);
            }
            if game_result == 1 {
                one_won += 1;
            } else if game_result == -1 {
                two_won += 1;
            } else {
                draws += 1;
            }
            played += 1;
        }
        proof {
            lemma_score(first + second);
        }
        Ok((one_won, two_won, draws))
    }
}

} // verus!

//! The book-keeping of self-play: episodes, their examples, and the history that training draws
//! from.
//!
//! An episode is one game that the search plays against itself. At each turn the caller hands in
//! the policy that the search has found for the position and the action that it has drawn from
//! it; the coach notes the position in all its symmetric forms, each with the policy in the same
//! form, and makes the move. When the game is over every note learns how the game ended for the
//! player who was to move in it. The examples of an iteration form one batch of the history,
//! which keeps the batches of the last iterations only.
use vstd::prelude::*;
use std::collections::VecDeque;
use crate::arena::IllegalAction;
use crate::board_math::permuted;
use crate::chance::shuffle;
use crate::game::Game;
use crate::rules::is_player;
use crate::vecs::copied;

verus! {

/// A training example as specifications see it: a position as the player to move saw it, the
/// policy that the search found there, and how the game ended for that player.
pub type ExampleView<T> = (Seq<i8>, Seq<T>, i8);

/// The view of one example.
pub open spec fn example_view<T>(e: (Vec<i8>, Vec<T>, i8)) -> ExampleView<T> {
    (e.0@, e.1@, e.2)
}

/// The view of a batch of examples.
pub open spec fn batch_view<T>(batch: Seq<(Vec<i8>, Vec<T>, i8)>) -> Seq<ExampleView<T>> {
    Seq::new(batch.len(), |i: int| example_view(batch[i]))
}

/// The view of a history of batches.
pub open spec fn history_view<T>(history: Seq<Vec<(Vec<i8>, Vec<T>, i8)>>) -> Seq<
    Seq<ExampleView<T>>,
> {
    Seq::new(history.len(), |i: int| batch_view(history[i]@))
}

/// The notes of one turn: the position and the policy in each symmetric form, marked with the
/// player to move.
pub open spec fn notes<G: Game, T>(game: G, canon: Seq<i8>, pi: Seq<T>, player: int) -> Seq<
    ExampleView<T>,
> {
    Seq::new(
        game.symmetry_tables().len(),
        |i: int|
            (
                permuted(canon, game.symmetry_tables()[i]),
                permuted(pi, game.symmetry_tables()[i]),
                player as i8,
            ),
    )
}

/// The examples that the notes of an episode become when the game has ended with `result` for
/// `player`: a note of `player` gets `result`, a note of the other player gets `-result`.
pub open spec fn labelled<T>(notes: Seq<ExampleView<T>>, result: int, player: int) -> Seq<
    ExampleView<T>,
> {
    Seq::new(
        notes.len(),
        |i: int|
            (
                notes[i].0,
                notes[i].1,
                (if notes[i].2 != player {
                    -result
                } else {
                    result
                }) as i8,
            ),
    )
}

/// The history without its oldest batch, where it has more batches than `window`.
pub open spec fn trimmed<E>(history: Seq<Seq<E>>, window: int) -> Seq<Seq<E>> {
    if history.len() > window {
        history.drop_first()
    } else {
        history
    }
}

/// The history after a batch has joined it and the oldest batch has left where the history is
/// longer than `window` then.
pub open spec fn windowed<E>(history: Seq<Seq<E>>, batch: Seq<E>, window: int) -> Seq<Seq<E>> {
    trimmed(history.push(batch), window)
}

/// The history does not outgrow its window: a history of no more than `window` batches is one
/// again after a batch has joined it. The batch that joins is the newest one; it stays unless the
/// window is empty.
pub proof fn lemma_windowed<E>(history: Seq<Seq<E>>, batch: Seq<E>, window: int)
    requires
        0 <= window,
        history.len() <= window,
    ensures
        windowed(history, batch, window).len() <= window,
        window > 0 ==> windowed(history, batch, window).len() > 0 && windowed(
            history,
            batch,
            window,
        ).last() == batch,
        history.len() < window ==> windowed(history, batch, window) == history.push(batch),
        history.len() == window > 0 ==> windowed(history, batch, window)
            == history.drop_first().push(batch),
{
    if history.len() == window && window > 0 {
        assert(history.push(batch).drop_first() =~= history.drop_first().push(batch));
    }
}

/// The batches of the first `upto` entries of `history`, one after the other.
pub open spec fn gathered<E>(history: Seq<Seq<E>>, upto: int) -> Seq<E>
    decreases upto,
{
    if upto <= 0 {
        Seq::empty()
    } else {
        gathered(history, upto - 1) + history[upto - 1]
    }
}

/// `order` names each of the places `0` to `n - 1` once.
pub open spec fn is_order(order: Seq<usize>, n: int) -> bool {
    order.to_multiset() == Seq::new(n as nat, |i: int| i as usize).to_multiset()
}

/// The view of a batch that has got one example more.
proof fn lemma_batch_push<T>(batch: Seq<(Vec<i8>, Vec<T>, i8)>, e: (Vec<i8>, Vec<T>, i8))
    ensures
        batch_view(batch.push(e)) == batch_view(batch).push(example_view(e)),
{
    assert(batch_view(batch.push(e)) =~= batch_view(batch).push(example_view(e)));
}

/// Why a turn of an episode was not recorded.
#[derive(Clone, Copy, Debug, PartialEq, Eq)]
pub enum Refused {
    /// The policy is not a vector over the actions.
    Policy,
    /// The action is not legal.
    Action(IllegalAction),
}

/// The state of self-play.
#[verifier::reject_recursive_types(T)]
pub struct Coach<G: Game, T: Copy> {
    game: G,
    temp_threshold: i32,
    window: usize,
    skip_first_self_play: bool,
    training_examples_history: VecDeque<Vec<(Vec<i8>, Vec<T>, i8)>>,
    iteration_examples: Vec<(Vec<i8>, Vec<T>, i8)>,
    train_examples: Vec<(Vec<i8>, Vec<T>, i8)>,
    board: Vec<i8>,
    cur_player: i8,
    episode_step: i32,
}

impl<G: Game, T: Copy> Coach<G, T> {
    /// The game.
    pub closed spec fn game(&self) -> G {
        self.game
    }

    /// The number of the turn from which the temperature is `0`.
    pub closed spec fn temp_threshold(&self) -> i32 {
        self.temp_threshold
    }

    /// The number of batches that the history keeps.
    pub closed spec fn window(&self) -> usize {
        self.window
    }

    /// Whether the first iteration goes without self-play.
    pub closed spec fn skips_first(&self) -> bool {
        self.skip_first_self_play
    }

    /// The batches of the last iterations, oldest first.
    pub closed spec fn history(&self) -> Seq<Seq<ExampleView<T>>> {
        history_view(self.training_examples_history@)
    }

    /// The examples of the episodes of the running iteration that are over.
    pub closed spec fn iteration(&self) -> Seq<ExampleView<T>> {
        batch_view(self.iteration_examples@)
    }

    /// The notes of the running episode.
    pub closed spec fn episode(&self) -> Seq<ExampleView<T>> {
        batch_view(self.train_examples@)
    }

    /// The position of the running episode.
    pub closed spec fn board(&self) -> Seq<i8> {
        self.board@
    }

    /// The player to move in the running episode.
    pub closed spec fn player(&self) -> int {
        self.cur_player as int
    }

    /// The number of turns of the running episode that have begun.
    pub closed spec fn step(&self) -> i32 {
        self.episode_step
    }

    /// What no turn changes: the game, the threshold of the temperature, the window of the
    /// history, and whether the first iteration goes without self-play.
    pub open spec fn settings(&self) -> (G, i32, usize, bool) {
        (self.game(), self.temp_threshold(), self.window(), self.skips_first())
    }

    /// The coach is in order: the game is, and the episode is at a position of the game with one
    /// of the players to move.
    pub closed spec fn wf(&self) -> bool {
        &&& self.game.inv()
        &&& self.game.is_board(self.board@)
        &&& is_player(self.cur_player as int)
    }

    /// A coach for `game` with an empty history, at the start of an episode. The temperature is
    /// `1` in the turns before turn number `temp_threshold` and `0` from then on; the history
    /// keeps `window` batches.
    pub fn new(game: G, temp_threshold: i32, window: usize) -> (coach: Self)
        requires
            game.inv(),
        ensures
            coach.wf(),
            coach.game() == game,
            coach.temp_threshold() == temp_threshold,
            coach.window() == window,
            !coach.skips_first(),
            coach.history() == Seq::<Seq<ExampleView<T>>>::empty(),
            coach.iteration() == Seq::<ExampleView<T>>::empty(),
            coach.episode() == Seq::<ExampleView<T>>::empty(),
            coach.board() == game.start(),
            coach.player() == 1,
            coach.step() == 0,
    {
        let board = copied(game.get_init_board());
        let coach = Coach {
            game,
            temp_threshold,
            window,
            skip_first_self_play: false,
            training_examples_history: VecDeque::new(),
            iteration_examples: Vec::new(),
            train_examples: Vec::new(),
            board,
            cur_player: 1,
            episode_step: 0,
        };
        assert(coach.history() =~= Seq::<Seq<ExampleView<T>>>::empty());
        assert(coach.iteration() =~= Seq::<ExampleView<T>>::empty());
        assert(coach.episode() =~= Seq::<ExampleView<T>>::empty());
        coach
    }

    /// Starts an episode: the starting position, player `1` to move, no notes.
    pub fn begin_episode(&mut self)
        requires
            old(self).wf(),
        ensures
            final(self).wf(),
            final(self).settings() == old(self).settings(),
            final(self).history() == old(self).history(),
            final(self).iteration() == old(self).iteration(),
            final(self).episode() == Seq::<ExampleView<T>>::empty(),
            final(self).board() == old(self).game().start(),
            final(self).player() == 1,
            final(self).step() == 0,
    {
        self.train_examples = Vec::new();
        self.board = copied(self.game.get_init_board());
        self.cur_player = 1;
        self.episode_step = 0;
        assert(self.episode() =~= Seq::<ExampleView<T>>::empty());
    }

    /// Begins a turn of the episode. The answer is what the search is asked: the position as
    /// the player to move sees it, and the temperature, `1` while the number of the turn is
    /// below the threshold and `0` from then on.
    pub fn turn(&mut self) -> (asked: (Vec<i8>, u8))
        requires
            old(self).wf(),
        ensures
            final(self).wf(),
            final(self).settings() == old(self).settings(),
            final(self).history() == old(self).history(),
            final(self).iteration() == old(self).iteration(),
            final(self).episode() == old(self).episode(),
            final(self).board() == old(self).board(),
            final(self).player() == old(self).player(),
            final(self).step() == if old(self).step() < i32::MAX {
                (old(self).step() + 1) as i32
            } else {
                old(self).step()
            },
            asked.0@ == old(self).game().canonical(old(self).board(), old(self).player()),
            asked.1 == if final(self).step() < old(self).temp_threshold() {
                1u8
            } else {
                0u8
            },
    {
        if self.episode_step < i32::MAX {
            self.episode_step += 1;
        }
        let canonical_board = self.game.get_canonical_form(&self.board, self.cur_player);
        let temp: u8 = if self.episode_step < self.temp_threshold {
            1
        } else {
            0
        };
        (canonical_board, temp)
    }

    /// Ends a turn of the episode with what the search has answered: `pi`, the policy for the
    /// position, and `action`, the action drawn from it. The position is noted in each symmetric
    /// form, with `pi` in the same form, and `action` is taken. Where that ends the game, the
    /// notes of the episode become examples, which join those of the iteration, and the answer
    /// is `true`. A policy that is not a vector over the actions and an action that is not legal
    /// are refused, and nothing changes. While the game goes on, each turn brings its end
    /// nearer: an episode does not go on for ever.
    pub fn record(&mut self, pi: &Vec<T>, action: usize) -> (r: Result<bool, Refused>)
        requires
            old(self).wf(),
        ensures
            final(self).wf(),
            final(self).settings() == old(self).settings(),
            final(self).history() == old(self).history(),
            final(self).step() == old(self).step(),
            match r {
                Ok(over) => {
                    let game = old(self).game();
                    let (board, player) = (old(self).board(), old(self).player());
                    let noted = old(self).episode() + notes(
                        game,
                        game.canonical(board, player),
                        pi@,
                        player,
                    );
                    let result = game.outcome(game.next(board, player, action as int), -player);
                    &&& pi.len() == game.action_count()
                    &&& game.legal(board, player, action as int)
                    &&& final(self).board() == game.next(board, player, action as int)
                    &&& final(self).player() == -player
                    &&& game.outcome(board, player) == 0 ==> game.turns_left(
                        final(self).board(),
                        -player,
                    ) < game.turns_left(board, player)
                    &&& over == (result != 0)
                    &&& final(self).episode() == if over {
                        Seq::<ExampleView<T>>::empty()
                    } else {
                        noted
                    }
                    &&& final(self).iteration() == if over {
                        old(self).iteration() + labelled(noted, result, -player)
                    } else {
                        old(self).iteration()
                    }
                },
                Err(refused) => {
                    &&& refused == if pi.len() != old(self).game().action_count() {
                        Refused::Policy
                    } else {
                        Refused::Action(
                            IllegalAction { player: old(self).player() as i8, action },
                        )
                    }
                    &&& pi.len() == old(self).game().action_count() ==> !old(self).game().legal(
                        old(self).board(),
                        old(self).player(),
                        action as int,
                    )
                    &&& final(self).board() == old(self).board()
                    &&& final(self).player() == old(self).player()
                    &&& final(self).episode() == old(self).episode()
                    &&& final(self).iteration() == old(self).iteration()
                },
            },
    {
        let ghost game = self.game;
        let ghost (board, player) = (self.board@, self.cur_player as int);
        let size = self.game.get_action_size();
        if pi.len() != size {
            return Err(Refused::Policy);
        }
        proof {
            self.game.lemma_canonical(board, player);
            if self.game.legal(board, player, action as int) {
                self.game.lemma_turn(board, player, action as int);
            }
        }
        let canonical_board = self.game.get_canonical_form(&self.board, self.cur_player);
        let valids = self.game.get_valid_moves(&canonical_board, 1);
        if action >= size || valids[action] == 0 {
            return Err(Refused::Action(IllegalAction { player: self.cur_player, action }));
        }
        let sym = self.game.get_symmetries(&canonical_board, pi);
        let ghost before = self.train_examples@;
        let mut i: usize = 0;
        while i < sym.len()
            invariant
                i <= sym.len(),
                sym.len() == game.symmetry_tables().len(),
                self.game == game,
                self.cur_player == player,
                self.board@ == board,
                self.settings() == old(self).settings(),
                self.history() == old(self).history(),
                self.iteration() == old(self).iteration(),
                self.step() == old(self).step(),
                forall|k: int|
                    0 <= k < sym.len() ==> (#[trigger] sym@[k]).0@ == permuted(
                        canonical_board@,
                        game.symmetry_tables()[k],
                    ) && sym@[k].1@ == permuted(pi@, game.symmetry_tables()[k]),
                batch_view(self.train_examples@) =~= batch_view(before) + notes(
                    game,
                    canonical_board@,
                    pi@,
                    player,
                ).take(i as int),
            decreases sym.len() - i,
        {
            let b = copied(&sym[i].0);
            let p = copied(&sym[i].1);
            proof {
                lemma_batch_push(self.train_examples@, (b, p, self.cur_player));
                let all = notes(game, canonical_board@, pi@, player);
                assert(all.take(i + 1) =~= all.take(i as int).push(all[i as int]));
                assert(sym@[i as int].0@ == permuted(canonical_board@, game.symmetry_tables()[i as int]));
            }
            self.train_examples.push((b, p, self.cur_player));
            i += 1;
        }
        let ghost noted = batch_view(self.train_examples@);
        assert(noted =~= old(self).episode() + notes(game, canonical_board@, pi@, player));
        let next_state = self.game.get_next_state(&self.board, self.cur_player, action as u8);
        self.board = next_state.0;
        self.cur_player = next_state.1;
        let r = self.game.get_game_ended(&self.board, self.cur_player);
        if r != 0 {
            let mut t: usize = 0;
            let ghost pending = self.iteration_examples@;
            while t < self.train_examples.len()
                invariant
                    t <= self.train_examples.len(),
                    self.game == game,
                    self.cur_player == -player,
                    is_player(player),
                    -128 < r,
                    self.board@ == game.next(board, player, action as int),
                    self.wf(),
                    self.settings() == old(self).settings(),
                    self.history() == old(self).history(),
                    self.step() == old(self).step(),
                    batch_view(self.train_examples@) == noted,
                    batch_view(self.iteration_examples@) =~= batch_view(pending) + labelled(
                        noted,
                        r as int,
                        -player,
                    ).take(t as int),
                decreases self.train_examples.len() - t,
            {
                let tag = self.train_examples[t].2;
                let v: i8 = if tag != self.cur_player {
                    -r
                } else {
                    r
                };
                let b = copied(&self.train_examples[t].0);
                let p = copied(&self.train_examples[t].1);
                proof {
                    assert(example_view(self.train_examples@[t as int]) == noted[t as int]);
                    lemma_batch_push(self.iteration_examples@, (b, p, v));
                    let all = labelled(noted, r as int, -player);
                    assert(all.take(t + 1) =~= all.take(t as int).push(all[t as int]));
                }
                self.iteration_examples.push((b, p, v));
                t += 1;
            }
            self.train_examples = Vec::new();
            assert(self.episode() =~= Seq::<ExampleView<T>>::empty());
            assert(self.iteration() =~= old(self).iteration() + labelled(noted, r as int, -player));
            return Ok(true);
        }
        Ok(false)
    }

    /// Whether the iteration number `iteration` begins with self-play: each one does, but for
    /// the first where that is to go without.
    pub fn plays_in(&self, iteration: i32) -> (plays: bool)
        ensures
            plays == (!self.skips_first() || iteration > 1),
    {
        !self.skip_first_self_play || iteration > 1
    }

    /// Says whether the first iteration goes without self-play, as it does when the history has
    /// been loaded.
    pub fn set_skip_first_self_play(&mut self, skip: bool)
        requires
            old(self).wf(),
        ensures
            final(self).wf(),
            final(self).settings() == (
                old(self).game(),
                old(self).temp_threshold(),
                old(self).window(),
                skip,
            ),
            final(self).history() == old(self).history(),
            final(self).iteration() == old(self).iteration(),
            final(self).episode() == old(self).episode(),
            final(self).board() == old(self).board(),
            final(self).player() == old(self).player(),
            final(self).step() == old(self).step(),
    {
        self.skip_first_self_play = skip;
    }

    /// Ends the self-play of an iteration: its examples join the history as the newest batch.
    pub fn keep_iteration(&mut self)
        requires
            old(self).wf(),
        ensures
            final(self).wf(),
            final(self).settings() == old(self).settings(),
            final(self).history() == old(self).history().push(old(self).iteration()),
            final(self).iteration() == Seq::<ExampleView<T>>::empty(),
            final(self).episode() == old(self).episode(),
            final(self).board() == old(self).board(),
            final(self).player() == old(self).player(),
            final(self).step() == old(self).step(),
    {
        let mut batch: Vec<(Vec<i8>, Vec<T>, i8)> = Vec::new();
        batch.append(&mut self.iteration_examples);
        assert(batch@ =~= old(self).iteration_examples@);
        self.training_examples_history.push_back(batch);
        assert(self.history() =~= old(self).history().push(old(self).iteration()));
        assert(self.iteration() =~= Seq::<ExampleView<T>>::empty());
    }

    /// Lets the oldest batch go where the history has more batches than the window. The answer
    /// says whether one has gone.
    pub fn trim_history(&mut self) -> (gone: bool)
        requires
            old(self).wf(),
        ensures
            final(self).wf(),
            final(self).settings() == old(self).settings(),
            gone == (old(self).history().len() > old(self).window()),
            final(self).history() == trimmed(old(self).history(), old(self).window() as int),
            final(self).iteration() == old(self).iteration(),
            final(self).episode() == old(self).episode(),
            final(self).board() == old(self).board(),
            final(self).player() == old(self).player(),
            final(self).step() == old(self).step(),
    {
        if self.training_examples_history.len() > self.window {
            let _ = self.training_examples_history.pop_front();
            assert(self.history() =~= old(self).history().drop_first());
            return true;
        }
        false
    }

    /// Takes a history that was kept somewhere in place of its own.
    pub fn load_train_examples(&mut self, history: VecDeque<Vec<(Vec<i8>, Vec<T>, i8)>>)
        requires
            old(self).wf(),
        ensures
            final(self).wf(),
            final(self).settings() == old(self).settings(),
            final(self).history() == history_view(history@),
            final(self).iteration() == old(self).iteration(),
            final(self).episode() == old(self).episode(),
            final(self).board() == old(self).board(),
            final(self).player() == old(self).player(),
            final(self).step() == old(self).step(),
    {
        self.training_examples_history = history;
    }

    /// The history, to be kept somewhere.
    pub fn train_examples_history(&self) -> (history: &VecDeque<Vec<(Vec<i8>, Vec<T>, i8)>>)
        ensures
            history_view(history@) == self.history(),
    {
        &self.training_examples_history
    }

    /// The examples that training draws from: those of all batches of the history, in a random
    /// order.
    pub fn training_set(&self) -> (examples: Vec<(Vec<i8>, Vec<T>, i8)>)
        ensures
            exists|order: Seq<usize>|
                #![trigger is_order(order, examples.len() as int)]
                is_order(order, examples.len() as int) && examples.len() == gathered(
                    self.history(),
                    self.history().len() as int,
                ).len() && batch_view(examples@) == Seq::new(
                    examples.len() as nat,
                    |k: int| gathered(self.history(), self.history().len() as int)[order[k] as int],
                ),
    {
        let ghost all = gathered(self.history(), self.history().len() as int);
        let mut train_examples: Vec<(Vec<i8>, Vec<T>, i8)> = Vec::new();
        let mut i: usize = 0;
        while i < self.training_examples_history.len()
            invariant
                i <= self.training_examples_history.len(),
                batch_view(train_examples@) == gathered(self.history(), i as int),
            decreases self.training_examples_history.len() - i,
        {
            let ghost before = train_examples@;
            let mut j: usize = 0;
            while j < self.training_examples_history[i].len()
                invariant
                    i < self.training_examples_history.len(),
                    j <= self.training_examples_history@[i as int].len(),
                    batch_view(train_examples@) =~= batch_view(before) + batch_view(
                        self.training_examples_history@[i as int]@,
                    ).take(j as int),
                decreases self.training_examples_history@[i as int].len() - j,
            {
                let b = copied(&self.training_examples_history[i][j].0);
                let p = copied(&self.training_examples_history[i][j].1);
                let v = self.training_examples_history[i][j].2;
                proof {
                    lemma_batch_push(train_examples@, (b, p, v));
                    let all = batch_view(self.training_examples_history@[i as int]@);
                    assert(all.take(j + 1) =~= all.take(j as int).push(all[j as int]));
                }
                train_examples.push((b, p, v));
                j += 1;
            }
            assert(batch_view(train_examples@) =~= gathered(self.history(), i + 1)) by {
                assert(self.history()[i as int] == batch_view(
                    self.training_examples_history@[i as int]@,
                ));
                assert(batch_view(self.training_examples_history@[i as int]@).take(j as int)
                    =~= batch_view(self.training_examples_history@[i as int]@));
            }
            i += 1;
        }
        let len = train_examples.len();
        let mut order: Vec<usize> = Vec::new();
        let mut k: usize = 0;
        while k < len
            invariant
                k <= len,
                order@ =~= Seq::new(k as nat, |i: int| i as usize),
            decreases len - k,
        {
            order.push(k);
            k += 1;
        }
        let ghost range = order@;
        shuffle(&mut order);
        proof {
            broadcast use vstd::seq_lib::group_to_multiset_ensures;

            assert(order@.len() == len) by {
                assert(order@.to_multiset().len() == range.to_multiset().len());
            }
            assert forall|k: int| 0 <= k < len implies #[trigger] order@[k] < len by {
                assert(order@.contains(order@[k]));
                assert(order@.to_multiset().count(order@[k]) > 0);
                assert(range.contains(order@[k]));
            }
        }
        let mut shuffled: Vec<(Vec<i8>, Vec<T>, i8)> = Vec::new();
        let mut k: usize = 0;
        while k < len
            invariant
                k <= len,
                len == train_examples.len(),
                order@.len() == len,
                forall|k: int| 0 <= k < len ==> #[trigger] order@[k] < len,
                batch_view(shuffled@) =~= Seq::new(
                    k as nat,
                    |i: int| batch_view(train_examples@)[order@[i] as int],
                ),
            decreases len - k,
        {
            let from = order[k];
            let b = copied(&train_examples[from].0);
            let p = copied(&train_examples[from].1);
            let v = train_examples[from].2;
            proof {
                lemma_batch_push(shuffled@, (b, p, v));
            }
            shuffled.push((b, p, v));
            k += 1;
        }
        proof {
            assert(is_order(order@, shuffled.len() as int));
            assert(batch_view(shuffled@) == Seq::new(
                shuffled.len() as nat,
                |k: int| gathered(self.history(), self.history().len() as int)[order@[k] as int],
            ));
        }
        shuffled
    }
}

} // verus!

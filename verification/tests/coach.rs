use std::collections::VecDeque;

use alpha_zero::arena::IllegalAction;
use alpha_zero::coach::{Coach, Refused};
use alpha_zero::game::Game;
use alpha_zero::othello::Othello;

fn pi() -> Vec<f32> {
    (0..17).map(|i| i as f32).collect()
}

/// Plays an episode in which each player takes the first legal action; the answer is the
/// number of turns.
fn play_episode(coach: &mut Coach<Othello, f32>) -> usize {
    let game = Othello::new(4);
    coach.begin_episode();
    let mut turns = 0;
    loop {
        let (canonical_board, _temp) = coach.turn();
        let valids = game.get_valid_moves(&canonical_board, 1);
        let action = valids.iter().position(|v| *v == 1).unwrap();
        turns += 1;
        if coach.record(&pi(), action).unwrap() {
            return turns;
        }
    }
}

#[test]
fn turn_asks_with_the_canonical_board_and_the_temperature() {
    let mut coach: Coach<Othello, f32> = Coach::new(Othello::new(4), 3, 20);
    let (board, temp) = coach.turn();
    assert_eq!(board, vec![0, 0, 0, 0, 0, -1, 1, 0, 0, 1, -1, 0, 0, 0, 0, 0]);
    assert_eq!(temp, 1);
    assert_eq!(coach.record(&pi(), 1), Ok(false));
    let (board, temp) = coach.turn();
    // the board after the move, as player -1 sees it
    assert_eq!(board, vec![0, -1, 0, 0, 0, -1, -1, 0, 0, -1, 1, 0, 0, 0, 0, 0]);
    assert_eq!(temp, 1);
    assert_eq!(coach.record(&pi(), 0), Ok(false));
    let (_, temp) = coach.turn();
    assert_eq!(temp, 0);
    coach.begin_episode();
    let (board, temp) = coach.turn();
    assert_eq!(board, vec![0, 0, 0, 0, 0, -1, 1, 0, 0, 1, -1, 0, 0, 0, 0, 0]);
    assert_eq!(temp, 1);
}

#[test]
fn record_refuses_a_bad_policy_and_an_illegal_action() {
    let mut coach: Coach<Othello, f32> = Coach::new(Othello::new(4), 15, 20);
    coach.turn();
    assert_eq!(coach.record(&vec![0.0; 16], 1), Err(Refused::Policy));
    assert_eq!(coach.record(&vec![0.0; 16], 0), Err(Refused::Policy));
    assert_eq!(
        coach.record(&pi(), 0),
        Err(Refused::Action(IllegalAction { player: 1, action: 0 }))
    );
    assert_eq!(
        coach.record(&pi(), 17),
        Err(Refused::Action(IllegalAction { player: 1, action: 17 }))
    );
    // nothing has changed
    assert_eq!(coach.record(&pi(), 1), Ok(false));
    assert_eq!(
        coach.record(&pi(), 1),
        Err(Refused::Action(IllegalAction { player: -1, action: 1 }))
    );
    coach.keep_iteration();
    assert!(!coach.trim_history());
    assert_eq!(coach.train_examples_history().len(), 1);
    assert!(coach.training_set().is_empty());
}

#[test]
fn an_episode_gives_eight_examples_for_each_turn() {
    let mut coach: Coach<Othello, f32> = Coach::new(Othello::new(4), 15, 20);
    let turns = play_episode(&mut coach);
    coach.keep_iteration();
    assert_eq!(coach.train_examples_history().len(), 1);
    let batch = &coach.train_examples_history()[0];
    assert_eq!(batch.len(), 8 * turns);
    // the first note is the starting position with the policy as it was given
    assert_eq!(batch[0].0, vec![0, 0, 0, 0, 0, -1, 1, 0, 0, 1, -1, 0, 0, 0, 0, 0]);
    assert_eq!(batch[0].1, pi());
    // the second is the mirror image
    assert_eq!(batch[1].0, vec![0, 0, 0, 0, 0, 1, -1, 0, 0, -1, 1, 0, 0, 0, 0, 0]);
    assert_eq!(batch[1].1[0], 3.0);
    assert_eq!(batch[1].1[16], 16.0);
    // the notes of a turn end alike, those of the next turn the other way
    for turn in 0..turns {
        for form in 0..8 {
            assert_eq!(batch[8 * turn + form].2, batch[8 * turn].2);
            assert!(batch[8 * turn + form].2 == 1 || batch[8 * turn + form].2 == -1);
        }
    }
    let game = Othello::new(4);
    let mut board = game.get_init_board().clone();
    let mut player = 1i8;
    let mut movers = Vec::new();
    while game.get_game_ended(&board, player) == 0 {
        let canon = game.get_canonical_form(&board, player);
        let action = game.get_valid_moves(&canon, 1).iter().position(|v| *v == 1).unwrap();
        movers.push(player);
        let next = game.get_next_state(&board, player, action as u8);
        board = next.0;
        player = next.1;
    }
    assert_eq!(movers.len(), turns);
    let result = game.get_game_ended(&board, player);
    for (turn, mover) in movers.iter().enumerate() {
        let expected = if *mover == player { result } else { -result };
        assert_eq!(batch[8 * turn].2, expected);
    }
}

#[test]
fn the_history_keeps_the_batches_of_the_window() {
    let mut coach: Coach<Othello, f32> = Coach::new(Othello::new(4), 15, 2);
    assert!(coach.train_examples_history().is_empty());
    let first = play_episode(&mut coach);
    coach.keep_iteration();
    assert!(!coach.trim_history());
    assert_eq!(coach.train_examples_history().len(), 1);
    play_episode(&mut coach);
    play_episode(&mut coach);
    coach.keep_iteration();
    assert!(!coach.trim_history());
    assert_eq!(coach.train_examples_history().len(), 2);
    assert_eq!(coach.train_examples_history()[0].len(), 8 * first);
    assert_eq!(coach.train_examples_history()[1].len(), 16 * first);
    coach.keep_iteration();
    assert_eq!(coach.train_examples_history().len(), 3);
    assert!(coach.trim_history());
    assert!(!coach.trim_history());
    assert_eq!(coach.train_examples_history().len(), 2);
    assert_eq!(coach.train_examples_history()[0].len(), 16 * first);
    assert_eq!(coach.train_examples_history()[1].len(), 0);
    assert_eq!(coach.training_set().len(), 16 * first);
}

#[test]
fn a_history_that_is_too_long_loses_one_batch_at_a_time() {
    let mut coach: Coach<Othello, u32> = Coach::new(Othello::new(4), 15, 1);
    let mut history = VecDeque::new();
    for i in 0..4i8 {
        history.push_back(vec![(vec![i; 16], vec![0u32; 17], 1i8)]);
    }
    coach.load_train_examples(history);
    assert!(coach.trim_history());
    assert_eq!(coach.train_examples_history().len(), 3);
    assert_eq!(coach.train_examples_history()[0][0].0, vec![1i8; 16]);
    assert!(coach.trim_history());
    assert!(coach.trim_history());
    assert!(!coach.trim_history());
    assert_eq!(coach.train_examples_history().len(), 1);
    assert_eq!(coach.train_examples_history()[0][0].0, vec![3i8; 16]);
}

#[test]
fn a_window_of_nothing_keeps_nothing() {
    let mut coach: Coach<Othello, f32> = Coach::new(Othello::new(4), 15, 0);
    play_episode(&mut coach);
    coach.keep_iteration();
    assert!(coach.trim_history());
    assert!(coach.train_examples_history().is_empty());
    assert!(coach.training_set().is_empty());
}

#[test]
fn the_training_set_holds_each_example_of_the_history_once() {
    let mut coach: Coach<Othello, u32> = Coach::new(Othello::new(4), 15, 20);
    let mut history = VecDeque::new();
    let board = |i: i8| vec![i; 16];
    history.push_back(vec![(board(0), vec![0u32; 17], 1i8), (board(1), vec![1; 17], -1)]);
    history.push_back(vec![]);
    history.push_back(vec![
        (board(1), vec![1; 17], -1),
        (board(-1), vec![3; 17], 1),
        (board(0), vec![4; 17], 1),
    ]);
    coach.load_train_examples(history.clone());
    assert_eq!(coach.train_examples_history(), &history);
    let mut expected: Vec<_> = history.iter().flatten().cloned().collect();
    expected.sort();
    let mut orders = Vec::new();
    for _ in 0..50 {
        let set = coach.training_set();
        assert_eq!(set.len(), 5);
        if !orders.contains(&set) {
            orders.push(set.clone());
        }
        let mut set = set;
        set.sort();
        assert_eq!(set, expected);
    }
    // the order is left to chance
    assert!(orders.len() > 1);
}

#[test]
fn self_play_is_skipped_in_the_first_iteration_only() {
    let mut coach: Coach<Othello, f32> = Coach::new(Othello::new(4), 15, 20);
    assert!(coach.plays_in(1));
    assert!(coach.plays_in(2));
    coach.set_skip_first_self_play(true);
    assert!(!coach.plays_in(1));
    assert!(coach.plays_in(2));
    assert!(coach.plays_in(1000));
}

use alpha_zero::game::Game;
use alpha_zero::mcts::{best_actions, Probe, Weights, MCTS};
use alpha_zero::othello::Othello;

fn tree() -> MCTS<Othello, f32> {
    MCTS::new(Othello::new(4))
}

fn uniform() -> Vec<f32> {
    vec![0.25; 17]
}

#[test]
fn probe_finds_a_leaf_then_an_inner_position() {
    let mut tree = tree();
    assert!(tree.node().is_none());
    match tree.probe() {
        Probe::Leaf(valids) => {
            assert_eq!(valids, vec![0, 1, 0, 0, 1, 0, 0, 0, 0, 0, 0, 1, 0, 0, 1, 0, 0])
        }
        _ => panic!("the starting position is new"),
    }
    // still a leaf as long as it has no priors
    assert!(matches!(tree.probe(), Probe::Leaf(_)));
    let node = tree.node().unwrap();
    assert!(node.priors.is_none());
    assert_eq!(node.visits, 0);
    assert_eq!(node.action_visits, vec![0; 17]);
    assert!(node.values.iter().all(|v| v.is_none()));
    assert!(tree.expand(uniform()));
    assert!(matches!(tree.probe(), Probe::Inner));
    assert_eq!(tree.node().unwrap().priors, Some(uniform()));
}

#[test]
fn expand_is_done_once_and_with_a_vector_over_the_actions() {
    let mut tree = tree();
    // no node yet
    assert!(!tree.expand(uniform()));
    assert!(matches!(tree.probe(), Probe::Leaf(_)));
    assert!(!tree.expand(vec![0.5; 16]));
    assert!(!tree.expand(vec![]));
    assert!(tree.expand(uniform()));
    assert!(!tree.expand(vec![1.0; 17]));
    assert_eq!(tree.node().unwrap().priors, Some(uniform()));
}

#[test]
fn probe_finds_the_end_of_the_game() {
    let mut tree = tree();
    let board: Vec<i8> = vec![0, -1, -1, -1, -1, -1, 1, -1, 0, -1, -1, -1, -1, 0, -1, -1];
    tree.begin(&board);
    assert!(matches!(tree.probe(), Probe::Terminal(-1)));
    assert!(tree.node().is_none());
    assert!(!tree.expand(uniform()));
    assert!(!tree.follow(16));
    let board: Vec<i8> = board.iter().map(|c| -c).collect();
    tree.begin(&board);
    assert!(matches!(tree.probe(), Probe::Terminal(1)));
}

#[test]
fn follow_takes_a_legal_action_from_an_expanded_position() {
    let mut tree = tree();
    // not expanded
    assert!(!tree.follow(1));
    tree.probe();
    assert!(!tree.follow(1));
    tree.expand(uniform());
    // not legal
    assert!(!tree.follow(0));
    assert!(!tree.follow(16));
    assert!(!tree.follow(17));
    assert!(tree.pending().is_none());
    assert!(tree.follow(1));
    // the position after the move, as the next player sees it
    match tree.probe() {
        Probe::Leaf(valids) => {
            assert_eq!(valids, vec![1, 0, 1, 0, 0, 0, 0, 0, 1, 0, 0, 0, 0, 0, 0, 0, 0])
        }
        _ => panic!("the position is new"),
    }
    let frame = tree.pending().unwrap();
    assert_eq!(frame.action, 1);
    assert_eq!(frame.action_visits, 0);
    assert_eq!(frame.value, None);
    assert_eq!(frame.visits, 0);
}

#[test]
fn backup_counts_the_visit_and_keeps_the_value() {
    let mut tree = tree();
    let root = Othello::new(4).get_init_board().clone();
    assert!(!tree.backup(0.5));
    tree.probe();
    tree.expand(uniform());
    tree.follow(1);
    tree.probe();
    tree.expand(uniform());
    tree.follow(0);
    tree.probe();
    assert!(tree.backup(0.5));
    let frame = tree.pending().unwrap();
    assert_eq!(frame.action, 1);
    assert!(tree.backup(-0.5));
    assert!(tree.pending().is_none());
    assert!(!tree.backup(0.25));
    let mut expected = vec![0usize; 17];
    expected[1] = 1;
    assert_eq!(tree.counts(&root), expected);
    // a second simulation through the same action
    tree.begin(&root);
    assert!(matches!(tree.probe(), Probe::Inner));
    let node = tree.node().unwrap();
    assert_eq!(node.visits, 1);
    assert_eq!(node.action_visits[1], 1);
    assert_eq!(node.values[1], Some(-0.5));
    assert_eq!(node.values[4], None);
    tree.follow(1);
    assert!(matches!(tree.probe(), Probe::Inner));
    let node = tree.node().unwrap();
    assert_eq!(node.visits, 1);
    assert_eq!(node.action_visits[0], 1);
    assert_eq!(node.values[0], Some(0.5));
    let frame = tree.pending().unwrap();
    assert_eq!((frame.action, frame.action_visits, frame.value, frame.visits), (1, 1, Some(-0.5), 1));
    assert!(tree.backup(0.0));
    expected[1] = 2;
    assert_eq!(tree.counts(&root), expected);
    tree.begin(&root);
    assert_eq!(tree.node().unwrap().visits, 2);
    assert_eq!(tree.node().unwrap().values[1], Some(0.0));
}

#[test]
fn counts_are_zero_for_a_position_that_was_never_reached() {
    let tree = tree();
    let board: Vec<i8> = vec![0, 1, 0, 0, 0, 1, 1, 0, 0, 1, -1, 0, 0, 0, 0, 0];
    assert_eq!(tree.counts(&board), vec![0usize; 17]);
    match tree.get_action_prob(&board, 1) {
        Weights::Counts(counts) => assert_eq!(counts, vec![0usize; 17]),
        Weights::Pick(_) => panic!("counts are due at temperature 1"),
    }
    match tree.get_action_prob(&board, 0) {
        Weights::Pick(a) => assert!(a < 17),
        Weights::Counts(_) => panic!("a pick is due at temperature 0"),
    }
}

#[test]
fn get_action_prob_picks_among_the_actions_taken_most_often() {
    let mut tree = tree();
    let root = Othello::new(4).get_init_board().clone();
    for action in [1usize, 4, 4, 11, 11] {
        tree.begin(&root);
        if let Probe::Leaf(_) = tree.probe() {
            tree.expand(uniform());
        }
        assert!(tree.follow(action));
        assert!(tree.backup(0.0));
    }
    let mut expected = vec![0usize; 17];
    expected[1] = 1;
    expected[4] = 2;
    expected[11] = 2;
    assert_eq!(tree.counts(&root), expected);
    let mut seen = [false; 17];
    for _ in 0..200 {
        match tree.get_action_prob(&root, 0) {
            Weights::Pick(a) => {
                assert!(a == 4 || a == 11);
                seen[a] = true;
            }
            Weights::Counts(_) => panic!("a pick is due at temperature 0"),
        }
    }
    assert!(seen[4] && seen[11]);
    for temp in [1u8, 2, 255] {
        match tree.get_action_prob(&root, temp) {
            Weights::Counts(counts) => assert_eq!(counts, expected),
            Weights::Pick(_) => panic!("counts are due at any other temperature"),
        }
    }
}

#[test]
fn best_actions_are_the_maximizers_in_ascending_order() {
    assert_eq!(best_actions(&vec![0, 3, 1, 3, 2]), vec![1, 3]);
    assert_eq!(best_actions(&vec![0, 0, 0]), vec![0, 1, 2]);
    assert_eq!(best_actions(&vec![7]), vec![0]);
    assert_eq!(best_actions(&vec![]), Vec::<usize>::new());
    assert_eq!(best_actions(&vec![1, 2, 3]), vec![2]);
}

/// The policy that the weights stand for: all the weight on the pick, or the counts raised to
/// the power 1 / temp and divided by their sum.
fn policy(weights: Weights, len: usize, temp: u8) -> Vec<f32> {
    match weights {
        Weights::Pick(a) => {
            let mut probs = vec![0.; len];
            probs[a] = 1.;
            probs
        }
        Weights::Counts(counts) => {
            let shaped: Vec<f32> = counts.iter().map(|n| (*n as f32).powf(1. / temp as f32)).collect();
            let sum: f32 = shaped.iter().sum();
            shaped.iter().map(|x| x / sum).collect()
        }
    }
}

#[test]
fn the_weights_of_a_search_give_a_policy_that_sums_to_one() {
    let mut tree = tree();
    let root = Othello::new(4).get_init_board().clone();
    for action in [1usize, 4, 4, 11, 11, 14] {
        tree.begin(&root);
        if let Probe::Leaf(_) = tree.probe() {
            tree.expand(uniform());
        }
        assert!(tree.follow(action));
        assert!(tree.backup(0.0));
    }
    for temp in [0u8, 1, 2] {
        let pi = policy(tree.get_action_prob(&root, temp), 17, temp);
        assert_eq!(pi.len(), 17);
        assert!((pi.iter().sum::<f32>() - 1.0).abs() < 1e-6);
        assert!(pi.iter().all(|p| *p >= 0.0));
        // nothing for an action that is not legal
        assert_eq!(pi[0], 0.0);
        assert_eq!(pi[16], 0.0);
    }
    let pi = policy(tree.get_action_prob(&root, 1), 17, 1);
    assert_eq!(pi[1], 1.0 / 6.0);
    assert_eq!(pi[4], 2.0 / 6.0);
}

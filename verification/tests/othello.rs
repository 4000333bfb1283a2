use alpha_zero::game::Game;
use alpha_zero::othello::Othello;

#[test]
fn get_init_board_4() {
    let othello = Othello::new(4);
    let init_board = othello.get_init_board();
    let init_board_str = format!("{:?}", init_board);
    let expected_board = "[0, 0, 0, 0, 0, -1, 1, 0, 0, 1, -1, 0, 0, 0, 0, 0]";
    assert_eq!(init_board_str, expected_board);
}

#[test]
fn get_init_board_6() {
    let othello = Othello::new(6);
    let init_board = othello.get_init_board();
    let init_board_str = format!("{:?}", init_board);
    let expected_board = "[0, 0, 0, 0, 0, 0, 0, 0, 0, 0, 0, 0, 0, 0, -1, 1, 0, 0, 0, 0, 1, -1, 0, 0, 0, 0, 0, 0, 0, 0, 0, 0, 0, 0, 0, 0]";
    assert_eq!(init_board_str, expected_board);
}

#[test]
fn get_board_size_4() {
    let othello = Othello::new(4);
    let size = othello.get_board_size();
    assert_eq!(size, (4, 4));
}

#[test]
fn get_board_size_6() {
    let othello = Othello::new(6);
    let size = othello.get_board_size();
    assert_eq!(size, (6, 6));
}

#[test]
fn get_action_size_4() {
    let othello = Othello::new(4);
    let action_size = othello.get_action_size();
    assert_eq!(action_size, 17);
}

#[test]
fn get_action_size_6() {
    let othello = Othello::new(6);
    let action_size = othello.get_action_size();
    assert_eq!(action_size, 37);
}

#[test]
fn get_next_state_4() {
    let othello = Othello::new(4);
    let board = othello.get_init_board();
    let next_state = othello.get_next_state(board, 1, 1);
    let next_state_str = format!("{:?}", next_state);
    let expected_next_state = "([0, 1, 0, 0, 0, 1, 1, 0, 0, 1, -1, 0, 0, 0, 0, 0], -1)";
    assert_eq!(next_state_str, expected_next_state.to_string());

    let board = &next_state.0;
    let next_state = othello.get_next_state(board, -1, 0);
    let next_state_str = format!("{:?}", next_state);
    let expected_next_state = "([-1, 1, 0, 0, 0, -1, 1, 0, 0, 1, -1, 0, 0, 0, 0, 0], 1)";
    assert_eq!(next_state_str, expected_next_state.to_string());
}

#[test]
fn get_valid_moves_4() {
    let othello = Othello::new(4);
    let board = othello.get_init_board();
    let valid_moves = othello.get_valid_moves(board, 1);
    let valid_moves_str = format!("{:?}", valid_moves);
    let valid_moves_expected = "[0, 1, 0, 0, 1, 0, 0, 0, 0, 0, 0, 1, 0, 0, 1, 0, 0]";
    assert_eq!(valid_moves_str, valid_moves_expected);
}

#[test]
fn get_game_ended_4() {
    let othello = Othello::new(4);
    let board = [0, -1, -1, -1, -1, -1, 1, -1, 0, -1, -1, -1, -1, 0, -1, -1].to_vec();
    let game_ended = othello.get_game_ended(&board, 1);
    assert_eq!(game_ended, -1);
}

#[test]
fn mask_probability_vector_4() {
    let pi = [
        0.1, 0.2, 0.3, 0.4, 0.5, 0.6, 0.7, 0.8, 0.9, 1.0, 0.11, 0.12, 0.13, 0.14, 0.15, 0.16, 0.17,
    ];
    let othello = Othello::new(4);
    let board = othello.get_init_board();
    let valid_moves = othello.get_valid_moves(board, 1);
    let mut pi = pi
        .iter()
        .zip(valid_moves.iter())
        .map(|(x, y)| x * *y as f32)
        .collect::<Vec<f32>>();
    println!("{:?}", pi);
    let sum_ps_s = pi.iter().sum::<f32>();
    println!("sum_ps_s: {:?}", sum_ps_s);
    for i in pi.iter_mut() {
        *i /= sum_ps_s;
    }
    println!("{:?}", pi);
    let sum_ps_s = pi.iter().sum::<f32>();
    println!("sum_ps_s: {:?}", sum_ps_s);
}

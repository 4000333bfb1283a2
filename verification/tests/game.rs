use alpha_zero::game::Game;
use alpha_zero::othello::Othello;

#[test]
fn initial_board_has_four_pieces_on_every_side() {
    for n in [2usize, 3, 4, 6, 8, 10, 15] {
        let othello = Othello::new(n);
        let board = othello.get_init_board();
        assert_eq!(board.len(), n * n);
        assert_eq!(board.iter().filter(|c| **c != 0).count(), 4);
        let h = n / 2;
        assert_eq!(board[(h - 1) * n + h], 1);
        assert_eq!(board[h * n + h - 1], 1);
        assert_eq!(board[(h - 1) * n + h - 1], -1);
        assert_eq!(board[h * n + h], -1);
        assert_eq!(othello.get_action_size(), n * n + 1);
        assert_eq!(othello.get_board_size(), (n as i8, n as i8));
    }
}

#[test]
fn the_board_size_is_the_side_twice() {
    for n in [2usize, 4, 6, 15] {
        let othello = Othello::new(n);
        let (rows, columns) = othello.get_board_size();
        assert_eq!((rows as usize, columns as usize), (n, n));
        assert_eq!(othello.get_init_board().len(), rows as usize * columns as usize);
    }
}

#[test]
fn valid_moves_is_a_mask_with_something_set() {
    let othello = Othello::new(6);
    let mut board = othello.get_init_board().clone();
    let mut player = 1i8;
    for _ in 0..200 {
        if othello.get_game_ended(&board, player) != 0 {
            break;
        }
        let valids = othello.get_valid_moves(&board, player);
        assert_eq!(valids.len(), 37);
        assert!(valids.iter().all(|v| *v == 0 || *v == 1));
        let set: u32 = valids.iter().map(|v| *v as u32).sum();
        assert!(set >= 1);
        if valids[36] == 1 {
            assert_eq!(set, 1);
        }
        let action = valids.iter().position(|v| *v == 1).unwrap();
        let next = othello.get_next_state(&board, player, action as u8);
        assert_eq!(next.1, -player);
        board = next.0;
        player = next.1;
    }
    assert_ne!(othello.get_game_ended(&board, player), 0);
}

#[test]
fn pass_is_the_one_valid_move_where_no_square_is() {
    let othello = Othello::new(4);
    // player 1 has no move, player -1 has one: (0, 3) behind the run of two
    let board: Vec<i8> = vec![-1, 1, 1, 0, 0, 0, 0, 0, 0, 0, 0, 0, 0, 0, 0, 0];
    assert_eq!(othello.get_game_ended(&board, 1), 0);
    assert_eq!(othello.get_game_ended(&board, -1), 0);
    let valids = othello.get_valid_moves(&board, 1);
    assert_eq!(valids, vec![0, 0, 0, 0, 0, 0, 0, 0, 0, 0, 0, 0, 0, 0, 0, 0, 1]);
    let valids = othello.get_valid_moves(&board, -1);
    assert_eq!(valids, vec![0, 0, 0, 1, 0, 0, 0, 0, 0, 0, 0, 0, 0, 0, 0, 0, 0]);
    let next = othello.get_next_state(&board, 1, 16);
    assert_eq!(next, (board.clone(), -1));
    let next = othello.get_next_state(&next.0, next.1, 3);
    assert_eq!(next, (vec![-1, -1, -1, -1, 0, 0, 0, 0, 0, 0, 0, 0, 0, 0, 0, 0], 1));
    assert_eq!(othello.get_game_ended(&next.0, next.1), -1);
    assert_eq!(othello.get_game_ended(&next.0, -1), 1);
}

#[test]
fn game_ended_goes_by_the_count_and_a_tie_is_lost() {
    let othello = Othello::new(2);
    let board = othello.get_init_board().clone();
    assert_eq!(othello.get_game_ended(&board, 1), -1);
    assert_eq!(othello.get_game_ended(&board, -1), -1);
    let board: Vec<i8> = vec![1, 1, 1, -1];
    assert_eq!(othello.get_game_ended(&board, 1), 1);
    assert_eq!(othello.get_game_ended(&board, -1), -1);
    let othello = Othello::new(4);
    assert_eq!(othello.get_game_ended(othello.get_init_board(), 1), 0);
    assert_eq!(othello.get_game_ended(othello.get_init_board(), -1), 0);
}

#[test]
fn canonical_form_multiplies_by_the_player() {
    let othello = Othello::new(4);
    let board: Vec<i8> = vec![0, 1, 0, 0, 0, 1, 1, 0, 0, 1, -1, 0, 0, 0, 0, 0];
    assert_eq!(othello.get_canonical_form(&board, 1), board);
    assert_eq!(
        othello.get_canonical_form(&board, -1),
        vec![0, -1, 0, 0, 0, -1, -1, 0, 0, -1, 1, 0, 0, 0, 0, 0]
    );
    let back = othello.get_canonical_form(&othello.get_canonical_form(&board, -1), -1);
    assert_eq!(back, board);
    // what a player may do does not depend on the player's colour
    assert_eq!(
        othello.get_valid_moves(&board, -1),
        othello.get_valid_moves(&othello.get_canonical_form(&board, -1), 1)
    );
}

#[test]
fn string_representation_is_one_letter_for_each_cell() {
    let othello = Othello::new(4);
    let board = othello.get_init_board();
    assert_eq!(othello.string_representation(board), "-----XO--OX-----");
    let other = othello.get_next_state(board, 1, 1).0;
    assert_eq!(othello.string_representation(&other), "-O---OO--OX-----");
    assert_ne!(othello.string_representation(board), othello.string_representation(&other));
}

#[test]
fn the_opening_on_the_board_of_side_8() {
    let othello = Othello::new(8);
    let board = othello.get_init_board();
    assert_eq!(othello.get_action_size(), 65);
    let valids = othello.get_valid_moves(board, 1);
    let set: Vec<usize> = (0..65).filter(|a| valids[*a] == 1).collect();
    assert_eq!(set, vec![19, 26, 37, 44]);
    let valids = othello.get_valid_moves(board, -1);
    let set: Vec<usize> = (0..65).filter(|a| valids[*a] == 1).collect();
    assert_eq!(set, vec![20, 29, 34, 43]);
    let (next, player) = othello.get_next_state(board, 1, 19);
    assert_eq!(player, -1);
    assert_eq!(next[2 * 8 + 3], 1);
    assert_eq!(next[3 * 8 + 3], 1);
    assert_eq!(next.iter().filter(|c| **c == 1).count(), 4);
    assert_eq!(next.iter().filter(|c| **c == -1).count(), 1);
    assert_eq!(othello.string_representation(&next).len(), 64);
}

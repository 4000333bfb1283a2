use alpha_zero::board::Board;

fn sorted(mut moves: Vec<(i8, i8)>) -> Vec<(i8, i8)> {
    moves.sort();
    moves
}

#[test]
fn new_board_has_the_four_centre_pieces() {
    let b = Board::new(4);
    assert_eq!(b.pieces, vec![0, 0, 0, 0, 0, -1, 1, 0, 0, 1, -1, 0, 0, 0, 0, 0]);
    let b = Board::new(8);
    assert_eq!(b.pieces.len(), 64);
    assert_eq!(b.pieces[3 * 8 + 4], 1);
    assert_eq!(b.pieces[4 * 8 + 3], 1);
    assert_eq!(b.pieces[3 * 8 + 3], -1);
    assert_eq!(b.pieces[4 * 8 + 4], -1);
    assert_eq!(b.pieces.iter().filter(|c| **c != 0).count(), 4);
}

#[test]
fn new_board_of_the_smallest_side_is_full() {
    let b = Board::new(2);
    assert_eq!(b.pieces, vec![-1, 1, 1, -1]);
    assert!(!b.has_legal_moves(1));
    assert!(!b.has_legal_moves(-1));
}

#[test]
fn count_diff_is_own_minus_opposing() {
    let mut b = Board::new(4);
    assert_eq!(b.count_diff(1), 0);
    assert_eq!(b.count_diff(-1), 0);
    b.execute_move((0, 1), 1);
    assert_eq!(b.count_diff(1), 3);
    assert_eq!(b.count_diff(-1), -3);
}

#[test]
fn increment_move_lists_the_ray_up_to_the_edge() {
    let b = Board::new(4);
    assert_eq!(b.increment_move((1, 1), (1, 1), 4), vec![(2, 2), (3, 3)]);
    assert_eq!(b.increment_move((0, 0), (0, 1), 4), vec![(0, 1), (0, 2), (0, 3)]);
    assert_eq!(b.increment_move((0, 0), (-1, 0), 4), vec![]);
    assert_eq!(b.increment_move((3, 3), (-1, -1), 4), vec![(2, 2), (1, 1), (0, 0)]);
    assert_eq!(b.increment_move((8, 0), (0, 1), 9).len(), 8);
    assert_eq!(b.increment_move((-1, 2), (1, 0), 3), vec![(0, 2), (1, 2), (2, 2)]);
}

#[test]
fn discover_move_finds_the_empty_square_behind_a_run() {
    let b = Board::new(4);
    assert_eq!(b.discover_move((1, 2), (0, -1)), Some((1, 0)));
    assert_eq!(b.discover_move((1, 2), (1, 0)), Some((3, 2)));
    // an empty square next to the piece
    assert_eq!(b.discover_move((1, 2), (0, 1)), None);
    // a piece of the same colour next to the piece
    assert_eq!(b.discover_move((1, 2), (1, -1)), None);
    // an empty origin
    assert_eq!(b.discover_move((0, 0), (1, 1)), None);
    // a run that ends at the edge
    let mut b = Board::new(4);
    b.pieces = vec![1, -1, -1, -1, 0, 0, 0, 0, 0, 0, 0, 0, 0, 0, 0, 0];
    assert_eq!(b.discover_move((0, 0), (0, 1)), None);
}

#[test]
fn get_moves_for_square_follows_the_order_of_the_directions() {
    let b = Board::new(4);
    assert_eq!(b.get_moves_for_square((1, 2)), vec![(3, 2), (1, 0)]);
    assert_eq!(b.get_moves_for_square((2, 1)), vec![(0, 1), (2, 3)]);
    assert_eq!(b.get_moves_for_square((1, 1)), vec![(3, 1), (1, 3)]);
    assert_eq!(b.get_moves_for_square((0, 0)), vec![]);
}

#[test]
fn get_legal_moves_lists_each_destination_once() {
    let b = Board::new(4);
    assert_eq!(sorted(b.get_legal_moves(1)), vec![(0, 1), (1, 0), (2, 3), (3, 2)]);
    assert_eq!(sorted(b.get_legal_moves(-1)), vec![(0, 2), (1, 3), (2, 0), (3, 1)]);
    // (0, 3) is reached from (0, 0) along the row and from (3, 3) along the column
    let mut b = Board::new(4);
    b.pieces = vec![1, -1, -1, 0, 0, 0, 0, -1, 0, 0, 0, -1, 0, 0, 0, 1];
    assert_eq!(b.get_legal_moves(1), vec![(0, 3)]);
}

#[test]
fn get_legal_moves_on_a_larger_board() {
    let b = Board::new(8);
    assert_eq!(sorted(b.get_legal_moves(1)), vec![(2, 3), (3, 2), (4, 5), (5, 4)]);
    let mut b = Board::new(127);
    assert_eq!(sorted(b.get_legal_moves(-1)), vec![(61, 63), (62, 64), (63, 61), (64, 62)]);
    b.execute_move((61, 63), -1);
    assert_eq!(b.count_diff(-1), 3);
    assert_eq!(sorted(b.get_legal_moves(1)), vec![(61, 62), (61, 64), (63, 64)]);
}

#[test]
fn has_legal_moves_agrees_with_get_legal_moves() {
    let b = Board::new(6);
    assert!(b.has_legal_moves(1));
    assert!(b.has_legal_moves(-1));
    let mut b = Board::new(4);
    b.pieces = vec![0, -1, -1, -1, -1, -1, 1, -1, 0, -1, -1, -1, -1, 0, -1, -1];
    assert!(!b.has_legal_moves(1));
    assert!(b.get_legal_moves(1).is_empty());
    assert!(!b.has_legal_moves(-1));
    assert!(b.get_legal_moves(-1).is_empty());
}

#[test]
fn get_flips_lists_the_origin_and_the_captured_run() {
    let b = Board::new(4);
    assert_eq!(b.get_flips((0, 1), (1, 0), 1), vec![(0, 1), (1, 1)]);
    // the ray meets an empty square first
    assert_eq!(b.get_flips((0, 1), (0, 1), 1), vec![]);
    // the ray leaves the board
    assert_eq!(b.get_flips((0, 1), (-1, 0), 1), vec![]);
    // a piece of the same colour next to the origin: nothing but the origin
    assert_eq!(b.get_flips((0, 2), (1, 0), 1), vec![(0, 2)]);
    // a run of two
    let mut b = Board::new(4);
    b.pieces = vec![0, -1, -1, 1, 0, 0, 0, 0, 0, 0, 0, 0, 0, 0, 0, 0];
    assert_eq!(b.get_flips((0, 0), (0, 1), 1), vec![(0, 0), (0, 1), (0, 2)]);
}

#[test]
fn execute_move_turns_every_captured_run() {
    let mut b = Board::new(4);
    b.execute_move((0, 1), 1);
    assert_eq!(b.pieces, vec![0, 1, 0, 0, 0, 1, 1, 0, 0, 1, -1, 0, 0, 0, 0, 0]);
    b.execute_move((0, 0), -1);
    assert_eq!(b.pieces, vec![-1, 1, 0, 0, 0, -1, 1, 0, 0, 1, -1, 0, 0, 0, 0, 0]);
    // two directions at once
    let mut b = Board::new(4);
    b.pieces = vec![0, -1, 1, 0, -1, 0, 0, 0, 1, 0, 0, 0, 0, 0, 0, 0];
    b.execute_move((0, 0), 1);
    assert_eq!(b.pieces, vec![1, 1, 1, 0, 1, 0, 0, 0, 1, 0, 0, 0, 0, 0, 0, 0]);
}

#[test]
fn execute_move_sets_the_square_where_nothing_is_captured() {
    let mut b = Board::new(4);
    b.execute_move((0, 0), 1);
    assert_eq!(b.pieces, vec![1, 0, 0, 0, 0, -1, 1, 0, 0, 1, -1, 0, 0, 0, 0, 0]);
}

#[test]
fn execute_move_twice_is_execute_move_once() {
    let mut b = Board::new(6);
    for m in sorted(b.get_legal_moves(1)) {
        let mut once = b.clone();
        once.execute_move(m, 1);
        let mut twice = once.clone();
        twice.execute_move(m, 1);
        assert_eq!(once.pieces, twice.pieces);
        assert!(!once.get_legal_moves(1).contains(&m));
        assert!(!once.get_legal_moves(-1).contains(&m));
    }
    b.execute_move((1, 2), 1);
    assert_eq!(b.count_diff(1), 3);
}

#[test]
fn directions_are_the_eight_neighbours() {
    assert_eq!(
        Board::DIRECTIONS,
        [(1, 1), (1, 0), (1, -1), (0, -1), (-1, -1), (-1, 0), (-1, 1), (0, 1)]
    );
}

use alpha_zero::board_math::BoardMath;
use alpha_zero::game::Game;
use alpha_zero::othello::Othello;

#[test]
fn tables_of_side_4() {
    let bm = BoardMath::new(4);
    assert_eq!(bm.mirror_1d, vec![3, 2, 1, 0, 7, 6, 5, 4, 11, 10, 9, 8, 15, 14, 13, 12]);
    assert_eq!(bm.l90_1d, vec![12, 8, 4, 0, 13, 9, 5, 1, 14, 10, 6, 2, 15, 11, 7, 3]);
    assert_eq!(bm.l90_1d_mirror, vec![0, 4, 8, 12, 1, 5, 9, 13, 2, 6, 10, 14, 3, 7, 11, 15]);
    assert_eq!(bm.r90_1d, vec![3, 7, 11, 15, 2, 6, 10, 14, 1, 5, 9, 13, 0, 4, 8, 12]);
    assert_eq!(bm.r90_1d_mirror, vec![15, 11, 7, 3, 14, 10, 6, 2, 13, 9, 5, 1, 12, 8, 4, 0]);
    assert_eq!(bm.l180_1d, vec![15, 14, 13, 12, 11, 10, 9, 8, 7, 6, 5, 4, 3, 2, 1, 0]);
    assert_eq!(bm.l180_1d_mirror, vec![12, 13, 14, 15, 8, 9, 10, 11, 4, 5, 6, 7, 0, 1, 2, 3]);
}

#[test]
fn tables_of_side_1() {
    let bm = BoardMath::new(1);
    assert_eq!(bm.mirror_1d, vec![0]);
    assert_eq!(bm.l90_1d, vec![0]);
    assert_eq!(bm.l180_1d_mirror, vec![0]);
}

#[test]
fn coordinates_and_transpose() {
    let coords = BoardMath::coordinates(3);
    assert_eq!(
        coords,
        vec![
            vec![(0, 0), (0, 1), (0, 2)],
            vec![(1, 0), (1, 1), (1, 2)],
            vec![(2, 0), (2, 1), (2, 2)]
        ]
    );
    let t = BoardMath::transpose2(&coords);
    assert_eq!(
        t,
        vec![
            vec![(0, 0), (1, 0), (2, 0)],
            vec![(0, 1), (1, 1), (2, 1)],
            vec![(0, 2), (1, 2), (2, 2)]
        ]
    );
    let wide = vec![vec![1, 2, 3], vec![4, 5, 6]];
    assert_eq!(BoardMath::transpose2(&wide), vec![vec![1, 4], vec![2, 5], vec![3, 6]]);
}

#[test]
fn apply_2d_takes_each_cell_from_its_source() {
    let bm = BoardMath::new(2);
    let board: Vec<i8> = vec![1, 2, 3, 4];
    assert_eq!(BoardMath::apply_2d(&board, &bm.mirror_1d), vec![2, 1, 4, 3]);
    assert_eq!(BoardMath::apply_2d(&board, &bm.l90_1d), vec![3, 1, 4, 2]);
    assert_eq!(BoardMath::apply_2d(&board, &bm.l90_1d_mirror), vec![1, 3, 2, 4]);
    assert_eq!(BoardMath::apply_2d(&board, &bm.r90_1d), vec![2, 4, 1, 3]);
    assert_eq!(BoardMath::apply_2d(&board, &bm.r90_1d_mirror), vec![4, 2, 3, 1]);
    assert_eq!(BoardMath::apply_2d(&board, &bm.l180_1d), vec![4, 3, 2, 1]);
    assert_eq!(BoardMath::apply_2d(&board, &bm.l180_1d_mirror), vec![3, 4, 1, 2]);
}

#[test]
fn apply_1d_leaves_the_pass_entry_in_place() {
    let bm = BoardMath::new(2);
    let pi: Vec<f32> = vec![0.1, 0.2, 0.3, 0.4, 0.5];
    assert_eq!(BoardMath::apply_1d(&pi, &bm.mirror_1d), vec![0.2, 0.1, 0.4, 0.3, 0.5]);
    assert_eq!(BoardMath::apply_1d(&pi, &bm.l180_1d), vec![0.4, 0.3, 0.2, 0.1, 0.5]);
}

#[test]
fn a_symmetry_and_its_inverse_give_back_the_board() {
    let bm = BoardMath::new(4);
    let board: Vec<i8> = (0..16).collect();
    let pairs = [
        (&bm.mirror_1d, &bm.mirror_1d),
        (&bm.l90_1d, &bm.r90_1d),
        (&bm.r90_1d, &bm.l90_1d),
        (&bm.l90_1d_mirror, &bm.l90_1d_mirror),
        (&bm.r90_1d_mirror, &bm.r90_1d_mirror),
        (&bm.l180_1d, &bm.l180_1d),
        (&bm.l180_1d_mirror, &bm.l180_1d_mirror),
    ];
    for (there, back) in pairs {
        let moved = BoardMath::apply_2d(&board, there);
        assert_ne!(moved, board);
        assert_eq!(BoardMath::apply_2d(&moved, back), board);
    }
}

#[test]
fn get_symmetries_lists_the_eight_forms() {
    let othello = Othello::new(4);
    let board: Vec<i8> = vec![0, 1, 0, 0, 0, 1, 1, 0, 0, 1, -1, 0, 0, 0, 0, 0];
    let pi: Vec<f32> = (0..17).map(|i| i as f32).collect();
    let forms = othello.get_symmetries(&board, &pi);
    assert_eq!(forms.len(), 8);
    assert_eq!(forms[0], (board.clone(), pi.clone()));
    // each row reversed
    assert_eq!(forms[1].0, vec![0, 0, 1, 0, 0, 1, 1, 0, 0, -1, 1, 0, 0, 0, 0, 0]);
    assert_eq!(
        forms[1].1,
        vec![3., 2., 1., 0., 7., 6., 5., 4., 11., 10., 9., 8., 15., 14., 13., 12., 16.]
    );
    // a quarter turn to the left
    assert_eq!(forms[2].0, vec![0, 0, 0, 0, 0, 1, 1, 1, 0, -1, 1, 0, 0, 0, 0, 0]);
    // the half turn
    assert_eq!(forms[6].0, vec![0, 0, 0, 0, 0, -1, 1, 0, 0, 1, 1, 0, 0, 0, 1, 0]);
    for (b, p) in &forms {
        assert_eq!(b.len(), 16);
        assert_eq!(p.len(), 17);
        assert_eq!(p[16], 16.);
    }
}

#[test]
fn symmetric_forms_stand_as_the_board_stands() {
    let othello = Othello::new(4);
    let pi: Vec<u8> = vec![0; 17];
    let ended: Vec<i8> = vec![0, -1, -1, -1, -1, -1, 1, -1, 0, -1, -1, -1, -1, 0, -1, -1];
    let open: Vec<i8> = vec![0, 1, 0, 0, 0, 1, 1, 0, 0, 1, -1, 0, 0, 0, 0, 0];
    for board in [ended, open] {
        for player in [1i8, -1] {
            let stands = othello.get_game_ended(&board, player);
            let moves: u32 =
                othello.get_valid_moves(&board, player).iter().map(|v| *v as u32).sum();
            for (form, _) in othello.get_symmetries(&board, &pi) {
                assert_eq!(othello.get_game_ended(&form, player), stands);
                let form_moves: u32 =
                    othello.get_valid_moves(&form, player).iter().map(|v| *v as u32).sum();
                assert_eq!(form_moves, moves);
            }
        }
    }
}

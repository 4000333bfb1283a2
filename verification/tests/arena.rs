use alpha_zero::arena::{Arena, IllegalAction, Player, Spectator};
use alpha_zero::game::Game;
use alpha_zero::othello::Othello;

/// Takes the first legal action.
struct First {
    game: Othello,
}

impl Player for First {
    fn decide(&mut self, canonical_board: &Vec<i8>) -> usize {
        let valids = self.game.get_valid_moves(canonical_board, 1);
        valids.iter().position(|v| *v == 1).unwrap()
    }
}

/// Takes the last legal action.
struct Last {
    game: Othello,
}

impl Player for Last {
    fn decide(&mut self, canonical_board: &Vec<i8>) -> usize {
        let valids = self.game.get_valid_moves(canonical_board, 1);
        valids.iter().rposition(|v| *v == 1).unwrap()
    }
}

/// Always answers with the same action.
struct Stubborn(usize);

impl Player for Stubborn {
    fn decide(&mut self, _canonical_board: &Vec<i8>) -> usize {
        self.0
    }
}

/// Counts what it is shown.
struct Counting {
    turns: usize,
    ends: usize,
}

impl Spectator for Counting {
    fn turn(&mut self, turn: usize, player: i8, board: &Vec<i8>, side: usize) {
        assert!(player == 1 || player == -1);
        assert_eq!(board.len(), side * side);
        self.turns += 1;
        assert_eq!(turn, self.turns);
    }

    fn game_over(&mut self, turn: usize, result: i8, board: &Vec<i8>, side: usize) {
        assert!(result == 1 || result == -1);
        assert_eq!(board.len(), side * side);
        assert_eq!(turn, self.turns);
        self.ends += 1;
    }
}

struct Blind;

impl Spectator for Blind {
    fn turn(&mut self, _turn: usize, _player: i8, _board: &Vec<i8>, _side: usize) {}

    fn game_over(&mut self, _turn: usize, _result: i8, _board: &Vec<i8>, _side: usize) {}
}

#[test]
fn advance_makes_a_legal_move_and_refuses_any_other() {
    let game = Othello::new(4);
    let arena = Arena::new(Stubborn(0), Stubborn(0), &game, Blind);
    let board = game.get_init_board().clone();
    assert_eq!(
        arena.advance(&board, 1, 1),
        Ok((vec![0, 1, 0, 0, 0, 1, 1, 0, 0, 1, -1, 0, 0, 0, 0, 0], -1))
    );
    assert_eq!(
        arena.advance(&board, -1, 2),
        Ok((vec![0, 0, -1, 0, 0, -1, -1, 0, 0, 1, -1, 0, 0, 0, 0, 0], 1))
    );
    assert_eq!(arena.advance(&board, 1, 0), Err(IllegalAction { player: 1, action: 0 }));
    assert_eq!(arena.advance(&board, 1, 6), Err(IllegalAction { player: 1, action: 6 }));
    assert_eq!(arena.advance(&board, -1, 16), Err(IllegalAction { player: -1, action: 16 }));
    assert_eq!(arena.advance(&board, 1, 17), Err(IllegalAction { player: 1, action: 17 }));
    assert_eq!(arena.advance(&board, 1, 300), Err(IllegalAction { player: 1, action: 300 }));
}

#[test]
fn play_game_ends_with_a_winner() {
    let game = Othello::new(4);
    let mut arena =
        Arena::new(First { game: Othello::new(4) }, Last { game: Othello::new(4) }, &game, Blind);
    let first = arena.play_game(1, false).unwrap();
    assert!(first == 1 || first == -1);
    // the players do not change their minds
    assert_eq!(arena.play_game(1, false), Ok(first));
    let second = arena.play_game(-1, false).unwrap();
    assert!(second == 1 || second == -1);
}

#[test]
fn play_game_shows_every_turn_in_verbose_mode() {
    let game = Othello::new(4);
    let mut arena = Arena::new(
        First { game: Othello::new(4) },
        First { game: Othello::new(4) },
        &game,
        Counting { turns: 0, ends: 0 },
    );
    assert!(arena.play_game(1, true).is_ok());
}

#[test]
fn play_game_stops_at_an_illegal_action() {
    let game = Othello::new(4);
    let mut arena = Arena::new(Stubborn(0), First { game: Othello::new(4) }, &game, Blind);
    assert_eq!(arena.play_game(1, false), Err(IllegalAction { player: 1, action: 0 }));
    // player two begins and moves to (0, 2); then square 0 is not legal for player one either
    assert_eq!(arena.play_game(-1, false), Err(IllegalAction { player: 1, action: 0 }));
    assert_eq!(arena.play_games(2, false), Err(IllegalAction { player: 1, action: 0 }));
    // where no game is due nobody is asked
    assert_eq!(arena.play_games(0, false), Ok((0, 0, 0)));
    assert_eq!(arena.play_games(1, false), Ok((0, 0, 0)));
}

#[test]
fn a_game_that_is_over_before_the_first_move_asks_nobody() {
    // the board of side 2 is full, and who has as many pieces as the other has not won
    let game = Othello::new(2);
    let mut arena = Arena::new(Stubborn(9), Stubborn(9), &game, Blind);
    assert_eq!(arena.play_game(1, false), Ok(-1));
    assert_eq!(arena.play_game(-1, false), Ok(1));
    assert_eq!(arena.play_games(4, false), Ok((2, 2, 0)));
    assert_eq!(arena.play_games(5, true), Ok((2, 2, 0)));
}

#[test]
fn play_games_plays_half_of_the_games_with_each_player_beginning() {
    let game = Othello::new(4);
    let mut arena =
        Arena::new(First { game: Othello::new(4) }, First { game: Othello::new(4) }, &game, Blind);
    // the players do not change their minds: each game of a half ends as the first one does
    let begun_by_one = arena.play_game(1, false).unwrap();
    let begun_by_two = arena.play_game(-1, false).unwrap();
    let wins = |player: i8| {
        3 * (begun_by_one == player) as i32 + 3 * (begun_by_two == player) as i32
    };
    assert_eq!(arena.play_games(6, false), Ok((wins(1), wins(-1), 0)));
    assert_eq!(wins(1) + wins(-1), 6);
    // an odd number leaves one game out
    let (one, two, draws) = arena.play_games(5, false).unwrap();
    assert_eq!(one + two + draws, 4);
    assert_eq!(arena.play_games(0, false), Ok((0, 0, 0)));
    assert_eq!(arena.play_games(1, false), Ok((0, 0, 0)));
}

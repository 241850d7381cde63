use rust_tic_tac_toe::{Player, TicTacToe};

#[test]
fn lib_test_new_game() {
    let game = TicTacToe::new();
    assert!(!game.is_game_over());
    assert_eq!(game.current_player_symbol(), "X");
    assert_eq!(game.get_winner(), None);
}

#[test]
fn test_horizontal_win() {
    let mut game = TicTacToe::new();
    game.make_move(0); // X
    game.make_move(3); // O
    game.make_move(1); // X
    game.make_move(4); // O
    game.make_move(2); // X

    assert!(game.is_game_over());
    assert_eq!(game.get_winner(), Some(Player::X));
}

#[test]
fn test_vertical_win() {
    let mut game = TicTacToe::new();
    game.make_move(0); // X
    game.make_move(1); // O
    game.make_move(3); // X
    game.make_move(2); // O
    game.make_move(6); // X

    assert!(game.is_game_over());
    assert_eq!(game.get_winner(), Some(Player::X));
}

#[test]
fn test_diagonal_win() {
    let mut game = TicTacToe::new();
    game.make_move(0); // X
    game.make_move(1); // O
    game.make_move(4); // X
    game.make_move(2); // O
    game.make_move(8); // X

    assert!(game.is_game_over());
    assert_eq!(game.get_winner(), Some(Player::X));
}

#[test]
fn test_draw() {
    let mut game = TicTacToe::new();
    // X | X | O
    // ---------
    // O | O | X
    // ---------
    // X | X | O
    game.make_move(0); // X
    game.make_move(2); // O
    game.make_move(1); // X
    game.make_move(3); // O
    game.make_move(5); // X
    game.make_move(4); // O
    game.make_move(6); // X
    game.make_move(8); // O
    game.make_move(7); // X

    assert!(game.is_game_over());
    assert_eq!(game.get_winner(), None);
}

#[test]
fn lib_test_invalid_move() {
    let mut game = TicTacToe::new();
    game.make_move(0);

    assert!(!game.make_move(0));

    assert!(!game.make_move(9));
}

#[test]
fn test_player_switching() {
    let mut game = TicTacToe::new();
    assert_eq!(game.current_player_symbol(), "X");

    game.make_move(0);
    assert_eq!(game.current_player_symbol(), "O");

    game.make_move(1);
    assert_eq!(game.current_player_symbol(), "X");
}

#[test]
fn test_reset() {
    let mut game = TicTacToe::new();
    game.make_move(0);
    game.make_move(1);

    game.reset();

    assert!(!game.is_game_over());
    assert_eq!(game.current_player_symbol(), "X");
    assert_eq!(game.get_winner(), None);

    for cell in game.get_board().iter() {
        assert!(cell.is_none());
    }
}

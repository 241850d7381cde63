use rust_tic_tac_toe::checkers::{Checker, Checkers, CheckersPlayer, MoveType};

#[test]
fn checkers_tests_fixed_test_new_game() {
    let game = Checkers::new();
    assert!(!game.is_game_over());
    assert_eq!(game.current_player_symbol(), "\u{26aa}");
    assert_eq!(game.get_winner(), None);
}

#[test]
fn test_initial_board_setup() {
    let game = Checkers::new();
    let board = game.get_board();

    for row in 0..3 {
        for col in 0..8 {
            if Checkers::is_black_cell(row, col) {
                assert!(board[row][col].is_some());
                assert_eq!(board[row][col].unwrap().player, CheckersPlayer::White);
            }
        }
    }

    for row in 5..8 {
        for col in 0..8 {
            if Checkers::is_black_cell(row, col) {
                assert!(board[row][col].is_some());
                assert_eq!(board[row][col].unwrap().player, CheckersPlayer::Black);
            }
        }
    }
}

#[test]
fn test_valid_move() {
    let mut game = Checkers::new();

    assert!(game.make_move(2, 1, 3, 2));
    assert_eq!(game.current_player_symbol(), "\u{26ab}");
}

#[test]
fn checkers_tests_fixed_test_invalid_move() {
    let mut game = Checkers::new();

    assert!(!game.make_move(2, 1, 3, 1));

    assert!(!game.make_move(2, 1, 2, 3));

    assert!(!game.make_move(5, 0, 4, 1));
}

#[test]
fn test_promotion_to_king() {
    let mut game = Checkers::new();

    game.clear_board();
    game.set_checker(6, 1, Some(Checker::new(CheckersPlayer::White)));

    assert!(game.make_move(6, 1, 7, 0));

    if let Some(checker) = game.get_checker_at(7, 0) {
        assert!(checker.is_king());
    } else {
        panic!("Шашка должна быть на позиции 7,0");
    }
}

#[test]
fn test_black_cell_detection() {
    assert!(Checkers::is_black_cell(0, 1));
    assert!(Checkers::is_black_cell(1, 0));
    assert!(!Checkers::is_black_cell(0, 0));
    assert!(!Checkers::is_black_cell(1, 1));
}

#[test]
fn test_forced_capture() {
    let mut game = Checkers::new();

    game.clear_board();

    game.set_checker(2, 1, Some(Checker::new(CheckersPlayer::White)));
    game.set_checker(3, 2, Some(Checker::new(CheckersPlayer::Black)));

    assert!(game.has_forced_captures());

    assert!(!game.make_move(2, 1, 3, 0));

    assert!(game.make_move(2, 1, 4, 3));

    assert!(game.get_checker_at(3, 2).is_none());

    assert!(game.get_checker_at(4, 3).is_some());
    assert_eq!(game.get_checker_at(4, 3).unwrap().player, CheckersPlayer::White);
}

#[test]
fn test_multiple_captures() {
    let mut game = Checkers::new();

    game.clear_board();

    game.set_checker(1, 0, Some(Checker::new(CheckersPlayer::White)));
    game.set_checker(2, 1, Some(Checker::new(CheckersPlayer::Black)));
    game.set_checker(4, 3, Some(Checker::new(CheckersPlayer::Black)));

    assert!(game.make_move(1, 0, 3, 2));

    assert_eq!(game.current_player, CheckersPlayer::White);

    assert!(game.make_move(3, 2, 5, 4));

    assert!(game.is_game_over());
    assert_eq!(game.get_winner(), Some(CheckersPlayer::White));

    assert!(game.get_checker_at(2, 1).is_none());
    assert!(game.get_checker_at(4, 3).is_none());

    assert!(game.get_checker_at(5, 4).is_some());
    assert_eq!(game.get_checker_at(5, 4).unwrap().player, CheckersPlayer::White);
}

#[test]
fn test_capture_validation() {
    let mut game = Checkers::new();

    game.clear_board();

    game.set_checker(2, 1, Some(Checker::new(CheckersPlayer::White)));
    game.set_checker(3, 2, Some(Checker::new(CheckersPlayer::Black)));

    assert!(!game.make_move(2, 1, 3, 2));

    assert!(!game.make_move(2, 1, 5, 5));

    game.set_checker(3, 2, Some(Checker::new(CheckersPlayer::White)));
    assert!(!game.make_move(2, 1, 4, 3));
}

#[test]
fn test_regular_checker_cannot_capture_backwards() {
    let mut game = Checkers::new();

    game.clear_board();

    // the White piece moves toward increasing rows, so the Black piece on
    // (4, 3) sits behind it and may not be captured
    game.set_checker(5, 2, Some(Checker::new(CheckersPlayer::White)));
    game.set_checker(4, 3, Some(Checker::new(CheckersPlayer::Black)));

    let captures = game.get_possible_captures(5, 2);
    assert!(captures.is_empty(), "Обычная шашка не должна рубить назад");

    // a quiet step forward stays legal
    assert!(game.make_move(5, 2, 6, 1));
}

#[test]
fn test_king_can_capture_to_any_position_on_diagonal() {
    let mut game = Checkers::new();

    game.clear_board();

    let mut white_king = Checker::new(CheckersPlayer::White);
    white_king.promote_to_king();
    game.set_checker(3, 2, Some(white_king));

    game.set_checker(4, 3, Some(Checker::new(CheckersPlayer::Black)));

    let captures = game.get_possible_captures(3, 2);
    assert_eq!(captures.len(), 3, "Дамка должна иметь 3 варианта приземления");

    // the move application takes the midpoint capture over the victim
    assert!(game.make_move(3, 2, 5, 4));

    assert!(game.get_checker_at(4, 3).is_none());

    assert!(game.get_checker_at(5, 4).is_some());
    assert!(game.get_checker_at(5, 4).unwrap().is_king());
}

#[test]
fn test_king_cannot_capture_over_obstacles() {
    let mut game = Checkers::new();

    game.clear_board();

    let mut white_king = Checker::new(CheckersPlayer::White);
    white_king.promote_to_king();
    game.set_checker(2, 1, Some(white_king));

    game.set_checker(3, 2, Some(Checker::new(CheckersPlayer::Black)));
    // an own piece on (5, 4) blocks every landing square beyond (4, 3)
    game.set_checker(5, 4, Some(Checker::new(CheckersPlayer::White)));

    let captures = game.get_possible_captures(2, 1);
    assert_eq!(captures.len(), 1, "Дамка должна иметь 1 вариант приземления (до препятствия)");
    assert_eq!(captures[0].to, (4, 3));

    assert!(game.make_move(2, 1, 4, 3));
}

#[test]
fn test_move_logging() {
    let mut game = Checkers::new();

    println!("Начинаем тест логгирования...");

    // White opens
    assert!(game.make_move(2, 1, 3, 2));
    assert_eq!(game.move_history_len(), 1);

    let first_move = game.get_move_at(0).unwrap();
    assert_eq!(first_move.move_number, 1);
    assert_eq!(first_move.player, CheckersPlayer::White);
    assert_eq!(first_move.from, (2, 1));
    assert_eq!(first_move.to, (3, 2));
    assert!(matches!(first_move.move_type, MoveType::Regular));
    assert!(first_move.captured.is_empty());

    // Black replies
    assert!(game.make_move(5, 0, 4, 1));
    assert_eq!(game.move_history_len(), 2);

    let second_move = game.get_move_at(1).unwrap();
    assert_eq!(second_move.move_number, 2);
    assert_eq!(second_move.player, CheckersPlayer::Black);
    assert_eq!(second_move.from, (5, 0));
    assert_eq!(second_move.to, (4, 1));
    assert!(matches!(second_move.move_type, MoveType::Regular));
    assert!(second_move.captured.is_empty());

    println!("Тест логгирования завершен успешно!");
}

#[test]
fn test_black_king_simple_moves() {
    let mut game = Checkers::new();

    game.clear_board();

    let mut black_king = Checker::new(CheckersPlayer::Black);
    black_king.promote_to_king();
    game.set_checker(3, 0, Some(black_king));

    game.current_player = CheckersPlayer::Black;

    let possible_moves = game.get_possible_moves(3, 0);

    let up_right_move = possible_moves.iter().find(|m| m.to == (0, 3));
    assert!(up_right_move.is_some(), "Черная дамка должна иметь возможность ходить вправо-вверх");

    let down_right_move = possible_moves.iter().find(|m| m.to == (6, 3));
    assert!(down_right_move.is_some(), "Черная дамка должна иметь возможность ходить вправо-вниз");

    #[allow(unused_comparisons)]
    let left_moves = possible_moves.iter().filter(|m| m.to.1 < 0).count();
    assert_eq!(left_moves, 0, "Черная дамка не должна иметь возможность ходить влево из первого столбца");

    println!("Тест простых ходов черной дамки завершен успешно!");
}

#[test]
fn test_black_king_first_column_moves() {
    let mut game = Checkers::new();

    game.clear_board();

    let mut black_king = Checker::new(CheckersPlayer::Black);
    black_king.promote_to_king();
    game.set_checker(3, 0, Some(black_king));

    game.current_player = CheckersPlayer::Black;

    let possible_moves = game.get_possible_moves(3, 0);

    assert!(!possible_moves.is_empty(), "Черная дамка в первом столбце должна иметь возможность ходить");

    for movement in &possible_moves {
        assert!(movement.to.1 > 0, "Все ходы должны вести вправо из первого столбца");
    }

    println!("Тест ходов черной дамки в первом столбце завершен успешно!");
    println!("Найдено ходов: {}", possible_moves.len());
    for movement in &possible_moves {
        println!("  От ({},{}) к ({},{})", movement.from.0, movement.from.1, movement.to.0, movement.to.1);
    }
}

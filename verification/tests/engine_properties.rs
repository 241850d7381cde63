use rust_tic_tac_toe::checkers::{Checker, Checkers, CheckersPlayer};
use rust_tic_tac_toe::{Language, Localization};

fn count_pieces(game: &Checkers, player: CheckersPlayer) -> usize {
    let board = game.get_board();
    let mut n = 0;
    for row in 0..8 {
        for col in 0..8 {
            if let Some(checker) = board[row][col] {
                if checker.player == player {
                    n += 1;
                }
            }
        }
    }
    n
}

#[test]
fn test_occupied_squares_stay_playable() {
    let mut game = Checkers::new();
    let moves = [(2, 1, 3, 2), (5, 2, 4, 1), (2, 5, 3, 6), (5, 6, 4, 7)];
    for &(fr, fc, tr, tc) in moves.iter() {
        assert!(game.make_move(fr, fc, tr, tc));
    }
    let board = game.get_board();
    for row in 0..8 {
        for col in 0..8 {
            if board[row][col].is_some() {
                assert!(Checkers::is_black_cell(row, col));
            }
        }
    }
}

#[test]
fn test_capture_reduces_opponent_count_by_one() {
    let mut game = Checkers::new();
    game.clear_board();
    game.set_checker(2, 1, Some(Checker::new(CheckersPlayer::White)));
    game.set_checker(3, 2, Some(Checker::new(CheckersPlayer::Black)));
    game.set_checker(5, 0, Some(Checker::new(CheckersPlayer::Black)));

    let white_before = count_pieces(&game, CheckersPlayer::White);
    let black_before = count_pieces(&game, CheckersPlayer::Black);

    assert!(game.make_move(2, 1, 4, 3));

    assert_eq!(count_pieces(&game, CheckersPlayer::White), white_before);
    assert_eq!(count_pieces(&game, CheckersPlayer::Black), black_before - 1);
    let last = game.get_last_move().unwrap();
    assert_eq!(last.captures.len(), 1);
    assert_eq!(last.captures[0], (3, 2));
}

#[test]
fn test_quiet_move_keeps_counts() {
    let mut game = Checkers::new();
    let white_before = count_pieces(&game, CheckersPlayer::White);
    let black_before = count_pieces(&game, CheckersPlayer::Black);

    assert!(game.make_move(2, 1, 3, 2));

    assert_eq!(count_pieces(&game, CheckersPlayer::White), white_before);
    assert_eq!(count_pieces(&game, CheckersPlayer::Black), black_before);
}

#[test]
fn test_rejected_move_leaves_state_unchanged() {
    let mut game = Checkers::new();
    assert!(game.make_move(2, 1, 3, 2));

    let board_before = game.get_board();
    let player_before = game.current_player;
    let history_before = game.move_history_len();

    // not diagonal, wrong side, occupied destination, out of bounds
    assert!(!game.make_move(5, 0, 5, 1));
    assert!(!game.make_move(2, 3, 2, 4));
    assert!(!game.make_move(5, 0, 3, 2));
    assert!(!game.make_move(5, 0, 8, 3));

    assert_eq!(game.get_board(), board_before);
    assert_eq!(game.current_player, player_before);
    assert_eq!(game.move_history_len(), history_before);
}

#[test]
fn test_no_moves_accepted_after_game_over() {
    let mut game = Checkers::new();
    game.clear_board();
    game.set_checker(6, 1, Some(Checker::new(CheckersPlayer::White)));

    assert!(game.make_move(6, 1, 7, 0));
    assert!(game.is_game_over());
    assert_eq!(game.get_winner(), Some(CheckersPlayer::White));

    let board_before = game.get_board();
    assert!(!game.make_move(7, 0, 6, 1));
    assert_eq!(game.get_board(), board_before);
}

#[test]
fn test_find_best_capture() {
    let mut game = Checkers::new();
    assert!(game.find_best_capture().is_none());

    game.clear_board();
    game.set_checker(2, 1, Some(Checker::new(CheckersPlayer::White)));
    game.set_checker(3, 2, Some(Checker::new(CheckersPlayer::Black)));

    let best = game.find_best_capture().expect("a capture is available");
    assert_eq!(best.from, (2, 1));
    assert_eq!(best.to, (4, 3));
    assert_eq!(best.captures, vec![(3, 2)]);
}

#[test]
fn test_all_possible_moves_initial_position() {
    let game = Checkers::new();
    assert!(!game.has_forced_captures());
    let all_moves = game.get_all_possible_moves();
    // the four White pieces on row 2 have seven forward steps between them
    assert_eq!(all_moves.len(), 7);
    for movement in &all_moves {
        assert!(movement.captures.is_empty());
        assert_eq!(movement.to.0, 3);
    }
}

#[test]
fn test_king_quiet_moves_stop_at_obstruction() {
    let mut game = Checkers::new();
    game.clear_board();
    game.set_checker(2, 1, Some(Checker::new_king(CheckersPlayer::White)));
    game.set_checker(4, 3, Some(Checker::new(CheckersPlayer::White)));

    let moves = game.get_possible_moves(2, 1);
    assert!(moves.iter().any(|m| m.to == (3, 2)));
    assert!(!moves.iter().any(|m| m.to == (4, 3)));
    assert!(!moves.iter().any(|m| m.to == (5, 4)));
}

#[test]
fn test_king_chain_captures_enumerated() {
    let mut game = Checkers::new();
    game.clear_board();
    game.set_checker(2, 1, Some(Checker::new_king(CheckersPlayer::White)));
    game.set_checker(3, 2, Some(Checker::new(CheckersPlayer::Black)));
    game.set_checker(5, 4, Some(Checker::new(CheckersPlayer::Black)));

    // one single jump to (4, 3), then two continuations over (5, 4)
    let captures = game.get_possible_captures(2, 1);
    assert_eq!(captures.len(), 3);
    assert_eq!(captures.iter().filter(|m| m.captures.len() == 1).count(), 1);
    assert_eq!(captures.iter().filter(|m| m.captures.len() == 2).count(), 2);
    assert!(captures.iter().any(|m| m.to == (4, 3) && m.captures == vec![(3, 2)]));
    assert!(captures.iter().any(|m| m.to == (6, 5) && m.captures == vec![(3, 2), (5, 4)]));
    assert!(captures.iter().any(|m| m.to == (7, 6) && m.captures == vec![(3, 2), (5, 4)]));
}

#[test]
fn test_king_keeps_turn_while_capturing() {
    let mut game = Checkers::new();
    game.clear_board();
    game.set_checker(2, 1, Some(Checker::new_king(CheckersPlayer::White)));
    game.set_checker(3, 2, Some(Checker::new(CheckersPlayer::Black)));
    game.set_checker(5, 4, Some(Checker::new(CheckersPlayer::Black)));

    assert!(game.make_move(2, 1, 4, 3));
    assert!(game.get_checker_at(3, 2).is_none());
    // the same piece can keep capturing, so the turn stays with White
    assert_eq!(game.current_player, CheckersPlayer::White);
    assert!(!game.is_game_over());

    assert!(game.make_move(4, 3, 6, 5));
    assert!(game.get_checker_at(5, 4).is_none());
    assert!(game.is_game_over());
    assert_eq!(game.get_winner(), Some(CheckersPlayer::White));
}

#[test]
fn test_regular_chain_captures_enumerated() {
    let mut game = Checkers::new();
    game.clear_board();
    game.set_checker(1, 0, Some(Checker::new(CheckersPlayer::White)));
    game.set_checker(2, 1, Some(Checker::new(CheckersPlayer::Black)));
    game.set_checker(4, 3, Some(Checker::new(CheckersPlayer::Black)));

    // the single jump to (3, 2) and its forward continuation to (5, 4)
    let captures = game.get_possible_captures(1, 0);
    assert_eq!(captures.len(), 2);
    assert!(captures.iter().any(|m| m.to == (3, 2) && m.captures == vec![(2, 1)]));
    assert!(captures.iter().any(|m| m.to == (5, 4) && m.captures == vec![(2, 1), (4, 3)]));
    for m in &captures {
        assert_eq!(m.from, (1, 0));
    }
}

#[test]
fn test_listed_captures_start_at_queried_square() {
    let mut game = Checkers::new();
    game.clear_board();
    game.set_checker(2, 1, Some(Checker::new_king(CheckersPlayer::White)));
    game.set_checker(3, 2, Some(Checker::new(CheckersPlayer::Black)));
    game.set_checker(5, 4, Some(Checker::new(CheckersPlayer::Black)));

    let captures = game.get_possible_captures(2, 1);
    assert!(!captures.is_empty());
    for m in &captures {
        assert_eq!(m.from, (2, 1));
    }
}

#[test]
fn test_listings_empty_off_the_board() {
    let game = Checkers::new();
    assert!(game.get_possible_captures(8, 0).is_empty());
    assert!(game.get_possible_captures(0, 11).is_empty());
    assert!(game.get_possible_moves(9, 9).is_empty());
}

#[test]
fn test_set_current_player() {
    let mut game = Checkers::new();
    game.set_current_player(CheckersPlayer::Black);
    assert_eq!(game.current_player, CheckersPlayer::Black);
    assert_eq!(game.current_player_symbol(), "\u{26ab}");
    assert!(game.make_move(5, 0, 4, 1));
}

#[test]
fn test_forced_position_lists_only_captures() {
    let mut game = Checkers::new();
    game.clear_board();
    game.set_checker(2, 1, Some(Checker::new(CheckersPlayer::White)));
    game.set_checker(2, 5, Some(Checker::new(CheckersPlayer::White)));
    game.set_checker(3, 2, Some(Checker::new(CheckersPlayer::Black)));

    assert!(game.has_forced_captures());
    let all_moves = game.get_all_possible_moves();
    assert_eq!(all_moves.len(), 1);
    assert_eq!(all_moves[0].from, (2, 1));
    assert_eq!(all_moves[0].to, (4, 3));
    assert_eq!(all_moves[0].captures, vec![(3, 2)]);
}

#[test]
fn test_capture_geometry() {
    let game = Checkers::new();
    assert!(game.is_capture_move(2, 1, 4, 3));
    assert!(game.is_capture_move(4, 3, 2, 1));
    assert!(!game.is_capture_move(2, 1, 3, 2));
    assert!(!game.is_capture_move(2, 1, 5, 4));
    assert!(!game.is_capture_move(2, 1, 4, 1));
}

#[test]
fn test_board_snapshot_in_history() {
    let mut game = Checkers::new();
    game.clear_board();
    game.set_checker(6, 1, Some(Checker::new(CheckersPlayer::White)));

    assert!(game.make_move(6, 1, 7, 0));

    let log = game.get_last_move_log().expect("one move was logged");
    let mut expected = String::new();
    for _ in 0..7 {
        expected.push_str("        \n");
    }
    expected.push_str("\u{1f451}       \n");
    assert_eq!(log.board_after, expected);
}

#[test]
fn test_reset_restores_initial_position() {
    let mut game = Checkers::new();
    assert!(game.make_move(2, 1, 3, 2));
    game.reset();

    let fresh = Checkers::new();
    assert_eq!(game.get_board(), fresh.get_board());
    assert_eq!(game.current_player, CheckersPlayer::White);
    assert!(!game.is_game_over());
    assert_eq!(game.move_history_len(), 0);
    assert!(game.get_last_move().is_none());
}

#[test]
fn test_player_symbols() {
    assert_eq!(CheckersPlayer::White.symbol(), "\u{26aa}");
    assert_eq!(CheckersPlayer::Black.symbol(), "\u{26ab}");
    assert_eq!(CheckersPlayer::White.king_symbol(), "\u{1f451}");
    assert_eq!(CheckersPlayer::White.direction(), 1);
    assert_eq!(CheckersPlayer::Black.direction(), -1);
}

#[test]
fn test_localized_texts() {
    let ru = Localization::new(Language::Russian);
    let en = Localization::new(Language::English);
    assert_eq!(ru.get_text("game_title"), "Крестики-нолики");
    assert_eq!(en.get_text("game_title"), "Tic-Tac-Toe");
    assert_eq!(ru.get_text("white_wins"), "Белые победили!");
    assert_eq!(en.get_text("black_wins"), "Black wins!");
    assert_eq!(en.get_text("no_such_key"), "Unknown");
    assert_eq!(ru.get_text("russian"), "Русский");
}

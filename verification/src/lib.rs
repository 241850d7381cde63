//! Game logic for two board games: tic-tac-toe (this file) and checkers
//! (the `checkers` module). The rules of play are stated in contracts and
//! verified; drawing and console output live outside this crate.

use vstd::prelude::*;
use vstd::string::StrSliceExecFns;

pub mod checkers;

verus! {

/// Supported interface languages.
#[derive(Clone, Copy, PartialEq, Eq, Structural, Debug)]
pub enum Language {
    Russian,
    English,
}

/// Whether two string slices hold the same characters.
fn str_eq(a: &str, b: &str) -> (r: bool)
    ensures
        r == (a@ == b@),
{
    let a_len = a.unicode_len();
    let b_len = b.unicode_len();
    if a_len != b_len {
        return false;
    }
    for i in 0..a_len
        invariant
            a_len == a@.len(),
            b_len == b@.len(),
            a_len == b_len,
            forall|k: int| 0 <= k < i ==> a@[k] == b@[k],
    {
        if a.get_char(i) != b.get_char(i) {
            return false;
        }
    }
    proof {
        assert(a@ =~= b@);
    }
    true
}

/// The text shown for `key` in the Russian interface.
pub open spec fn russian_text(key: Seq<char>) -> Seq<char> {
    if key == "game_title"@ {
        "Крестики-нолики"@
    } else if key == "current_player_turn"@ {
        "Ход игрока: {}"@
    } else if key == "winner"@ {
        "Победитель: {}!"@
    } else if key == "draw"@ {
        "Ничья!"@
    } else if key == "new_game"@ {
        "Новая игра"@
    } else if key == "exit"@ {
        "Выход"@
    } else if key == "loading"@ {
        "Загрузка игры..."@
    } else if key == "game_loaded"@ {
        "Игра загружена!"@
    } else if key == "loading_error"@ {
        "Ошибка загрузки игры: {}"@
    } else if key == "performance"@ {
        "Производительность"@
    } else if key == "performance_desc"@ {
        "Нативная скорость Rust в браузере"@
    } else if key == "design"@ {
        "Дизайн"@
    } else if key == "design_desc"@ {
        "Современный и красивый интерфейс"@
    } else if key == "compatibility"@ {
        "Совместимость"@
    } else if key == "compatibility_desc"@ {
        "Работает на всех устройствах"@
    } else if key == "download_source"@ {
        "Скачать исходный код"@
    } else if key == "play_again"@ {
        "Играть снова"@
    } else if key == "created_with"@ {
        "Создано с ❤️ на Rust + WebAssembly"@
    } else if key == "language_switch"@ {
        "Язык"@
    } else if key == "russian"@ {
        "Русский"@
    } else if key == "english"@ {
        "English"@
    } else if key == "checkers_title"@ {
        "Шашки"@
    } else if key == "tic_tac_toe_title"@ {
        "Крестики-нолики"@
    } else if key == "game_select"@ {
        "Выберите игру"@
    } else if key == "white_turn"@ {
        "Ход белых"@
    } else if key == "black_turn"@ {
        "Ход черных"@
    } else if key == "white_wins"@ {
        "Белые победили!"@
    } else if key == "black_wins"@ {
        "Черные победили!"@
    } else {
        "Unknown"@
    }
}

/// The text shown for `key` in the English interface.
pub open spec fn english_text(key: Seq<char>) -> Seq<char> {
    if key == "game_title"@ {
        "Tic-Tac-Toe"@
    } else if key == "current_player_turn"@ {
        "Player's turn: {}"@
    } else if key == "winner"@ {
        "Winner: {}!"@
    } else if key == "draw"@ {
        "Draw!"@
    } else if key == "new_game"@ {
        "New Game"@
    } else if key == "exit"@ {
        "Exit"@
    } else if key == "loading"@ {
        "Loading game..."@
    } else if key == "game_loaded"@ {
        "Game loaded!"@
    } else if key == "loading_error"@ {
        "Loading error: {}"@
    } else if key == "performance"@ {
        "Performance"@
    } else if key == "performance_desc"@ {
        "Native Rust speed in browser"@
    } else if key == "design"@ {
        "Design"@
    } else if key == "design_desc"@ {
        "Modern and beautiful interface"@
    } else if key == "compatibility"@ {
        "Compatibility"@
    } else if key == "compatibility_desc"@ {
        "Works on all devices"@
    } else if key == "download_source"@ {
        "Download source code"@
    } else if key == "play_again"@ {
        "Play again"@
    } else if key == "created_with"@ {
        "Created with ❤️ using Rust + WebAssembly"@
    } else if key == "language_switch"@ {
        "Language"@
    } else if key == "russian"@ {
        "Русский"@
    } else if key == "english"@ {
        "English"@
    } else if key == "checkers_title"@ {
        "Checkers"@
    } else if key == "tic_tac_toe_title"@ {
        "Tic-Tac-Toe"@
    } else if key == "game_select"@ {
        "Select Game"@
    } else if key == "white_turn"@ {
        "White's turn"@
    } else if key == "black_turn"@ {
        "Black's turn"@
    } else if key == "white_wins"@ {
        "White wins!"@
    } else if key == "black_wins"@ {
        "Black wins!"@
    } else {
        "Unknown"@
    }
}

/// The text shown for `key` in the interface language `lang`; an unknown
/// key yields a fixed placeholder.
pub open spec fn localized_text(lang: Language, key: Seq<char>) -> Seq<char> {
    match lang {
        Language::Russian => russian_text(key),
        Language::English => english_text(key),
    }
}

/// The interface texts for one chosen language.
#[derive(Clone)]
pub struct Localization {
    pub language: Language,
}

impl Localization {
    /// A localization for the given language.
    pub fn new(language: Language) -> (r: Self)
        ensures
            r.language == language,
    {
        Self { language }
    }

    /// The text for `key` in this localization's language.
    pub fn get_text(&self, key: &str) -> (r: &'static str)
        ensures
            r@ == localized_text(self.language, key@),
    {
        match self.language {
            Language::Russian => {
                if str_eq(key, "game_title") {
                    "Крестики-нолики"
                } else if str_eq(key, "current_player_turn") {
                    "Ход игрока: {}"
                } else if str_eq(key, "winner") {
                    "Победитель: {}!"
                } else if str_eq(key, "draw") {
                    "Ничья!"
                } else if str_eq(key, "new_game") {
                    "Новая игра"
                } else if str_eq(key, "exit") {
                    "Выход"
                } else if str_eq(key, "loading") {
                    "Загрузка игры..."
                } else if str_eq(key, "game_loaded") {
                    "Игра загружена!"
                } else if str_eq(key, "loading_error") {
                    "Ошибка загрузки игры: {}"
                } else if str_eq(key, "performance") {
                    "Производительность"
                } else if str_eq(key, "performance_desc") {
                    "Нативная скорость Rust в браузере"
                } else if str_eq(key, "design") {
                    "Дизайн"
                } else if str_eq(key, "design_desc") {
                    "Современный и красивый интерфейс"
                } else if str_eq(key, "compatibility") {
                    "Совместимость"
                } else if str_eq(key, "compatibility_desc") {
                    "Работает на всех устройствах"
                } else if str_eq(key, "download_source") {
                    "Скачать исходный код"
                } else if str_eq(key, "play_again") {
                    "Играть снова"
                } else if str_eq(key, "created_with") {
                    "Создано с ❤️ на Rust + WebAssembly"
                } else if str_eq(key, "language_switch") {
                    "Язык"
                } else if str_eq(key, "russian") {
                    "Русский"
                } else if str_eq(key, "english") {
                    "English"
                } else if str_eq(key, "checkers_title") {
                    "Шашки"
                } else if str_eq(key, "tic_tac_toe_title") {
                    "Крестики-нолики"
                } else if str_eq(key, "game_select") {
                    "Выберите игру"
                } else if str_eq(key, "white_turn") {
                    "Ход белых"
                } else if str_eq(key, "black_turn") {
                    "Ход черных"
                } else if str_eq(key, "white_wins") {
                    "Белые победили!"
                } else if str_eq(key, "black_wins") {
                    "Черные победили!"
                } else {
                    "Unknown"
                }
            },
            Language::English => {
                if str_eq(key, "game_title") {
                    "Tic-Tac-Toe"
                } else if str_eq(key, "current_player_turn") {
                    "Player's turn: {}"
                } else if str_eq(key, "winner") {
                    "Winner: {}!"
                } else if str_eq(key, "draw") {
                    "Draw!"
                } else if str_eq(key, "new_game") {
                    "New Game"
                } else if str_eq(key, "exit") {
                    "Exit"
                } else if str_eq(key, "loading") {
                    "Loading game..."
                } else if str_eq(key, "game_loaded") {
                    "Game loaded!"
                } else if str_eq(key, "loading_error") {
                    "Loading error: {}"
                } else if str_eq(key, "performance") {
                    "Performance"
                } else if str_eq(key, "performance_desc") {
                    "Native Rust speed in browser"
                } else if str_eq(key, "design") {
                    "Design"
                } else if str_eq(key, "design_desc") {
                    "Modern and beautiful interface"
                } else if str_eq(key, "compatibility") {
                    "Compatibility"
                } else if str_eq(key, "compatibility_desc") {
                    "Works on all devices"
                } else if str_eq(key, "download_source") {
                    "Download source code"
                } else if str_eq(key, "play_again") {
                    "Play again"
                } else if str_eq(key, "created_with") {
                    "Created with ❤️ using Rust + WebAssembly"
                } else if str_eq(key, "language_switch") {
                    "Language"
                } else if str_eq(key, "russian") {
                    "Русский"
                } else if str_eq(key, "english") {
                    "English"
                } else if str_eq(key, "checkers_title") {
                    "Checkers"
                } else if str_eq(key, "tic_tac_toe_title") {
                    "Tic-Tac-Toe"
                } else if str_eq(key, "game_select") {
                    "Select Game"
                } else if str_eq(key, "white_turn") {
                    "White's turn"
                } else if str_eq(key, "black_turn") {
                    "Black's turn"
                } else if str_eq(key, "white_wins") {
                    "White wins!"
                } else if str_eq(key, "black_wins") {
                    "Black wins!"
                } else {
                    "Unknown"
                }
            },
        }
    }
}

/// A player in tic-tac-toe. `X` moves first.
#[derive(Clone, Copy, PartialEq, Eq, Structural, Debug)]
pub enum Player {
    X,
    O,
}

impl Player {
    /// The symbol used to display this player.
    pub fn symbol(&self) -> (r: &'static str)
        ensures
            self is X ==> r@ == "X"@,
            self is O ==> r@ == "O"@,
    {
        match self {
            Player::X => "X",
            Player::O => "O",
        }
    }
}

/// The other player.
pub open spec fn other_player(p: Player) -> Player {
    match p {
        Player::X => Player::O,
        Player::O => Player::X,
    }
}

/// The first cell of winning line `i`, the cell the winner scan reads to
/// pick the candidate player.
pub open spec fn line_anchor(i: int) -> int {
    if i == 0 {
        0
    } else if i == 1 {
        3
    } else if i == 2 {
        6
    } else if i == 3 {
        0
    } else if i == 4 {
        1
    } else if i == 5 {
        2
    } else if i == 6 {
        0
    } else {
        2
    }
}

/// Whether player `p` holds all three cells of winning line `i`: the three
/// rows, the three columns, and the two diagonals, in that order.
pub open spec fn line_wins(b: [Option<Player>; 9], p: Player, i: int) -> bool {
    if i == 0 {
        b[0] == Some(p) && b[1] == Some(p) && b[2] == Some(p)
    } else if i == 1 {
        b[3] == Some(p) && b[4] == Some(p) && b[5] == Some(p)
    } else if i == 2 {
        b[6] == Some(p) && b[7] == Some(p) && b[8] == Some(p)
    } else if i == 3 {
        b[0] == Some(p) && b[3] == Some(p) && b[6] == Some(p)
    } else if i == 4 {
        b[1] == Some(p) && b[4] == Some(p) && b[7] == Some(p)
    } else if i == 5 {
        b[2] == Some(p) && b[5] == Some(p) && b[8] == Some(p)
    } else if i == 6 {
        b[0] == Some(p) && b[4] == Some(p) && b[8] == Some(p)
    } else {
        b[2] == Some(p) && b[4] == Some(p) && b[6] == Some(p)
    }
}

/// Whether player `p` holds some winning line.
pub open spec fn wins(b: [Option<Player>; 9], p: Player) -> bool {
    exists|i: int| 0 <= i < 8 && #[trigger] line_wins(b, p, i)
}

/// The player of the first winning line at or after line `i`, scanning the
/// lines in their fixed order; the candidate of each line is the player on
/// its anchor cell.
pub open spec fn first_winner_from(b: [Option<Player>; 9], i: int) -> Option<Player>
    decreases 8 - i,
{
    if i < 0 || i >= 8 {
        None
    } else {
        match b[line_anchor(i)] {
            Some(p) => if line_wins(b, p, i) {
                Some(p)
            } else {
                first_winner_from(b, i + 1)
            },
            None => first_winner_from(b, i + 1),
        }
    }
}

/// Whether every cell of the board is taken.
pub open spec fn board_full(b: [Option<Player>; 9]) -> bool {
    forall|i: int| 0 <= i < 9 ==> b[i] is Some
}

/// The first winning line's player really wins, and a scan that found no
/// line means nobody wins.
pub proof fn lemma_first_winner(b: [Option<Player>; 9], i: int)
    requires
        0 <= i <= 8,
    ensures
        first_winner_from(b, i) is Some ==> wins(b, first_winner_from(b, i)->0),
        first_winner_from(b, i) is None ==> forall|p: Player, j: int| i <= j < 8 ==> !#[trigger] line_wins(b, p, j),
    decreases 8 - i,
{
    if i < 8 {
        lemma_first_winner(b, i + 1);
        match b[line_anchor(i)] {
            Some(p) => {
                if line_wins(b, p, i) {
                } else {
                    assert forall|q: Player, j: int| i <= j < 8 && first_winner_from(b, i) is None
                        implies !#[trigger] line_wins(b, q, j) by {
                        if j == i {
                            assert(b[line_anchor(i)] == Some(p));
                        }
                    }
                }
            },
            None => {
                assert forall|q: Player, j: int| i <= j < 8 && first_winner_from(b, i) is None
                    implies !#[trigger] line_wins(b, q, j) by {
                    if j == i {
                        assert(b[line_anchor(i)] is None);
                    }
                }
            },
        }
    }
}

/// One game of tic-tac-toe: a 3x3 board stored row by row in nine cells,
/// the player to move, and whether the game has ended. Play continues to be
/// accepted into empty cells even after the game has ended, as a sandbox;
/// the ended flag is never cleared except by `reset`.
#[derive(Clone)]
pub struct TicTacToe {
    board: [Option<Player>; 9],
    current_player: Player,
    game_over: bool,
}

impl TicTacToe {
    /// The board, as seen by specifications.
    pub closed spec fn spec_board(self) -> [Option<Player>; 9] {
        self.board
    }

    /// The player to move, as seen by specifications.
    pub closed spec fn spec_current_player(self) -> Player {
        self.current_player
    }

    /// Whether the game has ended, as seen by specifications.
    pub closed spec fn spec_game_over(self) -> bool {
        self.game_over
    }

    /// A new game: an empty board, X to move.
    pub fn new() -> (g: Self)
        ensures
            forall|i: int| 0 <= i < 9 ==> g.spec_board()[i] is None,
            g.spec_current_player() == Player::X,
            !g.spec_game_over(),
    {
        Self { board: [None; 9], current_player: Player::X, game_over: false }
    }

    /// Starts the game over: an empty board, X to move.
    pub fn reset(&mut self)
        ensures
            forall|i: int| 0 <= i < 9 ==> final(self).spec_board()[i] is None,
            final(self).spec_current_player() == Player::X,
            !final(self).spec_game_over(),
    {
        self.board = [None; 9];
        self.current_player = Player::X;
        self.game_over = false;
    }

    /// The symbol of the player to move.
    pub fn current_player_symbol(&self) -> (r: &'static str)
        ensures
            self.spec_current_player() is X ==> r@ == "X"@,
            self.spec_current_player() is O ==> r@ == "O"@,
    {
        self.current_player.symbol()
    }

    /// Whether cell `idx` holds `player`.
    fn cell_is(&self, idx: usize, player: Player) -> (r: bool)
        requires
            idx < 9,
        ensures
            r == (self.spec_board()[idx as int] == Some(player)),
    {
        match self.board[idx] {
            Some(q) => q == player,
            None => false,
        }
    }

    /// Whether `player` holds all three cells a, b, c.
    fn line_is(&self, a: usize, b: usize, c: usize, player: Player) -> (r: bool)
        requires
            a < 9,
            b < 9,
            c < 9,
        ensures
            r == (self.spec_board()[a as int] == Some(player)
                && self.spec_board()[b as int] == Some(player)
                && self.spec_board()[c as int] == Some(player)),
    {
        self.cell_is(a, player) && self.cell_is(b, player) && self.cell_is(c, player)
    }

    /// Whether the player on `position` holds some winning line.
    fn check_winner(&self, position: usize) -> (r: bool)
        requires
            position < 9,
            self.spec_board()[position as int] is Some,
        ensures
            r == wins(self.spec_board(), self.spec_board()[position as int]->0),
    {
        let player = match self.board[position] {
            Some(p) => p,
            None => {
                return false;
            },
        };
        let ghost b = self.spec_board();
        let w0 = self.line_is(0, 1, 2, player);
        let w1 = self.line_is(3, 4, 5, player);
        let w2 = self.line_is(6, 7, 8, player);
        let w3 = self.line_is(0, 3, 6, player);
        let w4 = self.line_is(1, 4, 7, player);
        let w5 = self.line_is(2, 5, 8, player);
        let w6 = self.line_is(0, 4, 8, player);
        let w7 = self.line_is(2, 4, 6, player);
        let r = w0 || w1 || w2 || w3 || w4 || w5 || w6 || w7;
        proof {
            assert(w0 == line_wins(b, player, 0));
            assert(w1 == line_wins(b, player, 1));
            assert(w2 == line_wins(b, player, 2));
            assert(w3 == line_wins(b, player, 3));
            assert(w4 == line_wins(b, player, 4));
            assert(w5 == line_wins(b, player, 5));
            assert(w6 == line_wins(b, player, 6));
            assert(w7 == line_wins(b, player, 7));
            if !r {
                assert forall|i: int| 0 <= i < 8 implies !#[trigger] line_wins(b, player, i) by {
                }
            }
        }
        r
    }

    /// Whether every cell is taken.
    fn is_board_full(&self) -> (r: bool)
        ensures
            r == board_full(self.spec_board()),
    {
        for i in 0..9
            invariant
                forall|j: int| 0 <= j < i ==> self.spec_board()[j] is Some,
        {
            if self.board[i].is_none() {
                return false;
            }
        }
        true
    }

    /// Plays the current player's mark into `position` (0..9, row by row).
    /// Rejected, with the state unchanged, when the position is out of
    /// range or taken. After the move the game is marked over if the mover
    /// now holds a winning line or the board is full; only then does the
    /// turn stay with the mover, otherwise it passes to the other player.
    pub fn make_move(&mut self, position: usize) -> (success: bool)
        ensures
            success == (position < 9 && old(self).spec_board()[position as int] is None),
            !success ==> *final(self) == *old(self),
            success ==> {
                let b2 = final(self).spec_board();
                let mover = old(self).spec_current_player();
                &&& b2[position as int] == Some(mover)
                &&& forall|i: int| 0 <= i < 9 && i != position ==> b2[i] == old(self).spec_board()[i]
                &&& final(self).spec_game_over() == (old(self).spec_game_over() || wins(b2, mover)
                    || board_full(b2))
                &&& final(self).spec_current_player() == (if wins(b2, mover) || board_full(b2) {
                    mover
                } else {
                    other_player(mover)
                })
            },
    {
        if position >= 9 || self.board[position].is_some() {
            return false;
        }

        self.board[position] = Some(self.current_player);

        if self.check_winner(position) {
            self.game_over = true;
        } else if self.is_board_full() {
            self.game_over = true;
        } else {
            self.current_player = match self.current_player {
                Player::X => Player::O,
                Player::O => Player::X,
            };
        }

        true
    }

    /// Whether the game has ended.
    pub fn is_game_over(&self) -> (r: bool)
        ensures
            r == self.spec_game_over(),
    {
        self.game_over
    }

    /// The winner, once the game has ended: the player of the first winning
    /// line in the fixed scan order, or `None` for a draw (or while the
    /// game is running).
    pub fn get_winner(&self) -> (r: Option<Player>)
        ensures
            !self.spec_game_over() ==> r is None,
            self.spec_game_over() ==> r == first_winner_from(self.spec_board(), 0),
            r is Some ==> wins(self.spec_board(), r->0),
            self.spec_game_over() && r is None ==> forall|p: Player| !wins(self.spec_board(), p),
    {
        let ghost b = self.spec_board();
        proof {
            lemma_first_winner(b, 0);
        }
        if !self.game_over {
            return None;
        }

        if let Some(p) = self.board[0] {
            if self.line_is(0, 1, 2, p) {
                proof {
                    assert(first_winner_from(b, 0) == Some(p));
                }
                return Some(p);
            }
        }
        proof {
            assert(first_winner_from(b, 0) == first_winner_from(b, 1));
        }
        if let Some(p) = self.board[3] {
            if self.line_is(3, 4, 5, p) {
                proof {
                    assert(first_winner_from(b, 1) == Some(p));
                }
                return Some(p);
            }
        }
        proof {
            assert(first_winner_from(b, 1) == first_winner_from(b, 2));
        }
        if let Some(p) = self.board[6] {
            if self.line_is(6, 7, 8, p) {
                proof {
                    assert(first_winner_from(b, 2) == Some(p));
                }
                return Some(p);
            }
        }
        proof {
            assert(first_winner_from(b, 2) == first_winner_from(b, 3));
        }
        if let Some(p) = self.board[0] {
            if self.line_is(0, 3, 6, p) {
                proof {
                    assert(first_winner_from(b, 3) == Some(p));
                }
                return Some(p);
            }
        }
        proof {
            assert(first_winner_from(b, 3) == first_winner_from(b, 4));
        }
        if let Some(p) = self.board[1] {
            if self.line_is(1, 4, 7, p) {
                proof {
                    assert(first_winner_from(b, 4) == Some(p));
                }
                return Some(p);
            }
        }
        proof {
            assert(first_winner_from(b, 4) == first_winner_from(b, 5));
        }
        if let Some(p) = self.board[2] {
            if self.line_is(2, 5, 8, p) {
                proof {
                    assert(first_winner_from(b, 5) == Some(p));
                }
                return Some(p);
            }
        }
        proof {
            assert(first_winner_from(b, 5) == first_winner_from(b, 6));
        }
        if let Some(p) = self.board[0] {
            if self.line_is(0, 4, 8, p) {
                proof {
                    assert(first_winner_from(b, 6) == Some(p));
                }
                return Some(p);
            }
        }
        proof {
            assert(first_winner_from(b, 6) == first_winner_from(b, 7));
        }
        if let Some(p) = self.board[2] {
            if self.line_is(2, 4, 6, p) {
                proof {
                    assert(first_winner_from(b, 7) == Some(p));
                }
                return Some(p);
            }
        }
        proof {
            assert(first_winner_from(b, 7) == first_winner_from(b, 8));
        }

        proof {
            assert(first_winner_from(b, 8) is None);
        }
        None
    }

    /// A copy of the board.
    pub fn get_board(&self) -> (b: [Option<Player>; 9])
        ensures
            b == self.spec_board(),
    {
        self.board
    }

    /// Replaces the board.
    pub fn set_board(&mut self, board: [Option<Player>; 9])
        ensures
            final(self).spec_board() == board,
            final(self).spec_current_player() == old(self).spec_current_player(),
            final(self).spec_game_over() == old(self).spec_game_over(),
    {
        self.board = board;
    }

    /// Sets the player to move.
    pub fn set_current_player(&mut self, player: Player)
        ensures
            final(self).spec_board() == old(self).spec_board(),
            final(self).spec_current_player() == player,
            final(self).spec_game_over() == old(self).spec_game_over(),
    {
        self.current_player = player;
    }
}

} // verus!

//! The checkers rules engine: board model, move validation, capture search,
//! and turn control, on an 8x8 board with mandatory captures and multi-jumps.
//!
//! White sits on rows 0..3 and moves toward increasing rows; Black sits on
//! rows 5..8 and moves toward decreasing rows. Pieces live only on playable
//! (dark) squares, where row + column is odd.

use vstd::prelude::*;

verus! {

/// A side in checkers. White moves first, toward increasing row numbers;
/// Black moves toward decreasing row numbers.
#[derive(Clone, Copy, PartialEq, Eq, Structural, Debug)]
pub enum CheckersPlayer {
    White,
    Black,
}

impl CheckersPlayer {
    /// The symbol used to display a regular piece of this side.
    pub fn symbol(&self) -> (r: &'static str)
        ensures
            self is White ==> r@ == "\u{26aa}"@,
            self is Black ==> r@ == "\u{26ab}"@,
    {
        match self {
            CheckersPlayer::White => "\u{26aa}",
            CheckersPlayer::Black => "\u{26ab}",
        }
    }

    /// The symbol used to display a king of this side.
    pub fn king_symbol(&self) -> (r: &'static str)
        ensures
            r@ == "\u{1f451}"@,
    {
        match self {
            CheckersPlayer::White => "\u{1f451}",
            CheckersPlayer::Black => "\u{1f451}",
        }
    }

    /// The forward row direction of a regular piece of this side.
    pub fn direction(&self) -> (d: i32)
        ensures
            d == spec_direction(*self),
    {
        match self {
            CheckersPlayer::White => 1,
            CheckersPlayer::Black => -1,
        }
    }
}

/// The forward row direction of a regular piece: +1 for White, -1 for Black.
pub open spec fn spec_direction(p: CheckersPlayer) -> int {
    match p {
        CheckersPlayer::White => 1,
        CheckersPlayer::Black => -1,
    }
}

/// The side opposing `p`.
pub open spec fn opponent(p: CheckersPlayer) -> CheckersPlayer {
    match p {
        CheckersPlayer::White => CheckersPlayer::Black,
        CheckersPlayer::Black => CheckersPlayer::White,
    }
}

/// The kind of a piece: a regular piece or a promoted king.
#[derive(Clone, Copy, PartialEq, Eq, Structural, Debug)]
pub enum CheckerType {
    Regular,
    King,
}

/// A piece on the board: its owner and its kind.
#[derive(Clone, Copy, PartialEq, Eq, Structural, Debug)]
pub struct Checker {
    pub player: CheckersPlayer,
    pub checker_type: CheckerType,
}

impl Checker {
    /// A new regular piece of the given side.
    pub fn new(player: CheckersPlayer) -> (r: Self)
        ensures
            r == (Checker { player, checker_type: CheckerType::Regular }),
    {
        Self { player, checker_type: CheckerType::Regular }
    }

    /// A new king of the given side.
    pub fn new_king(player: CheckersPlayer) -> (r: Self)
        ensures
            r == (Checker { player, checker_type: CheckerType::King }),
    {
        Self { player, checker_type: CheckerType::King }
    }

    /// Promotes this piece to a king; the owner is unchanged.
    pub fn promote_to_king(&mut self)
        ensures
            *final(self) == (Checker { player: old(self).player, checker_type: CheckerType::King }),
    {
        self.checker_type = CheckerType::King;
    }

    /// Whether this piece is a king.
    pub fn is_king(&self) -> (r: bool)
        ensures
            r == (self.checker_type is King),
    {
        matches!(self.checker_type, CheckerType::King)
    }
}

/// A move: origin, destination, and the squares of the captured pieces, in
/// the order they were taken (empty for a quiet move).
#[derive(Debug)]
pub struct CheckersMove {
    pub from: (usize, usize),
    pub to: (usize, usize),
    pub captures: Vec<(usize, usize)>,
}

impl CheckersMove {
    /// A quiet move from one square to another, with no captures.
    pub fn new(from_row: usize, from_col: usize, to_row: usize, to_col: usize) -> (r: Self)
        ensures
            r.from == (from_row, from_col),
            r.to == (to_row, to_col),
            r.captures@ == Seq::<(usize, usize)>::empty(),
    {
        Self { from: (from_row, from_col), to: (to_row, to_col), captures: Vec::new() }
    }

    /// A move that captures the pieces on the given squares.
    pub fn with_captures(from: (usize, usize), to: (usize, usize), captures: Vec<(usize, usize)>) -> (r: Self)
        ensures
            r.from == from,
            r.to == to,
            r.captures == captures,
    {
        Self { from, to, captures }
    }
}

/// A copy of a vector of squares.
fn copy_positions(v: &Vec<(usize, usize)>) -> (r: Vec<(usize, usize)>)
    ensures
        r@ == v@,
{
    let mut r: Vec<(usize, usize)> = Vec::new();
    for i in 0..v.len()
        invariant
            r@ == v@.subrange(0, i as int),
    {
        r.push(v[i]);
    }
    proof {
        assert(r@ =~= v@);
    }
    r
}

/// Whether the vector of squares contains (r, c).
fn contains_pos(v: &Vec<(usize, usize)>, r: usize, c: usize) -> (found: bool)
    ensures
        found == excl_contains(v@, r as int, c as int),
{
    let mut i: usize = 0;
    while i < v.len()
        invariant
            i <= v.len(),
            forall|k: int| 0 <= k < i ==> !(v@[k].0 == r && v@[k].1 == c),
        decreases v.len() - i,
    {
        let p = v[i];
        if p.0 == r && p.1 == c {
            return true;
        }
        i = i + 1;
    }
    false
}

impl Clone for CheckersMove {
    /// A deep copy of this move.
    fn clone(&self) -> (r: Self)
        ensures
            r.from == self.from,
            r.to == self.to,
            r.captures@ == self.captures@,
    {
        Self { from: self.from, to: self.to, captures: copy_positions(&self.captures) }
    }
}

/// The kind of a committed move, for the move history.
#[derive(Debug, Clone, Copy)]
pub enum MoveType {
    Regular,
    Capture,
    Promotion,
    CaptureWithPromotion,
}

/// One entry of the move history: which side moved where, what was captured,
/// and a textual snapshot of the board after the move.
#[derive(Debug)]
pub struct MoveLog {
    pub move_number: usize,
    pub player: CheckersPlayer,
    pub from: (usize, usize),
    pub to: (usize, usize),
    pub move_type: MoveType,
    pub captured: Vec<(usize, usize)>,
    pub board_after: String,
}

impl Clone for MoveLog {
    /// A deep copy of this history entry.
    fn clone(&self) -> (r: Self)
        ensures
            r.move_number == self.move_number,
            r.player == self.player,
            r.from == self.from,
            r.to == self.to,
            r.captured@ == self.captured@,
            r.board_after@ == self.board_after@,
    {
        Self {
            move_number: self.move_number,
            player: self.player,
            from: self.from,
            to: self.to,
            move_type: self.move_type,
            captured: copy_positions(&self.captured),
            board_after: self.board_after.clone(),
        }
    }
}

/// The 8x8 board: a total map from squares to optional pieces.
pub type Board = [[Option<Checker>; 8]; 8];

/// Whether (r, c) is a square of the 8x8 board.
pub open spec fn on_board(r: int, c: int) -> bool {
    0 <= r < 8 && 0 <= c < 8
}

/// Whether (r, c) is a playable (dark) square: row + column is odd.
pub open spec fn playable(r: int, c: int) -> bool {
    (r + c) % 2 == 1
}

/// Whether the cell holds a piece of side `p`.
pub open spec fn is_piece_of(cell: Option<Checker>, p: CheckersPlayer) -> bool {
    match cell {
        Some(ch) => ch.player == p,
        None => false,
    }
}

/// The piece the standard initial setup places on (r, c): three rows of
/// regular pieces per side, on playable squares only.
pub open spec fn initial_cell(r: int, c: int) -> Option<Checker> {
    if playable(r, c) && 0 <= r < 3 {
        Some(Checker { player: CheckersPlayer::White, checker_type: CheckerType::Regular })
    } else if playable(r, c) && 5 <= r < 8 {
        Some(Checker { player: CheckersPlayer::Black, checker_type: CheckerType::Regular })
    } else {
        None
    }
}

/// Whether every occupied square of the board is playable.
pub open spec fn playable_only(b: Board) -> bool {
    forall|r: int, c: int| on_board(r, c) && b[r][c] is Some ==> playable(r, c)
}

/// How many of the first `n` cells of `row` hold a piece of side `p`.
pub open spec fn row_count(row: [Option<Checker>; 8], p: CheckersPlayer, n: int) -> nat
    decreases n,
{
    if n <= 0 {
        0
    } else {
        row_count(row, p, n - 1) + (if is_piece_of(row[n - 1], p) { 1nat } else { 0nat })
    }
}

/// How many pieces of side `p` stand in the first `n` rows of `b`.
pub open spec fn count_rows(b: Board, p: CheckersPlayer, n: int) -> nat
    decreases n,
{
    if n <= 0 {
        0
    } else {
        count_rows(b, p, n - 1) + row_count(b[n - 1], p, 8)
    }
}

/// How many pieces of side `p` stand on the board.
pub open spec fn piece_count(b: Board, p: CheckersPlayer) -> nat {
    count_rows(b, p, 8)
}

/// The winner a finished game reports: the side whose opponent has no
/// pieces left, if any.
pub open spec fn spec_winner(b: Board) -> Option<CheckersPlayer> {
    if piece_count(b, CheckersPlayer::White) == 0 {
        Some(CheckersPlayer::Black)
    } else if piece_count(b, CheckersPlayer::Black) == 0 {
        Some(CheckersPlayer::White)
    } else {
        None
    }
}

proof fn lemma_row_count_pointwise(r1: [Option<Checker>; 8], r2: [Option<Checker>; 8], p: CheckersPlayer, n: int)
    requires
        n <= 8,
        forall|j: int| 0 <= j < n ==> r1[j] == r2[j],
    ensures
        row_count(r1, p, n) == row_count(r2, p, n),
    decreases n,
{
    if n > 0 {
        lemma_row_count_pointwise(r1, r2, p, n - 1);
    }
}

proof fn lemma_row_count_update(r1: [Option<Checker>; 8], r2: [Option<Checker>; 8], p: CheckersPlayer, c: int, n: int)
    requires
        0 <= c < n <= 8,
        forall|j: int| 0 <= j < 8 && j != c ==> r1[j] == r2[j],
    ensures
        row_count(r2, p, n) == row_count(r1, p, n)
            - (if is_piece_of(r1[c], p) { 1int } else { 0int })
            + (if is_piece_of(r2[c], p) { 1int } else { 0int }),
    decreases n,
{
    if c == n - 1 {
        lemma_row_count_pointwise(r1, r2, p, n - 1);
    } else {
        lemma_row_count_update(r1, r2, p, c, n - 1);
    }
}

proof fn lemma_count_rows_pointwise(b1: Board, b2: Board, p: CheckersPlayer, n: int)
    requires
        n <= 8,
        forall|i: int, j: int| 0 <= i < n && 0 <= j < 8 ==> b1[i][j] == b2[i][j],
    ensures
        count_rows(b1, p, n) == count_rows(b2, p, n),
    decreases n,
{
    if n > 0 {
        lemma_count_rows_pointwise(b1, b2, p, n - 1);
        lemma_row_count_pointwise(b1[n - 1], b2[n - 1], p, 8);
    }
}

/// Changing the single cell (r, c) changes the count of each side by the
/// difference the cell contributes.
proof fn lemma_count_update(b1: Board, b2: Board, p: CheckersPlayer, r: int, c: int, n: int)
    requires
        0 <= r < n <= 8,
        0 <= c < 8,
        forall|i: int, j: int| 0 <= i < 8 && 0 <= j < 8 && !(i == r && j == c) ==> b1[i][j] == b2[i][j],
    ensures
        count_rows(b2, p, n) == count_rows(b1, p, n)
            - (if is_piece_of(b1[r][c], p) { 1int } else { 0int })
            + (if is_piece_of(b2[r][c], p) { 1int } else { 0int }),
    decreases n,
{
    if r == n - 1 {
        lemma_count_rows_pointwise(b1, b2, p, n - 1);
        lemma_row_count_update(b1[n - 1], b2[n - 1], p, c, 8);
    } else {
        lemma_count_update(b1, b2, p, r, c, n - 1);
        lemma_row_count_pointwise(b1[n - 1], b2[n - 1], p, 8);
    }
}

/// The absolute value of `x`.
pub open spec fn abs_diff(x: int) -> int {
    if x < 0 {
        -x
    } else {
        x
    }
}

/// The step direction toward a destination: +1 when it lies ahead, -1 when
/// behind (matching the move validator, which never steps a zero distance).
pub open spec fn step_sign(x: int) -> int {
    if x > 0 {
        1
    } else {
        -1
    }
}

/// Whether the `n` squares after (r, c) along the diagonal direction
/// (sr, sc) are all empty.
pub open spec fn ray_clear(b: Board, r: int, c: int, sr: int, sc: int, n: int) -> bool
    decreases n,
{
    n <= 0 || (b[r + sr][c + sc] is None && ray_clear(b, r + sr, c + sc, sr, sc, n - 1))
}

proof fn lemma_ray_clear_index(b: Board, r: int, c: int, sr: int, sc: int, n: int, k: int)
    requires
        ray_clear(b, r, c, sr, sc, n),
        1 <= k <= n,
    ensures
        b[r + k * sr][c + k * sc] is None,
    decreases k,
{
    if k == 1 {
        assert(b[r + sr][c + sc] is None);
    } else {
        lemma_ray_clear_index(b, r + sr, c + sc, sr, sc, n - 1, k - 1);
        assert(r + sr + (k - 1) * sr == r + k * sr) by (nonlinear_arith);
        assert(c + sc + (k - 1) * sc == c + k * sc) by (nonlinear_arith);
    }
}

proof fn lemma_ray_clear_snoc(b: Board, r: int, c: int, sr: int, sc: int, n: int)
    requires
        ray_clear(b, r, c, sr, sc, n),
        n >= 0,
        b[r + (n + 1) * sr][c + (n + 1) * sc] is None,
    ensures
        ray_clear(b, r, c, sr, sc, n + 1),
    decreases n,
{
    assert((n + 1) * sr == n * sr + sr) by (nonlinear_arith);
    assert((n + 1) * sc == n * sc + sc) by (nonlinear_arith);
    if n == 0 {
        lemma_mul_step(0, sr);
        lemma_mul_step(0, sc);
        assert(b[r + sr][c + sc] is None);
        assert(ray_clear(b, r + sr, c + sc, sr, sc, 0));
    } else {
        assert(b[r + sr][c + sc] is None && ray_clear(b, r + sr, c + sc, sr, sc, n - 1));
        lemma_ray_clear_snoc(b, r + sr, c + sc, sr, sc, n - 1);
        assert(ray_clear(b, r + sr, c + sc, sr, sc, n));
    }
    assert(ray_clear(b, r, c, sr, sc, n + 1));
}

/// Whether every square strictly between (fr, fc) and (tr, tc) along their
/// diagonal is empty.
pub open spec fn path_clear(b: Board, fr: int, fc: int, tr: int, tc: int) -> bool {
    ray_clear(b, fr, fc, step_sign(tr - fr), step_sign(tc - fc), abs_diff(tr - fr) - 1)
}

/// Whether a move two squares away in both coordinates is classified as a
/// capture attempt.
pub open spec fn spec_capture_geom(fr: int, fc: int, tr: int, tc: int) -> bool {
    abs_diff(tr - fr) == 2 && abs_diff(tc - fc) == 2
}

/// The move validator: whether `ch` may step from (fr, fc) to (tr, tc) on
/// board `b`, for quiet moves and single-step (midpoint) captures. The move
/// must be diagonal; a distance of exactly two rows is a capture and needs
/// an opposing piece on the midpoint; any other distance is a quiet move and
/// needs a clear path. Regular pieces move and capture strictly forward, one
/// (or, capturing, two) squares; kings move any nonzero distance.
pub open spec fn spec_is_valid_move(b: Board, fr: int, fc: int, tr: int, tc: int, ch: Checker) -> bool {
    let dr = tr - fr;
    let dc = tc - fc;
    &&& abs_diff(dr) == abs_diff(dc)
    &&& match ch.checker_type {
        CheckerType::Regular => {
            if abs_diff(dr) == 2 {
                dr == 2 * spec_direction(ch.player) && abs_diff(dc) == 2
            } else {
                dr == spec_direction(ch.player) && abs_diff(dc) == 1
            }
        },
        CheckerType::King => abs_diff(dr) >= 1 && abs_diff(dc) >= 1,
    }
    &&& if abs_diff(dr) == 2 {
        match b[(fr + tr) / 2][(fc + tc) / 2] {
            Some(mid) => mid.player != ch.player,
            None => false,
        }
    } else {
        path_clear(b, fr, fc, tr, tc)
    }
}

/// Whether a regular piece of `ch`'s side reaching row `r` is promoted: the
/// farthest row for its side (7 for White, 0 for Black).
pub open spec fn promotes(ch: Checker, r: int) -> bool {
    ch.checker_type is Regular && r == (if ch.player is White { 7int } else { 0int })
}

/// Whether the list of already-captured squares contains (r, c).
pub open spec fn excl_contains(excl: Seq<(usize, usize)>, r: int, c: int) -> bool {
    exists|k: int| 0 <= k < excl.len() && excl[k].0 == r && excl[k].1 == c
}

proof fn lemma_excl_contains_push(excl: Seq<(usize, usize)>, v: (usize, usize), r: int, c: int)
    ensures
        excl_contains(excl.push(v), r, c) <==> (excl_contains(excl, r, c) || (v.0 == r && v.1 == c)),
{
    assert(excl.push(v)[excl.len() as int] == v);
    assert(forall|k: int| 0 <= k < excl.len() ==> excl.push(v)[k] == excl[k]);
    if excl_contains(excl.push(v), r, c) {
        let k = choose|k: int| 0 <= k < excl.push(v).len() && excl.push(v)[k].0 == r && excl.push(v)[k].1 == c;
        if k < excl.len() {
            assert(excl[k].0 == r && excl[k].1 == c);
        }
    }
    if excl_contains(excl, r, c) {
        let k = choose|k: int| 0 <= k < excl.len() && excl[k].0 == r && excl[k].1 == c;
        assert(excl.push(v)[k].0 == r && excl.push(v)[k].1 == c);
    }
}

/// Whether `dr` is a row direction in which `ch` may capture: strictly
/// forward for a regular piece, either way for a king.
pub open spec fn capture_dir_ok(ch: Checker, dr: int) -> bool {
    match ch.checker_type {
        CheckerType::Regular => dr == spec_direction(ch.player),
        CheckerType::King => dr == 1 || dr == -1,
    }
}

/// Whether `ch` standing on (r, c) can jump in direction (dr, dc): an
/// opposing, not yet captured piece on the adjacent square, and an empty
/// playable landing square just beyond it.
pub open spec fn jumpable_dir(b: Board, ch: Checker, r: int, c: int, dr: int, dc: int, excl: Seq<(usize, usize)>) -> bool {
    &&& on_board(r + dr, c + dc)
    &&& is_piece_of(b[r + dr][c + dc], opponent(ch.player))
    &&& !excl_contains(excl, r + dr, c + dc)
    &&& on_board(r + 2 * dr, c + 2 * dc)
    &&& playable(r + 2 * dr, c + 2 * dc)
    &&& b[r + 2 * dr][c + 2 * dc] is None
}

/// Whether `ch` standing on (r, c) has at least one capture available, not
/// counting pieces already captured earlier in the chain.
pub open spec fn can_capture(b: Board, ch: Checker, r: int, c: int, excl: Seq<(usize, usize)>) -> bool {
    exists|dr: int, dc: int|
        capture_dir_ok(ch, dr) && (dc == 1 || dc == -1) && jumpable_dir(b, ch, r, c, dr, dc, excl)
}

/// One jump of `ch` from (r, c) over the victim on (vr, vc), landing on
/// (lr, lc): the victim is adjacent in a legal capture direction and not yet
/// captured, and every square beyond it up to and including the landing
/// square is empty. A regular piece lands directly behind the victim; a king
/// may land any distance along the ray.
pub open spec fn jump_ok_dir(
    b: Board, ch: Checker, r: int, c: int, vr: int, vc: int, lr: int, lc: int,
    excl: Seq<(usize, usize)>, dr: int, dc: int, m: int,
) -> bool {
    &&& capture_dir_ok(ch, dr)
    &&& (dc == 1 || dc == -1)
    &&& vr == r + dr && vc == c + dc
    &&& on_board(vr, vc)
    &&& is_piece_of(b[vr][vc], opponent(ch.player))
    &&& !excl_contains(excl, vr, vc)
    &&& m >= 1
    &&& (ch.checker_type is Regular ==> m == 1)
    &&& lr == vr + m * dr && lc == vc + m * dc
    &&& on_board(lr, lc)
    &&& playable(lr, lc)
    &&& ray_clear(b, vr, vc, dr, dc, m)
}

/// Whether some direction and landing distance make the jump valid.
pub open spec fn jump_ok(
    b: Board, ch: Checker, r: int, c: int, vr: int, vc: int, lr: int, lc: int,
    excl: Seq<(usize, usize)>,
) -> bool {
    exists|dr: int, dc: int, m: int| jump_ok_dir(b, ch, r, c, vr, vc, lr, lc, excl, dr, dc, m)
}

/// Whether `victims` is a valid chain of jumps of `ch` starting on (r, c)
/// and ending on `to`, where the pieces on the `excl` squares were captured
/// before the chain started. The board is read as it stands before the whole
/// chain: captured pieces still occupy their squares and are only excluded
/// from being jumped twice.
pub open spec fn chain_ok(
    b: Board, ch: Checker, r: int, c: int, victims: Seq<(usize, usize)>, to: (usize, usize),
    excl: Seq<(usize, usize)>,
) -> bool
    decreases victims.len(),
{
    if victims.len() == 0 {
        false
    } else if victims.len() == 1 {
        jump_ok(b, ch, r, c, victims[0].0 as int, victims[0].1 as int, to.0 as int, to.1 as int, excl)
    } else {
        exists|lr: int, lc: int|
            jump_ok(b, ch, r, c, victims[0].0 as int, victims[0].1 as int, lr, lc, excl)
                && chain_ok(b, ch, lr, lc, victims.skip(1), to, excl.push(victims[0]))
    }
}

/// One jump of `ch` from (r, c) in direction (dr, dc): the victim `v` on
/// the adjacent square holds an opposing, not yet captured piece, and the
/// landing square `l` lies some admissible distance beyond it over squares
/// that are all on the board, playable and empty.
pub open spec fn jump_step_dir_ok(
    b: Board, ch: Checker, r: int, c: int, v: (usize, usize), l: (usize, usize),
    excl: Seq<(usize, usize)>, dr: int, dc: int,
) -> bool {
    &&& v.0 == r + dr && v.1 == c + dc
    &&& on_board(r + dr, c + dc)
    &&& is_piece_of(b[r + dr][c + dc], opponent(ch.player))
    &&& !excl_contains(excl, r + dr, c + dc)
    &&& exists|m: int|
        1 <= m && (ch.checker_type is Regular ==> m == 1)
            && l.0 == r + (m + 1) * dr && l.1 == c + (m + 1) * dc
            && #[trigger] quiet_ray_ok(b, r + dr, c + dc, dr, dc, m)
}

/// One jump of `ch` from (r, c), in some legal capture direction.
pub open spec fn jump_step_ok(
    b: Board, ch: Checker, r: int, c: int, v: (usize, usize), l: (usize, usize),
    excl: Seq<(usize, usize)>,
) -> bool {
    exists|dr: int, dc: int|
        capture_dir_ok(ch, dr) && (dc == 1 || dc == -1)
            && #[trigger] jump_step_dir_ok(b, ch, r, c, v, l, excl, dr, dc)
}

/// A chain of jumps of `ch` starting on (r, c), given as its sequence of
/// (victim, landing) pairs: each jump starts where the previous one
/// landed, and no piece is jumped twice.
pub open spec fn chain_steps_ok(
    b: Board, ch: Checker, r: int, c: int, steps: Seq<((usize, usize), (usize, usize))>,
    excl: Seq<(usize, usize)>,
) -> bool
    decreases steps.len(),
{
    steps.len() == 0 || (jump_step_ok(b, ch, r, c, steps[0].0, steps[0].1, excl)
        && chain_steps_ok(b, ch, steps[0].1.0 as int, steps[0].1.1 as int, steps.skip(1), excl.push(steps[0].0)))
}

/// The victims of a chain of jumps, in order.
pub open spec fn step_victims(steps: Seq<((usize, usize), (usize, usize))>) -> Seq<(usize, usize)> {
    steps.map_values(|st: ((usize, usize), (usize, usize))| st.0)
}

/// Whether a move `m` of `ch`, standing on (r, c) with the pieces on `excl`
/// already captured, records a valid continuation: its capture list starts
/// with `excl` and goes on with a valid chain of jumps from (r, c) to `m.to`.
pub open spec fn chain_extension_ok(b: Board, ch: Checker, r: int, c: int, m: CheckersMove, excl: Seq<(usize, usize)>) -> bool {
    &&& m.captures@.len() > excl.len()
    &&& m.captures@.subrange(0, excl.len() as int) == excl
    &&& chain_ok(b, ch, r, c, m.captures@.skip(excl.len() as int), m.to, excl)
}

/// Whether `mv` records exactly one jump from (r, c) over the victim on
/// (vr, vc) to the landing square (lr, lc), appended to the earlier
/// captures `excl`.
pub open spec fn records_jump(mv: CheckersMove, r: int, c: int, vr: int, vc: int, lr: int, lc: int, excl: Seq<(usize, usize)>) -> bool {
    &&& mv.from.0 == r && mv.from.1 == c
    &&& mv.to.0 == lr && mv.to.1 == lc
    &&& mv.captures@.len() == excl.len() + 1
    &&& mv.captures@.subrange(0, excl.len() as int) == excl
    &&& mv.captures@.last().0 == vr && mv.captures@.last().1 == vc
}

/// Whether `post` extends `pre` only with moves that record valid capture
/// chains of `ch` from (r, c), given the already-captured squares `excl`.
pub open spec fn added_moves_ok(b: Board, ch: Checker, r: int, c: int, pre: Seq<CheckersMove>, post: Seq<CheckersMove>, excl: Seq<(usize, usize)>) -> bool {
    &&& pre.len() <= post.len()
    &&& post.subrange(0, pre.len() as int) == pre
    &&& forall|i: int| pre.len() <= i < post.len() ==> chain_extension_ok(b, ch, r, c, #[trigger] post[i], excl)
}

proof fn lemma_added_moves_trans(b: Board, ch: Checker, r: int, c: int, s0: Seq<CheckersMove>, s1: Seq<CheckersMove>, s2: Seq<CheckersMove>, excl: Seq<(usize, usize)>)
    requires
        added_moves_ok(b, ch, r, c, s0, s1, excl),
        added_moves_ok(b, ch, r, c, s1, s2, excl),
    ensures
        added_moves_ok(b, ch, r, c, s0, s2, excl),
{
    assert(forall|i: int| 0 <= i < s1.len() ==> s2[i] == s1[i]) by {
        assert(forall|i: int| 0 <= i < s1.len() ==> s2.subrange(0, s1.len() as int)[i] == s2[i]);
    }
    assert(s2.subrange(0, s0.len() as int) =~= s0);
    assert forall|i: int| s0.len() <= i < s2.len() implies chain_extension_ok(b, ch, r, c, #[trigger] s2[i], excl) by {
        if i < s1.len() {
            assert(chain_extension_ok(b, ch, r, c, s1[i], excl));
        }
    }
}

proof fn lemma_seq_prefix_index<T>(s2: Seq<T>, s1: Seq<T>)
    requires
        s1.len() <= s2.len(),
        s2.subrange(0, s1.len() as int) == s1,
    ensures
        forall|j: int| 0 <= j < s1.len() ==> s2[j] == #[trigger] s1[j],
{
    assert(forall|j: int| 0 <= j < s1.len() ==> s2.subrange(0, s1.len() as int)[j] == s2[j]);
}

proof fn lemma_mul_step(k: int, s: int)
    ensures
        (k + 1) * s == k * s + s,
        1 * s == s,
{
    assert((k + 1) * s == k * s + s) by (nonlinear_arith);
}

/// A jump prepended to a valid chain from its landing square is a valid
/// longer chain.
proof fn lemma_chain_cons(
    b: Board, ch: Checker, r: int, c: int, victim: (usize, usize), lr: int, lc: int,
    suffix: Seq<(usize, usize)>, to: (usize, usize), excl: Seq<(usize, usize)>,
)
    requires
        jump_ok(b, ch, r, c, victim.0 as int, victim.1 as int, lr, lc, excl),
        chain_ok(b, ch, lr, lc, suffix, to, excl.push(victim)),
    ensures
        chain_ok(b, ch, r, c, seq![victim] + suffix, to, excl),
{
    let victims = seq![victim] + suffix;
    assert(victims[0] == victim);
    assert(victims.skip(1) =~= suffix);
    assert(suffix.len() >= 1);
    assert(victims.len() >= 2);
    assert(jump_ok(b, ch, r, c, victims[0].0 as int, victims[0].1 as int, lr, lc, excl)
        && chain_ok(b, ch, lr, lc, victims.skip(1), to, excl.push(victims[0])));
}

/// Lifting one recursion level of the capture search: the moves a
/// recursive call adds from the landing square, valid there with the victim
/// newly excluded, are valid chain extensions from the jumping square.
proof fn lemma_lift_chain_extensions(
    b: Board, ch: Checker, r: int, c: int, victim: (usize, usize), lr: int, lc: int,
    excl: Seq<(usize, usize)>, s0: Seq<CheckersMove>, s1: Seq<CheckersMove>,
)
    requires
        jump_ok(b, ch, r, c, victim.0 as int, victim.1 as int, lr, lc, excl),
        added_moves_ok(b, ch, lr, lc, s0, s1, excl.push(victim)),
    ensures
        forall|j: int| s0.len() <= j < s1.len() ==> chain_extension_ok(b, ch, r, c, #[trigger] s1[j], excl),
{
    let new_excl = excl.push(victim);
    assert forall|j: int| s0.len() <= j < s1.len()
        implies chain_extension_ok(b, ch, r, c, #[trigger] s1[j], excl) by {
        let mv = s1[j];
        assert(chain_extension_ok(b, ch, lr, lc, mv, new_excl));
        assert(mv.captures@.len() > excl.len());
        assert(mv.captures@.subrange(0, new_excl.len() as int) == new_excl);
        assert(forall|k: int| 0 <= k < new_excl.len()
            ==> mv.captures@.subrange(0, new_excl.len() as int)[k] == mv.captures@[k]);
        assert(mv.captures@.subrange(0, excl.len() as int) =~= excl);
        assert(mv.captures@[excl.len() as int] == victim);
        let victims = mv.captures@.skip(excl.len() as int);
        let suffix = mv.captures@.skip(new_excl.len() as int);
        assert(suffix =~= victims.skip(1));
        assert(victims[0] == victim);
        assert(chain_ok(b, ch, lr, lc, suffix, mv.to, new_excl));
        lemma_chain_cons(b, ch, r, c, victim, lr, lc, suffix, mv.to, excl);
        assert(seq![victim] + suffix =~= victims);
    }
}

/// One iteration of the landing loop keeps the shape facts of a
/// direction's additions: every added move carries the direction's victim
/// right after the inherited prefix; the single-jump moves land on
/// enumerated squares, pairwise distinct.
proof fn lemma_push_iteration_shape(
    b: Board, ch: Checker, row: int, col: int, dr: int, dc: int,
    victim: (usize, usize), land_pos: (usize, usize), lands: Seq<(usize, usize)>, i: int,
    excl: Seq<(usize, usize)>, pre: Seq<CheckersMove>,
    before_push: Seq<CheckersMove>, capture_move: CheckersMove, caps: Seq<CheckersMove>,
)
    requires
        dr == 1 || dr == -1,
        victim.0 == row + dr,
        victim.1 == col + dc,
        0 <= i < lands.len(),
        land_pos == lands[i],
        forall|idx: int| 0 <= idx <= i ==> jump_ok_dir(
            b, ch, row, col, victim.0 as int, victim.1 as int,
            (#[trigger] lands[idx]).0 as int, lands[idx].1 as int, excl, dr, dc, idx + 1,
        ),
        pre.len() <= before_push.len(),
        caps.len() > before_push.len(),
        caps.subrange(0, before_push.len() as int + 1) == before_push.push(capture_move),
        capture_move.captures@ == excl.push(victim),
        capture_move.to == land_pos,
        forall|j: int| before_push.len() + 1 <= j < caps.len() ==> chain_extension_ok(
            b, ch, land_pos.0 as int, land_pos.1 as int, #[trigger] caps[j], excl.push(victim),
        ),
        forall|j: int| pre.len() <= j < before_push.len() ==> {
            let mv = #[trigger] before_push[j];
            &&& mv.captures@.len() > excl.len()
            &&& mv.captures@[excl.len() as int].0 == row + dr
            &&& mv.captures@[excl.len() as int].1 == col + dc
        },
        forall|j: int| pre.len() <= j < before_push.len()
            && (#[trigger] before_push[j]).captures@.len() == excl.len() + 1
            ==> exists|idx: int| 0 <= idx < i && before_push[j].to == #[trigger] lands[idx],
        forall|j1: int, j2: int| pre.len() <= j1 < j2 < before_push.len()
            && (#[trigger] before_push[j1]).captures@.len() == excl.len() + 1
            && (#[trigger] before_push[j2]).captures@.len() == excl.len() + 1
            ==> before_push[j1].to != before_push[j2].to,
    ensures
        forall|j: int| pre.len() <= j < caps.len() ==> {
            let mv = #[trigger] caps[j];
            &&& mv.captures@.len() > excl.len()
            &&& mv.captures@[excl.len() as int].0 == row + dr
            &&& mv.captures@[excl.len() as int].1 == col + dc
        },
        forall|j: int| pre.len() <= j < caps.len()
            && (#[trigger] caps[j]).captures@.len() == excl.len() + 1
            ==> exists|idx: int| 0 <= idx < i + 1 && caps[j].to == #[trigger] lands[idx],
        forall|j1: int, j2: int| pre.len() <= j1 < j2 < caps.len()
            && (#[trigger] caps[j1]).captures@.len() == excl.len() + 1
            && (#[trigger] caps[j2]).captures@.len() == excl.len() + 1
            ==> caps[j1].to != caps[j2].to,
{
    let after_push = before_push.push(capture_move);
    lemma_seq_prefix_index(caps, after_push);
    assert(after_push[before_push.len() as int] == capture_move);
    assert(caps[before_push.len() as int] == after_push[before_push.len() as int]);
    assert forall|j: int| 0 <= j < before_push.len() implies #[trigger] caps[j] == before_push[j] by {
        assert(caps[j] == after_push[j]);
        assert(after_push[j] == before_push[j]);
    }

    assert forall|j: int| pre.len() <= j < caps.len() implies {
        let mv = #[trigger] caps[j];
        &&& mv.captures@.len() > excl.len()
        &&& mv.captures@[excl.len() as int].0 == row + dr
        &&& mv.captures@[excl.len() as int].1 == col + dc
    } by {
        if j == before_push.len() {
            assert(capture_move.captures@[excl.len() as int] == victim);
        } else if j > before_push.len() {
            let mv = caps[j];
            assert(chain_extension_ok(b, ch, land_pos.0 as int, land_pos.1 as int, mv, excl.push(victim)));
            assert(mv.captures@.subrange(0, excl.push(victim).len() as int) == excl.push(victim));
            assert(mv.captures@.subrange(0, excl.push(victim).len() as int)[excl.len() as int]
                == mv.captures@[excl.len() as int]);
            assert(mv.captures@[excl.len() as int] == victim);
        }
    }

    assert forall|j: int|
        pre.len() <= j < caps.len() && (#[trigger] caps[j]).captures@.len() == excl.len() + 1
        implies exists|idx: int| 0 <= idx < i + 1 && caps[j].to == #[trigger] lands[idx] by {
        if j == before_push.len() {
            assert(caps[j].to == lands[i]);
        } else if j > before_push.len() {
            let mv = caps[j];
            assert(chain_extension_ok(b, ch, land_pos.0 as int, land_pos.1 as int, mv, excl.push(victim)));
            assert(mv.captures@.len() > excl.len() + 1);
        }
    }

    assert forall|idx: int| 0 <= idx < i implies lands[idx] != lands[i] by {
        assert(jump_ok_dir(
            b, ch, row, col, victim.0 as int, victim.1 as int,
            lands[idx].0 as int, lands[idx].1 as int, excl, dr, dc, idx + 1,
        ));
        assert(jump_ok_dir(
            b, ch, row, col, victim.0 as int, victim.1 as int,
            lands[i].0 as int, lands[i].1 as int, excl, dr, dc, i + 1,
        ));
        assert((idx + 1) * dr != (i + 1) * dr) by (nonlinear_arith)
            requires
                dr == 1 || dr == -1,
                0 <= idx < i,
        ;
    }

    assert forall|j1: int, j2: int|
        pre.len() <= j1 < j2 < caps.len()
            && (#[trigger] caps[j1]).captures@.len() == excl.len() + 1
            && (#[trigger] caps[j2]).captures@.len() == excl.len() + 1
        implies caps[j1].to != caps[j2].to by {
        if j2 == before_push.len() {
            let idx1 = choose|idx: int| 0 <= idx < i && before_push[j1].to == #[trigger] lands[idx];
            assert(lands[idx1] != lands[i]);
        } else if j2 > before_push.len() {
            let mv = caps[j2];
            assert(chain_extension_ok(b, ch, land_pos.0 as int, land_pos.1 as int, mv, excl.push(victim)));
            assert(mv.captures@.len() > excl.len() + 1);
        }
    }
}

/// How many of the first `n` cells of `row` (which is row `r` of the board)
/// hold a piece of side `p` whose square is not in `excl`.
pub open spec fn row_count_excl(row: [Option<Checker>; 8], p: CheckersPlayer, r: int, excl: Seq<(usize, usize)>, n: int) -> nat
    decreases n,
{
    if n <= 0 {
        0
    } else {
        row_count_excl(row, p, r, excl, n - 1)
            + (if is_piece_of(row[n - 1], p) && !excl_contains(excl, r, n - 1) { 1nat } else { 0nat })
    }
}

/// How many pieces of side `p` in the first `n` rows stand outside `excl`.
pub open spec fn count_rows_excl(b: Board, p: CheckersPlayer, excl: Seq<(usize, usize)>, n: int) -> nat
    decreases n,
{
    if n <= 0 {
        0
    } else {
        count_rows_excl(b, p, excl, n - 1) + row_count_excl(b[n - 1], p, n - 1, excl, 8)
    }
}

/// How many pieces of side `p` stand on squares not in `excl`: the measure
/// that shrinks as a capture chain grows.
pub open spec fn count_not_excluded(b: Board, p: CheckersPlayer, excl: Seq<(usize, usize)>) -> nat {
    count_rows_excl(b, p, excl, 8)
}

proof fn lemma_row_count_excl_push(row: [Option<Checker>; 8], p: CheckersPlayer, r: int, excl: Seq<(usize, usize)>, v: (usize, usize), n: int)
    requires
        0 <= n <= 8,
    ensures
        row_count_excl(row, p, r, excl.push(v), n) == row_count_excl(row, p, r, excl, n)
            - (if v.0 == r && v.1 < n && is_piece_of(row[v.1 as int], p) && !excl_contains(excl, r, v.1 as int) { 1int } else { 0int }),
    decreases n,
{
    if n > 0 {
        lemma_row_count_excl_push(row, p, r, excl, v, n - 1);
        lemma_excl_contains_push(excl, v, r, n - 1);
    }
}

proof fn lemma_count_rows_excl_push(b: Board, p: CheckersPlayer, excl: Seq<(usize, usize)>, v: (usize, usize), n: int)
    requires
        0 <= n <= 8,
    ensures
        count_rows_excl(b, p, excl.push(v), n) == count_rows_excl(b, p, excl, n)
            - (if v.0 < n && v.1 < 8 && is_piece_of(b[v.0 as int][v.1 as int], p) && !excl_contains(excl, v.0 as int, v.1 as int) { 1int } else { 0int }),
    decreases n,
{
    if n > 0 {
        lemma_count_rows_excl_push(b, p, excl, v, n - 1);
        lemma_row_count_excl_push(b[n - 1], p, n - 1, excl, v, 8);
    }
}

/// Capturing one more opposing piece shrinks the count of opposing pieces
/// outside the chain by one.
proof fn lemma_count_not_excluded_push(b: Board, p: CheckersPlayer, excl: Seq<(usize, usize)>, v: (usize, usize))
    requires
        v.0 < 8,
        v.1 < 8,
        is_piece_of(b[v.0 as int][v.1 as int], p),
        !excl_contains(excl, v.0 as int, v.1 as int),
    ensures
        count_not_excluded(b, p, excl.push(v)) == count_not_excluded(b, p, excl) - 1,
{
    lemma_count_rows_excl_push(b, p, excl, v, 8);
}

/// The one character that stands for a cell in a board snapshot: a crown
/// for a king, a circle of the side's color for a regular piece, a space
/// for an empty square.
pub open spec fn cell_char_seq(cell: Option<Checker>) -> Seq<char> {
    match cell {
        Some(ch) => if ch.checker_type is King {
            "\u{1f451}"@
        } else if ch.player is White {
            "\u{26aa}"@
        } else {
            "\u{26ab}"@
        },
        None => " "@,
    }
}

/// The snapshot of the first `n` cells of a row.
pub open spec fn row_str(row: [Option<Checker>; 8], n: int) -> Seq<char>
    decreases n,
{
    if n <= 0 {
        Seq::empty()
    } else {
        row_str(row, n - 1) + cell_char_seq(row[n - 1])
    }
}

/// The snapshot of the first `n` rows, each followed by a newline.
pub open spec fn board_str_rows(b: Board, n: int) -> Seq<char>
    decreases n,
{
    if n <= 0 {
        Seq::empty()
    } else {
        board_str_rows(b, n - 1) + row_str(b[n - 1], 8) + "\n"@
    }
}

/// The textual snapshot of a board: eight rows of cell characters, each
/// ended by a newline.
pub open spec fn board_string(b: Board) -> Seq<char> {
    board_str_rows(b, 8)
}

/// The piece as it stands after landing on row `tr`: promoted to a king on
/// the far row, unchanged otherwise.
pub open spec fn moved_checker(ch: Checker, tr: int) -> Checker {
    if promotes(ch, tr) {
        Checker { player: ch.player, checker_type: CheckerType::King }
    } else {
        ch
    }
}

/// How a committed move from (fr, fc) to (tr, tc) rewrites the board: the
/// moved piece (promoted if due) stands on the destination, the origin is
/// cleared, a capture clears the midpoint, and every other square is
/// untouched.
pub open spec fn board_transition(b1: Board, b2: Board, fr: int, fc: int, tr: int, tc: int) -> bool {
    let ch = b1[fr][fc]->0;
    let cap = spec_capture_geom(fr, fc, tr, tc);
    &&& b2[tr][tc] == Some(moved_checker(ch, tr))
    &&& b2[fr][fc] is None
    &&& (cap ==> b2[(fr + tr) / 2][(fc + tc) / 2] is None)
    &&& forall|r: int, c: int|
        on_board(r, c) && !(r == fr && c == fc) && !(r == tr && c == tc)
            && !(cap && r == (fr + tr) / 2 && c == (fc + tc) / 2) ==> b2[r][c] == b1[r][c]
}

/// When `make_move` commits: the game still runs, both squares lie on the
/// board, the origin holds a piece of the side to move, the destination is
/// an empty playable square, a capture is played whenever one is available,
/// and the step passes the move validator.
pub open spec fn move_allowed(s: Checkers, fr: int, fc: int, tr: int, tc: int) -> bool {
    &&& !s.spec_game_over()
    &&& on_board(fr, fc) && on_board(tr, tc)
    &&& match s.spec_board()[fr][fc] {
        Some(ch) => ch.player == s.spec_current_player(),
        None => false,
    }
    &&& s.spec_board()[tr][tc] is None
    &&& playable(tr, tc)
    &&& (spec_has_forced_capture(s) ==> spec_capture_geom(fr, fc, tr, tc))
    &&& spec_is_valid_move(s.spec_board(), fr, fc, tr, tc, s.spec_board()[fr][fc]->0)
}

/// The whole effect of a committed move from (fr, fc) to (tr, tc), relating
/// the state before (`s1`) to the state after (`s2`): the board transition,
/// the recorded last move, the appended history entry, the end-of-game
/// flag, and whose turn it is next. The turn stays with the mover when the
/// game ends, and also after a capture whose piece can keep capturing from
/// its landing square; otherwise it passes to the opponent.
pub open spec fn spec_move_applied(s1: Checkers, s2: Checkers, fr: int, fc: int, tr: int, tc: int) -> bool {
    let b1 = s1.spec_board();
    let b2 = s2.spec_board();
    let ch = b1[fr][fc]->0;
    let cap = spec_capture_geom(fr, fc, tr, tc);
    let mover = s1.spec_current_player();
    let new_ch = moved_checker(ch, tr);
    let promoted = promotes(ch, tr);
    &&& board_transition(b1, b2, fr, fc, tr, tc)
    &&& match s2.spec_last_move() {
        Some(m) => {
            &&& m.from.0 == fr && m.from.1 == fc
            &&& m.to.0 == tr && m.to.1 == tc
            &&& if cap {
                m.captures@.len() == 1 && m.captures@[0].0 == (fr + tr) / 2 && m.captures@[0].1 == (fc + tc) / 2
            } else {
                m.captures@.len() == 0
            }
        },
        None => false,
    }
    &&& s2.spec_history().len() == s1.spec_history().len() + 1
    &&& s2.spec_history().subrange(0, s1.spec_history().len() as int) == s1.spec_history()
    &&& {
        let e = s2.spec_history().last();
        &&& e.move_number == s1.spec_history().len() + 1
        &&& e.player == mover
        &&& e.from.0 == fr && e.from.1 == fc
        &&& e.to.0 == tr && e.to.1 == tc
        &&& e.move_type is CaptureWithPromotion <==> (cap && promoted)
        &&& e.move_type is Capture <==> (cap && !promoted)
        &&& e.move_type is Promotion <==> (!cap && promoted)
        &&& e.move_type is Regular <==> (!cap && !promoted)
        &&& if cap {
            e.captured@.len() == 1 && e.captured@[0].0 == (fr + tr) / 2 && e.captured@[0].1 == (fc + tc) / 2
        } else {
            e.captured@.len() == 0
        }
        &&& e.board_after@ == board_string(b2)
    }
    &&& s2.spec_game_over() == (piece_count(b2, CheckersPlayer::White) == 0
        || piece_count(b2, CheckersPlayer::Black) == 0)
    &&& s2.spec_current_player() == (if s2.spec_game_over() {
        mover
    } else if cap && can_capture(b2, new_ch, tr, tc, Seq::empty()) {
        mover
    } else {
        opponent(mover)
    })
}

/// Whether the `m` squares after (r, c) along (dr, dc) are all on the
/// board, playable, and empty: the squares a quiet move may pass through
/// and land on.
pub open spec fn quiet_ray_ok(b: Board, r: int, c: int, dr: int, dc: int, m: int) -> bool
    decreases m,
{
    m <= 0 || (on_board(r + dr, c + dc) && playable(r + dr, c + dc) && b[r + dr][c + dc] is None
        && quiet_ray_ok(b, r + dr, c + dc, dr, dc, m - 1))
}

proof fn lemma_quiet_ray_index(b: Board, r: int, c: int, dr: int, dc: int, m: int, k: int)
    requires
        quiet_ray_ok(b, r, c, dr, dc, m),
        1 <= k <= m,
    ensures
        on_board(r + k * dr, c + k * dc),
        playable(r + k * dr, c + k * dc),
        b[r + k * dr][c + k * dc] is None,
    decreases k,
{
    lemma_mul_step(0, dr);
    lemma_mul_step(0, dc);
    if k == 1 {
    } else {
        lemma_quiet_ray_index(b, r + dr, c + dc, dr, dc, m - 1, k - 1);
        assert(r + dr + (k - 1) * dr == r + k * dr) by (nonlinear_arith);
        assert(c + dc + (k - 1) * dc == c + k * dc) by (nonlinear_arith);
    }
}

proof fn lemma_quiet_ray_prefix(b: Board, r: int, c: int, dr: int, dc: int, m: int, k: int)
    requires
        quiet_ray_ok(b, r, c, dr, dc, m),
        0 <= k <= m,
    ensures
        quiet_ray_ok(b, r, c, dr, dc, k),
    decreases k,
{
    if k > 0 {
        lemma_quiet_ray_prefix(b, r + dr, c + dc, dr, dc, m - 1, k - 1);
    }
}

proof fn lemma_quiet_ray_snoc(b: Board, r: int, c: int, dr: int, dc: int, m: int)
    requires
        quiet_ray_ok(b, r, c, dr, dc, m),
        m >= 0,
        on_board(r + (m + 1) * dr, c + (m + 1) * dc),
        playable(r + (m + 1) * dr, c + (m + 1) * dc),
        b[r + (m + 1) * dr][c + (m + 1) * dc] is None,
    ensures
        quiet_ray_ok(b, r, c, dr, dc, m + 1),
    decreases m,
{
    lemma_mul_step(m, dr);
    lemma_mul_step(m, dc);
    if m == 0 {
        assert(quiet_ray_ok(b, r + dr, c + dc, dr, dc, 0));
    } else {
        lemma_quiet_ray_snoc(b, r + dr, c + dc, dr, dc, m - 1);
    }
    assert(quiet_ray_ok(b, r, c, dr, dc, m + 1));
}

/// Whether `dr` is a row direction in which `ch` may make a quiet move.
pub open spec fn quiet_dir_ok(ch: Checker, dr: int) -> bool {
    match ch.checker_type {
        CheckerType::Regular => dr == spec_direction(ch.player),
        CheckerType::King => dr == 1 || dr == -1,
    }
}

/// Whether `ch` standing on (r, c) has (tr, tc) as a quiet destination:
/// some legal direction and distance (one square for a regular piece, any
/// for a king) reaches it over playable empty squares only.
pub open spec fn quiet_move_ok(b: Board, ch: Checker, r: int, c: int, tr: int, tc: int) -> bool {
    exists|dr: int, dc: int, m: int|
        quiet_dir_ok(ch, dr) && (dc == 1 || dc == -1) && #[trigger] quiet_target(r, c, dr, dc, m, tr, tc)
            && m >= 1 && (ch.checker_type is Regular ==> m == 1)
            && quiet_ray_ok(b, r, c, dr, dc, m)
}

/// Whether (tr, tc) lies `m` diagonal steps from (r, c) along (dr, dc).
pub open spec fn quiet_target(r: int, c: int, dr: int, dc: int, m: int, tr: int, tc: int) -> bool {
    tr == r + m * dr && tc == c + m * dc
}

/// Whether (r, c) holds a piece of the side to move.
pub open spec fn mover_square(s: Checkers, r: int, c: int) -> bool {
    on_board(r, c) && is_piece_of(s.spec_board()[r][c], s.spec_current_player())
}

/// Whether `all` lists, for the piece on (r, c), a move from (r, c) to
/// every quiet destination that piece has.
pub open spec fn quiet_moves_covered(s: Checkers, all: Seq<CheckersMove>, r: int, c: int) -> bool {
    forall|t_r: int, t_c: int|
        #[trigger] quiet_move_ok(s.spec_board(), s.spec_board()[r][c]->0, r, c, t_r, t_c)
            ==> exists|i: int| 0 <= i < all.len()
                && (#[trigger] all[i]).from.0 == r && all[i].from.1 == c
                && all[i].to.0 == t_r && all[i].to.1 == t_c
}

/// Whether `all` lists, for the piece on (r, c), every single jump it has,
/// with each legal landing square.
pub open spec fn square_jumps_covered(s: Checkers, all: Seq<CheckersMove>, r: int, c: int) -> bool {
    forall|dr0: int, dc0: int, m0: int|
        ({
            let ch = s.spec_board()[r][c]->0;
            &&& capture_dir_ok(ch, dr0)
            &&& (dc0 == 1 || dc0 == -1)
            &&& 1 <= m0 && (ch.checker_type is Regular ==> m0 == 1)
            &&& on_board(r + dr0, c + dc0)
            &&& is_piece_of(s.spec_board()[r + dr0][c + dc0], opponent(ch.player))
            &&& #[trigger] quiet_ray_ok(s.spec_board(), r + dr0, c + dc0, dr0, dc0, m0)
        }) ==> exists|i: int| 0 <= i < all.len() && records_jump(
            #[trigger] all[i], r, c, r + dr0, c + dc0, r + (m0 + 1) * dr0, c + (m0 + 1) * dc0, Seq::empty(),
        )
}

proof fn lemma_quiet_covered_extend(s: Checkers, pre: Seq<CheckersMove>, all: Seq<CheckersMove>, r: int, c: int)
    requires
        quiet_moves_covered(s, pre, r, c),
        pre.len() <= all.len(),
        all.subrange(0, pre.len() as int) == pre,
    ensures
        quiet_moves_covered(s, all, r, c),
{
    lemma_seq_prefix_index(all, pre);
    assert forall|t_r: int, t_c: int|
        #[trigger] quiet_move_ok(s.spec_board(), s.spec_board()[r][c]->0, r, c, t_r, t_c)
            implies exists|i: int| 0 <= i < all.len()
                && (#[trigger] all[i]).from.0 == r && all[i].from.1 == c
                && all[i].to.0 == t_r && all[i].to.1 == t_c by {
        let i = choose|i: int| 0 <= i < pre.len()
            && (#[trigger] pre[i]).from.0 == r && pre[i].from.1 == c
            && pre[i].to.0 == t_r && pre[i].to.1 == t_c;
        assert(all[i] == pre[i]);
    }
}

proof fn lemma_jumps_covered_extend(s: Checkers, pre: Seq<CheckersMove>, all: Seq<CheckersMove>, r: int, c: int)
    requires
        square_jumps_covered(s, pre, r, c),
        pre.len() <= all.len(),
        all.subrange(0, pre.len() as int) == pre,
    ensures
        square_jumps_covered(s, all, r, c),
{
    lemma_seq_prefix_index(all, pre);
    assert forall|dr0: int, dc0: int, m0: int|
        ({
            let ch = s.spec_board()[r][c]->0;
            &&& capture_dir_ok(ch, dr0)
            &&& (dc0 == 1 || dc0 == -1)
            &&& 1 <= m0 && (ch.checker_type is Regular ==> m0 == 1)
            &&& on_board(r + dr0, c + dc0)
            &&& is_piece_of(s.spec_board()[r + dr0][c + dc0], opponent(ch.player))
            &&& #[trigger] quiet_ray_ok(s.spec_board(), r + dr0, c + dc0, dr0, dc0, m0)
        }) implies exists|i: int| 0 <= i < all.len() && records_jump(
            #[trigger] all[i], r, c, r + dr0, c + dc0, r + (m0 + 1) * dr0, c + (m0 + 1) * dc0, Seq::empty(),
        ) by {
        let i = choose|i: int| 0 <= i < pre.len() && records_jump(
            #[trigger] pre[i], r, c, r + dr0, c + dc0, r + (m0 + 1) * dr0, c + (m0 + 1) * dc0, Seq::empty(),
        );
        assert(all[i] == pre[i]);
    }
}

/// Whether `mv` is a capture move some piece of the side to move offers:
/// a valid chain of jumps from some square holding such a piece.
pub open spec fn listed_capture_ok(s: Checkers, mv: CheckersMove) -> bool {
    exists|r: int, c: int| {
        &&& #[trigger] on_board(r, c)
        &&& mv.from.0 == r && mv.from.1 == c
        &&& match s.spec_board()[r][c] {
            Some(ch) => ch.player == s.spec_current_player()
                && chain_extension_ok(s.spec_board(), ch, r, c, mv, Seq::empty()),
            None => false,
        }
    }
}

/// Whether `mv` is a quiet move some piece of the side to move offers.
pub open spec fn listed_quiet_ok(s: Checkers, mv: CheckersMove) -> bool {
    exists|r: int, c: int| {
        &&& #[trigger] on_board(r, c)
        &&& match s.spec_board()[r][c] {
            Some(ch) => ch.player == s.spec_current_player()
                && mv.from.0 == r && mv.from.1 == c && mv.captures@.len() == 0
                && quiet_move_ok(s.spec_board(), ch, r, c, mv.to.0 as int, mv.to.1 as int),
            None => false,
        }
    }
}

/// Whether (r, c) holds a piece of the side to move that has a capture
/// available.
pub open spec fn capturable_square(s: Checkers, r: int, c: int) -> bool {
    on_board(r, c) && match s.spec_board()[r][c] {
        Some(ch) => ch.player == s.spec_current_player()
            && can_capture(s.spec_board(), ch, r, c, Seq::empty()),
        None => false,
    }
}

/// Whether the side to move has a capture available anywhere.
pub open spec fn spec_has_forced_capture(s: Checkers) -> bool {
    exists|r: int, c: int| capturable_square(s, r, c)
}

/// The state of one game: the board, whose turn it is, whether the game has
/// ended, and the record of committed moves.
#[derive(Clone, Debug)]
pub struct Checkers {
    board: Board,
    pub current_player: CheckersPlayer,
    game_over: bool,
    last_move: Option<CheckersMove>,
    move_history: Vec<MoveLog>,
}

impl Checkers {
    /// The board, as seen by specifications.
    pub closed spec fn spec_board(self) -> Board {
        self.board
    }

    /// The side to move, as seen by specifications.
    pub closed spec fn spec_current_player(self) -> CheckersPlayer {
        self.current_player
    }

    /// Whether the game has ended, as seen by specifications.
    pub closed spec fn spec_game_over(self) -> bool {
        self.game_over
    }

    /// The last committed move, as seen by specifications.
    pub closed spec fn spec_last_move(self) -> Option<CheckersMove> {
        self.last_move
    }

    /// The move history, as seen by specifications.
    pub closed spec fn spec_history(self) -> Seq<MoveLog> {
        self.move_history@
    }

    /// A new game: the standard initial setup, White to move.
    pub fn new() -> (g: Self)
        ensures
            forall|r: int, c: int| on_board(r, c) ==> g.spec_board()[r][c] == initial_cell(r, c),
            g.spec_current_player() == CheckersPlayer::White,
            !g.spec_game_over(),
            g.spec_last_move() is None,
            g.spec_history() == Seq::<MoveLog>::empty(),
            playable_only(g.spec_board()),
    {
        let mut board: Board = [[None; 8]; 8];

        for row in 0..3
            invariant
                forall|r: int, c: int|
                    on_board(r, c) && r < row ==> board[r][c] == initial_cell(r, c),
                forall|r: int, c: int|
                    on_board(r, c) && r >= row ==> board[r][c] is None,
        {
            for col in 0..8
                invariant
                    row < 3,
                    forall|r: int, c: int|
                        on_board(r, c) && (r < row || (r == row && c < col)) ==> board[r][c] == initial_cell(r, c),
                    forall|r: int, c: int|
                        on_board(r, c) && (r > row || (r == row && c >= col)) ==> board[r][c] is None,
            {
                if Self::is_black_cell(row, col) {
                    board[row][col] = Some(Checker::new(CheckersPlayer::White));
                }
            }
        }

        for row in 5..8
            invariant
                forall|r: int, c: int|
                    on_board(r, c) && (r < 3 || 5 <= r < row) ==> board[r][c] == initial_cell(r, c),
                forall|r: int, c: int|
                    on_board(r, c) && (r == 3 || r == 4 || r >= row) ==> board[r][c] is None,
                row >= 5,
        {
            for col in 0..8
                invariant
                    5 <= row < 8,
                    forall|r: int, c: int|
                        on_board(r, c) && (r < 3 || 5 <= r < row) ==> board[r][c] == initial_cell(r, c),
                    forall|r: int, c: int|
                        on_board(r, c) && r == row && c < col ==> board[r][c] == initial_cell(r, c),
                    forall|r: int, c: int|
                        on_board(r, c) && (r == 3 || r == 4 || r > row || (r == row && c >= col)) ==> board[r][c] is None,
            {
                if Self::is_black_cell(row, col) {
                    board[row][col] = Some(Checker::new(CheckersPlayer::Black));
                }
            }
        }

        let g = Self {
            board,
            current_player: CheckersPlayer::White,
            game_over: false,
            last_move: None,
            move_history: Vec::new(),
        };
        proof {
            assert(forall|r: int, c: int| on_board(r, c) ==> g.spec_board()[r][c] == initial_cell(r, c));
        }
        g
    }

    /// The symbol of the side to move.
    pub fn current_player_symbol(&self) -> (r: &'static str)
        ensures
            self.spec_current_player() is White ==> r@ == "\u{26aa}"@,
            self.spec_current_player() is Black ==> r@ == "\u{26ab}"@,
    {
        self.current_player.symbol()
    }

    /// A copy of the current board.
    pub fn get_board(&self) -> (b: Board)
        ensures
            b == self.spec_board(),
    {
        self.board
    }

    /// The piece on (row, col), or `None` if the square is empty or off the
    /// board.
    pub fn get_checker(&self, row: usize, col: usize) -> (r: Option<Checker>)
        ensures
            on_board(row as int, col as int) ==> r == self.spec_board()[row as int][col as int],
            !on_board(row as int, col as int) ==> r is None,
    {
        if Self::is_valid_position(row, col) {
            self.board[row][col]
        } else {
            None
        }
    }

    /// The last committed move, if any.
    pub fn get_last_move(&self) -> (r: Option<CheckersMove>)
        ensures
            r is Some <==> self.spec_last_move() is Some,
            r is Some ==> {
                let m = r->0;
                let l = self.spec_last_move()->0;
                m.from == l.from && m.to == l.to && m.captures@ == l.captures@
            },
    {
        self.last_move.clone()
    }

    /// The full move history, oldest first.
    pub fn get_move_history(&self) -> (r: &[MoveLog])
        ensures
            r@ == self.spec_history(),
    {
        self.move_history.as_slice()
    }

    /// The most recent history entry, if any.
    pub fn get_last_move_log(&self) -> (r: Option<&MoveLog>)
        ensures
            self.spec_history().len() == 0 <==> r is None,
            self.spec_history().len() > 0 ==> r == Some(&self.spec_history()[self.spec_history().len() - 1]),
    {
        self.move_history.last()
    }

    /// Whether the game has ended.
    pub fn is_game_over(&self) -> (r: bool)
        ensures
            r == self.spec_game_over(),
    {
        self.game_over
    }

    /// Sets the side to move; everything else is unchanged. (The
    /// `current_player` field itself is also public, but a caller that goes
    /// through this setter keeps a contract over the change.)
    pub fn set_current_player(&mut self, player: CheckersPlayer)
        ensures
            final(self).spec_current_player() == player,
            final(self).spec_board() == old(self).spec_board(),
            final(self).spec_game_over() == old(self).spec_game_over(),
            final(self).spec_last_move() == old(self).spec_last_move(),
            final(self).spec_history() == old(self).spec_history(),
    {
        self.current_player = player;
    }

    /// Counts the pieces of each side: (White pieces, Black pieces).
    fn count_pieces(&self) -> (r: (usize, usize))
        ensures
            r.0 == piece_count(self.spec_board(), CheckersPlayer::White),
            r.1 == piece_count(self.spec_board(), CheckersPlayer::Black),
    {
        let mut white: usize = 0;
        let mut black: usize = 0;
        for row in 0..8
            invariant
                white == count_rows(self.board, CheckersPlayer::White, row as int),
                black == count_rows(self.board, CheckersPlayer::Black, row as int),
                white <= 8 * (row as int),
                black <= 8 * (row as int),
        {
            for col in 0..8
                invariant
                    row < 8,
                    white == count_rows(self.board, CheckersPlayer::White, row as int)
                        + row_count(self.board[row as int], CheckersPlayer::White, col as int),
                    black == count_rows(self.board, CheckersPlayer::Black, row as int)
                        + row_count(self.board[row as int], CheckersPlayer::Black, col as int),
                    white <= 8 * (row as int) + (col as int),
                    black <= 8 * (row as int) + (col as int),
            {
                if let Some(checker) = self.board[row][col] {
                    match checker.player {
                        CheckersPlayer::White => { white = white + 1; },
                        CheckersPlayer::Black => { black = black + 1; },
                    }
                }
            }
        }
        (white, black)
    }

    /// Whether some side has no pieces left.
    fn check_winner(&self) -> (r: bool)
        ensures
            r == (piece_count(self.spec_board(), CheckersPlayer::White) == 0
                || piece_count(self.spec_board(), CheckersPlayer::Black) == 0),
    {
        let counts = self.count_pieces();
        counts.0 == 0 || counts.1 == 0
    }

    /// The winner, once the game has ended: the side whose opponent has no
    /// pieces left. `None` while the game is running, and also in the
    /// (unreachable through play) ended state where both sides keep pieces.
    pub fn get_winner(&self) -> (r: Option<CheckersPlayer>)
        ensures
            !self.spec_game_over() ==> r is None,
            self.spec_game_over() ==> r == spec_winner(self.spec_board()),
    {
        if !self.game_over {
            return None;
        }
        let counts = self.count_pieces();
        if counts.0 == 0 {
            Some(CheckersPlayer::Black)
        } else if counts.1 == 0 {
            Some(CheckersPlayer::White)
        } else {
            None
        }
    }

    /// Whether (row, col) is a playable (dark) square.
    pub fn is_black_cell(row: usize, col: usize) -> (r: bool)
        ensures
            r == playable(row as int, col as int),
    {
        proof {
            vstd::arithmetic::div_mod::lemma_add_mod_noop(row as int, col as int, 2);
        }
        (row % 2 + col % 2) % 2 == 1
    }

    /// Whether (row, col) lies on the 8x8 board.
    pub fn is_valid_position(row: usize, col: usize) -> (r: bool)
        ensures
            r == on_board(row as int, col as int),
    {
        row < 8 && col < 8
    }

    /// Puts `checker` on (row, col), replacing what was there; squares off
    /// the board are left untouched.
    pub fn set_checker(&mut self, row: usize, col: usize, checker: Option<Checker>)
        ensures
            on_board(row as int, col as int) ==> {
                &&& final(self).spec_board()[row as int][col as int] == checker
                &&& forall|r: int, c: int|
                    on_board(r, c) && !(r == row as int && c == col as int)
                        ==> final(self).spec_board()[r][c] == old(self).spec_board()[r][c]
            },
            !on_board(row as int, col as int) ==> final(self).spec_board() == old(self).spec_board(),
            final(self).spec_current_player() == old(self).spec_current_player(),
            final(self).spec_game_over() == old(self).spec_game_over(),
            final(self).spec_last_move() == old(self).spec_last_move(),
            final(self).spec_history() == old(self).spec_history(),
    {
        if Self::is_valid_position(row, col) {
            self.board[row][col] = checker;
        }
    }

    /// The piece on (row, col), or `None` if the square is empty or off the
    /// board.
    pub fn get_checker_at(&self, row: usize, col: usize) -> (r: Option<Checker>)
        ensures
            on_board(row as int, col as int) ==> r == self.spec_board()[row as int][col as int],
            !on_board(row as int, col as int) ==> r is None,
    {
        if Self::is_valid_position(row, col) {
            self.board[row][col]
        } else {
            None
        }
    }

    /// Removes every piece from the board.
    pub fn clear_board(&mut self)
        ensures
            forall|r: int, c: int| on_board(r, c) ==> final(self).spec_board()[r][c] is None,
            final(self).spec_current_player() == old(self).spec_current_player(),
            final(self).spec_game_over() == old(self).spec_game_over(),
            final(self).spec_last_move() == old(self).spec_last_move(),
            final(self).spec_history() == old(self).spec_history(),
    {
        for row in 0..8
            invariant
                forall|r: int, c: int| on_board(r, c) && r < row ==> self.board[r][c] is None,
                self.current_player == old(self).current_player,
                self.game_over == old(self).game_over,
                self.last_move == old(self).last_move,
                self.move_history == old(self).move_history,
        {
            for col in 0..8
                invariant
                    row < 8,
                    forall|r: int, c: int|
                        on_board(r, c) && (r < row || (r == row && c < col)) ==> self.board[r][c] is None,
                    self.current_player == old(self).current_player,
                    self.game_over == old(self).game_over,
                    self.last_move == old(self).last_move,
                    self.move_history == old(self).move_history,
            {
                self.board[row][col] = None;
            }
        }
    }

    /// The textual snapshot of the board, one character per cell, one line
    /// per row.
    fn board_to_string(&self) -> (s: String)
        ensures
            s@ == board_string(self.spec_board()),
    {
        let ghost b = self.spec_board();
        let mut result = String::new();
        proof {
            assert(result@ =~= board_str_rows(b, 0) + row_str(b[0], 0));
        }
        for row in 0..8
            invariant
                result@ == board_str_rows(b, row as int),
                b == self.spec_board(),
        {
            for col in 0..8
                invariant
                    row < 8,
                    result@ == board_str_rows(b, row as int) + row_str(b[row as int], col as int),
                    b == self.spec_board(),
            {
                let ghost before = result@;
                match self.board[row][col] {
                    Some(checker) => {
                        if checker.is_king() {
                            result.append(checker.player.king_symbol());
                        } else {
                            result.append(checker.player.symbol());
                        }
                    },
                    None => {
                        result.append(" ");
                    },
                }
                proof {
                    assert(result@ == before + cell_char_seq(b[row as int][col as int]));
                    assert(result@ =~= board_str_rows(b, row as int) + row_str(b[row as int], col + 1));
                }
            }
            result.append("\n");
            proof {
                assert(result@ =~= board_str_rows(b, row + 1));
                assert(board_str_rows(b, row + 1) + row_str(b[row + 1], 0) =~= board_str_rows(b, row + 1));
            }
        }
        result
    }

    /// Appends one entry to the move history, recording the mover, the
    /// squares, the kind of move, the captured squares, and a snapshot of
    /// the board as it now stands.
    fn log_move(&mut self, from: (usize, usize), to: (usize, usize), move_type: MoveType, captured: Vec<(usize, usize)>)
        requires
            old(self).spec_history().len() < usize::MAX,
        ensures
            final(self).spec_board() == old(self).spec_board(),
            final(self).spec_current_player() == old(self).spec_current_player(),
            final(self).spec_game_over() == old(self).spec_game_over(),
            final(self).spec_last_move() == old(self).spec_last_move(),
            final(self).spec_history().len() == old(self).spec_history().len() + 1,
            final(self).spec_history().subrange(0, old(self).spec_history().len() as int) == old(self).spec_history(),
            ({
                let e = final(self).spec_history().last();
                &&& e.move_number == old(self).spec_history().len() + 1
                &&& e.player == old(self).spec_current_player()
                &&& e.from == from
                &&& e.to == to
                &&& e.move_type == move_type
                &&& e.captured@ == captured@
                &&& e.board_after@ == board_string(old(self).spec_board())
            }),
    {
        let move_number = self.move_history.len() + 1;
        let player = self.current_player;
        let board_after = self.board_to_string();

        let move_log = MoveLog { move_number, player, from, to, move_type, captured, board_after };

        self.move_history.push(move_log);
        proof {
            assert(self.move_history@.subrange(0, old(self).spec_history().len() as int)
                =~= old(self).spec_history());
        }
    }

    /// Plays one move of the side to move, from (from_row, from_col) to
    /// (to_row, to_col): a quiet step or a single (midpoint) capture. On
    /// success the board, last move, history, end-of-game flag and turn are
    /// updated as one atomic transition; on any rejection the state is left
    /// exactly as it was. A capture must be played whenever one is
    /// available, and a capturing piece that can keep capturing from its
    /// landing square keeps the turn. Piece counts never grow: a capture
    /// removes exactly one opposing piece, a quiet move removes none.
    #[verifier::rlimit(100)]
    pub fn make_move(&mut self, from_row: usize, from_col: usize, to_row: usize, to_col: usize) -> (success: bool)
        requires
            old(self).spec_history().len() < usize::MAX,
        ensures
            success == move_allowed(*old(self), from_row as int, from_col as int, to_row as int, to_col as int),
            !success ==> *final(self) == *old(self),
            success ==> spec_move_applied(*old(self), *final(self), from_row as int, from_col as int, to_row as int, to_col as int),
            success && playable_only(old(self).spec_board()) ==> playable_only(final(self).spec_board()),
            piece_count(final(self).spec_board(), CheckersPlayer::White)
                <= piece_count(old(self).spec_board(), CheckersPlayer::White),
            piece_count(final(self).spec_board(), CheckersPlayer::Black)
                <= piece_count(old(self).spec_board(), CheckersPlayer::Black),
            success && spec_capture_geom(from_row as int, from_col as int, to_row as int, to_col as int) ==> {
                &&& piece_count(final(self).spec_board(), opponent(old(self).spec_current_player()))
                    == piece_count(old(self).spec_board(), opponent(old(self).spec_current_player())) - 1
                &&& piece_count(final(self).spec_board(), old(self).spec_current_player())
                    == piece_count(old(self).spec_board(), old(self).spec_current_player())
            },
            success && !spec_capture_geom(from_row as int, from_col as int, to_row as int, to_col as int) ==> {
                &&& piece_count(final(self).spec_board(), CheckersPlayer::White)
                    == piece_count(old(self).spec_board(), CheckersPlayer::White)
                &&& piece_count(final(self).spec_board(), CheckersPlayer::Black)
                    == piece_count(old(self).spec_board(), CheckersPlayer::Black)
            },
    {
        let ghost fr = from_row as int;
        let ghost fc = from_col as int;
        let ghost tr = to_row as int;
        let ghost tc = to_col as int;
        let ghost s1 = *old(self);
        let ghost b1 = old(self).spec_board();

        // the game is over: no further moves are accepted
        if self.game_over {
            return false;
        }

        if !Self::is_valid_position(from_row, from_col) || !Self::is_valid_position(to_row, to_col) {
            return false;
        }

        let checker = match self.board[from_row][from_col] {
            Some(c) => {
                if c.player == self.current_player {
                    c
                } else {
                    return false;
                }
            },
            None => {
                return false;
            },
        };

        if self.board[to_row][to_col].is_some() || !Self::is_black_cell(to_row, to_col) {
            return false;
        }

        let has_captures = self.has_forced_captures();
        let is_capture = self.is_capture_move(from_row, from_col, to_row, to_col);

        if has_captures && !is_capture {
            return false;
        }

        if !self.is_valid_move(from_row, from_col, to_row, to_col, &checker) {
            return false;
        }

        proof {
            assert(move_allowed(s1, fr, fc, tr, tc));
            // the validator admits no zero-distance move, so the origin,
            // the destination and (capturing) the midpoint are distinct
            assert(fr != tr);
        }

        self.board[to_row][to_col] = Some(checker);
        let ghost b_a = self.spec_board();
        proof {
            lemma_count_update(b1, b_a, CheckersPlayer::White, tr, tc, 8);
            lemma_count_update(b1, b_a, CheckersPlayer::Black, tr, tc, 8);
        }

        self.board[from_row][from_col] = None;
        let ghost b_b = self.spec_board();
        proof {
            lemma_count_update(b_a, b_b, CheckersPlayer::White, fr, fc, 8);
            lemma_count_update(b_a, b_b, CheckersPlayer::Black, fr, fc, 8);
        }

        let mut move_type = if is_capture {
            MoveType::Capture
        } else {
            MoveType::Regular
        };
        let mut captured: Vec<(usize, usize)> = Vec::new();

        if is_capture {
            let captured_row = (from_row + to_row) / 2;
            let captured_col = (from_col + to_col) / 2;
            proof {
                assert(captured_row as int == (fr + tr) / 2 && captured_col as int == (fc + tc) / 2);
                assert(captured_row != from_row && captured_row != to_row);
                assert(is_piece_of(b1[(fr + tr) / 2][(fc + tc) / 2], opponent(checker.player)));
            }
            self.board[captured_row][captured_col] = None;
            proof {
                lemma_count_update(b_b, self.spec_board(), CheckersPlayer::White, (fr + tr) / 2, (fc + tc) / 2, 8);
                lemma_count_update(b_b, self.spec_board(), CheckersPlayer::Black, (fr + tr) / 2, (fc + tc) / 2, 8);
            }
            captured.push((captured_row, captured_col));

            self.last_move = Some(CheckersMove::with_captures(
                (from_row, from_col),
                (to_row, to_col),
                copy_positions(&captured),
            ));
        } else {
            self.last_move = Some(CheckersMove::new(from_row, from_col, to_row, to_col));
        }
        let ghost b_c = self.spec_board();

        let should_promote = self.should_promote_to_king(to_row, to_col, &checker);
        if should_promote {
            let mut promoted = checker;
            promoted.promote_to_king();
            self.board[to_row][to_col] = Some(promoted);
            proof {
                lemma_count_update(b_c, self.spec_board(), CheckersPlayer::White, tr, tc, 8);
                lemma_count_update(b_c, self.spec_board(), CheckersPlayer::Black, tr, tc, 8);
            }
            move_type = if is_capture {
                MoveType::CaptureWithPromotion
            } else {
                MoveType::Promotion
            };
        }

        let ghost b2 = self.spec_board();
        proof {
            assert(board_transition(b1, b2, fr, fc, tr, tc));
            assert(piece_count(b2, checker.player) == piece_count(b1, checker.player));
            if is_capture {
                assert(piece_count(b2, opponent(checker.player)) == piece_count(b1, opponent(checker.player)) - 1);
            } else {
                assert(piece_count(b2, opponent(checker.player)) == piece_count(b1, opponent(checker.player)));
            }
        }

        self.log_move((from_row, from_col), (to_row, to_col), move_type, captured);

        if self.check_winner() {
            self.game_over = true;
        } else {
            if is_capture {
                let possible_captures = self.get_possible_captures(to_row, to_col);

                if !possible_captures.is_empty() {
                    return true;
                }
            }

            self.current_player = match self.current_player {
                CheckersPlayer::White => CheckersPlayer::Black,
                CheckersPlayer::Black => CheckersPlayer::White,
            };
        }

        true
    }

    /// Collects the landing squares behind the victim on (jump_row,
    /// jump_col) for `checker` jumping from (row, col) in direction
    /// (row_dir, col_dir): playable empty squares along the ray, up to the
    /// first obstruction — just the one square behind the victim for a
    /// regular piece.
    #[verifier::loop_isolation(false)]
    fn collect_landings(
        &self,
        row: usize,
        col: usize,
        checker: &Checker,
        row_dir: i32,
        col_dir: i32,
        jump_row: usize,
        jump_col: usize,
        path: &Vec<(usize, usize)>,
    ) -> (lands: Vec<(usize, usize)>)
        requires
            row < 8,
            col < 8,
            jump_row < 8,
            jump_col < 8,
            jump_row as int == row + row_dir as int,
            jump_col as int == col + col_dir as int,
            capture_dir_ok(*checker, row_dir as int),
            col_dir as int == 1 || col_dir as int == -1,
            is_piece_of(self.spec_board()[jump_row as int][jump_col as int], opponent(checker.player)),
            !excl_contains(path@, jump_row as int, jump_col as int),
        ensures
            lands@.len() <= 7,
            forall|idx: int| 0 <= idx < lands@.len() ==> jump_ok_dir(
                self.spec_board(), *checker, row as int, col as int, jump_row as int, jump_col as int,
                (#[trigger] lands@[idx]).0 as int, lands@[idx].1 as int,
                path@, row_dir as int, col_dir as int, idx + 1,
            ),
            !(on_board(jump_row + (lands@.len() + 1) * (row_dir as int), jump_col + (lands@.len() + 1) * (col_dir as int))
                && playable(jump_row + (lands@.len() + 1) * (row_dir as int), jump_col + (lands@.len() + 1) * (col_dir as int))
                && self.spec_board()[jump_row + (lands@.len() + 1) * (row_dir as int)][jump_col + (lands@.len() + 1) * (col_dir as int)] is None)
                || (checker.checker_type is Regular && lands@.len() == 1),
            lands@.len() > 0 <==> jumpable_dir(
                self.spec_board(), *checker, row as int, col as int, row_dir as int, col_dir as int, path@,
            ),
    {
        let ghost b = self.spec_board();
        let ghost ch = *checker;
        let ghost excl = path@;
        let ghost dr = row_dir as int;
        let ghost dc = col_dir as int;
        let jump_row_i = jump_row as i32;
        let jump_col_i = jump_col as i32;

        let mut land_positions: Vec<(usize, usize)> = Vec::new();
        let ghost mut m: int = 0;

        if checker.is_king() {
            let mut land_row_i = jump_row_i + row_dir;
            let mut land_col_i = jump_col_i + col_dir;
            proof {
                lemma_mul_step(0, dr);
                lemma_mul_step(0, dc);
            }
            let mut blocked = false;
            while !blocked && land_row_i >= 0 && land_row_i < 8 && land_col_i >= 0 && land_col_i < 8
                && Self::is_black_cell(land_row_i as usize, land_col_i as usize)
                invariant
                    0 <= m <= 7,
                    land_row_i as int == jump_row + (m + 1) * dr,
                    land_col_i as int == jump_col + (m + 1) * dc,
                    -9 <= land_row_i as int <= 16,
                    -9 <= land_col_i as int <= 16,
                    land_positions@.len() == m,
                    ray_clear(b, jump_row as int, jump_col as int, dr, dc, m),
                    blocked ==> b[jump_row + (m + 1) * dr][jump_col + (m + 1) * dc] is Some,
                    forall|idx: int| 0 <= idx < m ==> jump_ok_dir(
                        b, ch, row as int, col as int, jump_row as int, jump_col as int,
                        (#[trigger] land_positions@[idx]).0 as int, land_positions@[idx].1 as int,
                        excl, dr, dc, idx + 1,
                    ),
                decreases 8 - m + (if blocked { 0int } else { 1int }),
            {
                if self.board[land_row_i as usize][land_col_i as usize].is_none() {
                    land_positions.push((land_row_i as usize, land_col_i as usize));
                    proof {
                        lemma_ray_clear_snoc(b, jump_row as int, jump_col as int, dr, dc, m);
                        assert(jump_ok_dir(
                            b, ch, row as int, col as int, jump_row as int, jump_col as int,
                            land_row_i as int, land_col_i as int, excl, dr, dc, m + 1,
                        ));
                        m = m + 1;
                        lemma_mul_step(m, dr);
                        lemma_mul_step(m, dc);
                    }
                    land_row_i = land_row_i + row_dir;
                    land_col_i = land_col_i + col_dir;
                } else {
                    blocked = true;
                }
            }
        } else {
            let land_row_i = jump_row_i + row_dir;
            let land_col_i = jump_col_i + col_dir;
            proof {
                lemma_mul_step(0, dr);
                lemma_mul_step(0, dc);
            }
            if land_row_i >= 0 && land_row_i < 8 && land_col_i >= 0 && land_col_i < 8
                && Self::is_black_cell(land_row_i as usize, land_col_i as usize)
                && self.board[land_row_i as usize][land_col_i as usize].is_none() {
                land_positions.push((land_row_i as usize, land_col_i as usize));
                proof {
                    lemma_ray_clear_snoc(b, jump_row as int, jump_col as int, dr, dc, 0);
                    assert(jump_ok_dir(
                        b, ch, row as int, col as int, jump_row as int, jump_col as int,
                        land_row_i as int, land_col_i as int, excl, dr, dc, 1,
                    ));
                    m = 1;
                }
            } else {
                proof {
                    assert(!(on_board(jump_row + (0 + 1) * dr, jump_col + (0 + 1) * dc)
                        && playable(jump_row + (0 + 1) * dr, jump_col + (0 + 1) * dc)
                        && b[jump_row + (0 + 1) * dr][jump_col + (0 + 1) * dc] is None));
                }
            }
        }

        proof {
            lemma_mul_step(0, dr);
            lemma_mul_step(0, dc);
            assert(land_positions@.len() > 0 <==> jumpable_dir(b, ch, row as int, col as int, dr, dc, excl)) by {
                if land_positions@.len() > 0 {
                    assert(jump_ok_dir(
                        b, ch, row as int, col as int, jump_row as int, jump_col as int,
                        land_positions@[0].0 as int, land_positions@[0].1 as int, excl, dr, dc, 1,
                    ));
                    assert(ray_clear(b, jump_row as int, jump_col as int, dr, dc, 1));
                    assert(b[jump_row + dr][jump_col + dc] is None);
                }
            }
        }

        land_positions
    }

    /// Tries one capture direction of `checker` standing on (row, col):
    /// appends, for each reachable landing square behind an adjacent victim,
    /// the move that takes it there, and (for kings) every continuation
    /// chain from that landing square. Every such landing square is listed.
    #[verifier::loop_isolation(false)]
    #[verifier::rlimit(100)]
    fn try_capture_dir(
        &self,
        origin_row: usize,
        origin_col: usize,
        row: usize,
        col: usize,
        checker: &Checker,
        row_dir: i32,
        col_dir: i32,
        captures: &mut Vec<CheckersMove>,
        path: &Vec<(usize, usize)>,
    )
        requires
            row < 8,
            col < 8,
            capture_dir_ok(*checker, row_dir as int),
            col_dir as int == 1 || col_dir as int == -1,
        ensures
            added_moves_ok(self.spec_board(), *checker, row as int, col as int, old(captures)@, final(captures)@, path@),
            forall|j: int| old(captures)@.len() <= j < final(captures)@.len()
                ==> (#[trigger] final(captures)@[j]).from == (origin_row, origin_col),
            final(captures)@.len() > old(captures)@.len() <==> jumpable_dir(
                self.spec_board(), *checker, row as int, col as int, row_dir as int, col_dir as int, path@,
            ),
            forall|m0: int|
                1 <= m0 && (checker.checker_type is Regular ==> m0 == 1)
                    && on_board(row + row_dir as int, col + col_dir as int)
                    && is_piece_of(
                        self.spec_board()[row + row_dir as int][col + col_dir as int],
                        opponent(checker.player),
                    )
                    && !excl_contains(path@, row + row_dir as int, col + col_dir as int)
                    && #[trigger] quiet_ray_ok(
                        self.spec_board(), row + row_dir as int, col + col_dir as int,
                        row_dir as int, col_dir as int, m0,
                    )
                    ==> exists|j: int| old(captures)@.len() <= j < final(captures)@.len() && records_jump(
                        #[trigger] final(captures)@[j], origin_row as int, origin_col as int,
                        row + row_dir as int, col + col_dir as int,
                        row + (m0 + 1) * (row_dir as int), col + (m0 + 1) * (col_dir as int), path@,
                    ),
            forall|j: int| old(captures)@.len() <= j < final(captures)@.len() ==> {
                let mv = #[trigger] final(captures)@[j];
                &&& mv.captures@.len() > path@.len()
                &&& mv.captures@[path@.len() as int].0 == row + row_dir as int
                &&& mv.captures@[path@.len() as int].1 == col + col_dir as int
            },
            forall|j1: int, j2: int|
                old(captures)@.len() <= j1 < j2 < final(captures)@.len()
                    && (#[trigger] final(captures)@[j1]).captures@.len() == path@.len() + 1
                    && (#[trigger] final(captures)@[j2]).captures@.len() == path@.len() + 1
                    ==> final(captures)@[j1].to != final(captures)@[j2].to,
            forall|steps: Seq<((usize, usize), (usize, usize))>|
                steps.len() >= 1
                    && jump_step_dir_ok(
                        self.spec_board(), *checker, row as int, col as int, steps[0].0, steps[0].1,
                        path@, row_dir as int, col_dir as int,
                    )
                    && #[trigger] chain_steps_ok(
                        self.spec_board(), *checker, steps[0].1.0 as int, steps[0].1.1 as int,
                        steps.skip(1), path@.push(steps[0].0),
                    )
                    ==> exists|j: int| old(captures)@.len() <= j < final(captures)@.len()
                        && (#[trigger] final(captures)@[j]).to == steps.last().1
                        && final(captures)@[j].captures@ == path@ + step_victims(steps),
        decreases count_not_excluded(self.spec_board(), opponent(checker.player), path@), 0int,
    {
        let ghost b = self.spec_board();
        let ghost ch = *checker;
        let ghost excl = path@;
        let ghost pre = captures@;
        let ghost dr = row_dir as int;
        let ghost dc = col_dir as int;
        proof {
            assert(pre.subrange(0, pre.len() as int) =~= pre);
        }

        let jump_row_i = row as i32 + row_dir;
        let jump_col_i = col as i32 + col_dir;
        if jump_row_i < 0 || jump_row_i >= 8 || jump_col_i < 0 || jump_col_i >= 8 {
            return;
        }
        let jump_row = jump_row_i as usize;
        let jump_col = jump_col_i as usize;

        let jump_checker = match self.board[jump_row][jump_col] {
            Some(jc) => jc,
            None => {
                return;
            },
        };
        if jump_checker.player == checker.player {
            return;
        }
        if contains_pos(path, jump_row, jump_col) {
            return;
        }
        proof {
            assert(is_piece_of(b[row + dr][col + dc], opponent(ch.player)));
        }

        let land_positions = self.collect_landings(row, col, checker, row_dir, col_dir, jump_row, jump_col, path);
        let ghost land_count = land_positions@.len() as int;

        let mut i: usize = 0;
        #[verifier::loop_isolation(true)]
        while i < land_positions.len()
            invariant
                b == self.spec_board(),
                ch == *checker,
                excl == path@,
                dr == row_dir as int,
                dc == col_dir as int,
                capture_dir_ok(ch, dr),
                dr == 1 || dr == -1,
                dc == 1 || dc == -1,
                row < 8,
                col < 8,
                jump_row < 8,
                jump_col < 8,
                jump_row as int == row + dr,
                jump_col as int == col + dc,
                is_piece_of(b[row + dr][col + dc], opponent(ch.player)),
                !excl_contains(excl, row + dr, col + dc),
                pre.subrange(0, pre.len() as int) == pre,
                land_positions@.len() <= 7,
                forall|idx: int| 0 <= idx < land_positions@.len() ==> jump_ok_dir(
                    b, ch, row as int, col as int, jump_row as int, jump_col as int,
                    (#[trigger] land_positions@[idx]).0 as int, land_positions@[idx].1 as int,
                    excl, dr, dc, idx + 1,
                ),
                i <= land_positions@.len(),
                added_moves_ok(b, ch, row as int, col as int, pre, captures@, excl),
                i > 0 ==> captures@.len() > pre.len(),
                i == 0 ==> captures@ == pre,
                forall|j: int| pre.len() <= j < captures@.len()
                    ==> (#[trigger] captures@[j]).from == (origin_row, origin_col),
                forall|j: int| pre.len() <= j < captures@.len() ==> {
                    let mv = #[trigger] captures@[j];
                    &&& mv.captures@.len() > excl.len()
                    &&& mv.captures@[excl.len() as int].0 == row + dr
                    &&& mv.captures@[excl.len() as int].1 == col + dc
                },
                forall|j: int| pre.len() <= j < captures@.len()
                    && (#[trigger] captures@[j]).captures@.len() == excl.len() + 1
                    ==> exists|idx: int| 0 <= idx < i && captures@[j].to == #[trigger] land_positions@[idx],
                forall|j1: int, j2: int|
                    pre.len() <= j1 < j2 < captures@.len()
                        && (#[trigger] captures@[j1]).captures@.len() == excl.len() + 1
                        && (#[trigger] captures@[j2]).captures@.len() == excl.len() + 1
                        ==> captures@[j1].to != captures@[j2].to,
                forall|idx: int| 0 <= idx < i ==> exists|j: int|
                    pre.len() <= j < captures@.len() && records_jump(
                        #[trigger] captures@[j], origin_row as int, origin_col as int, jump_row as int, jump_col as int,
                        (#[trigger] land_positions@[idx]).0 as int, land_positions@[idx].1 as int, excl,
                    ),
                forall|steps: Seq<((usize, usize), (usize, usize))>|
                    steps.len() >= 1
                        && jump_step_dir_ok(b, ch, row as int, col as int, steps[0].0, steps[0].1, excl, dr, dc)
                        && (exists|idx: int| 0 <= idx < i && steps[0].1 == #[trigger] land_positions@[idx])
                        && #[trigger] chain_steps_ok(b, ch, steps[0].1.0 as int, steps[0].1.1 as int, steps.skip(1), excl.push(steps[0].0))
                        ==> exists|j: int| pre.len() <= j < captures@.len()
                            && (#[trigger] captures@[j]).to == steps.last().1
                            && captures@[j].captures@ == excl + step_victims(steps),
            decreases land_positions@.len() - i,
        {
            let land_pos = land_positions[i];
            proof {
                assert(jump_ok_dir(
                    b, ch, row as int, col as int, jump_row as int, jump_col as int,
                    land_pos.0 as int, land_pos.1 as int, excl, dr, dc, i + 1,
                ));
            }
            let mut new_path = copy_positions(path);
            new_path.push((jump_row, jump_col));
            let capture_move = CheckersMove::with_captures((origin_row, origin_col), land_pos, copy_positions(&new_path));
            let ghost before_push = captures@;
            captures.push(capture_move);
            let ghost after_push = captures@;
            proof {
                let victim = (jump_row, jump_col);
                assert(new_path@ == excl.push(victim));
                // the pushed move records the single jump over the victim
                assert(capture_move.captures@.subrange(0, excl.len() as int) =~= excl);
                let single = capture_move.captures@.skip(excl.len() as int);
                assert(single =~= seq![victim]);
                assert(jump_ok(b, ch, row as int, col as int, victim.0 as int, victim.1 as int, land_pos.0 as int, land_pos.1 as int, excl));
                assert(chain_ok(b, ch, row as int, col as int, single, land_pos, excl));
                assert(chain_extension_ok(b, ch, row as int, col as int, capture_move, excl));
                assert(captures@.subrange(0, before_push.len() as int) =~= before_push);
                assert(added_moves_ok(b, ch, row as int, col as int, before_push, captures@, excl));
                lemma_added_moves_trans(b, ch, row as int, col as int, pre, before_push, captures@, excl);
            }
            proof {
                lemma_count_not_excluded_push(b, opponent(ch.player), excl, (jump_row, jump_col));
            }
            let ghost before_rec = captures@;
            self.find_all_captures(origin_row, origin_col, land_pos.0, land_pos.1, checker, captures, &new_path);
            proof {
                let victim = (jump_row, jump_col);
                lemma_lift_chain_extensions(
                    b, ch, row as int, col as int, victim,
                    land_pos.0 as int, land_pos.1 as int, excl, before_rec, captures@,
                );
                assert forall|j: int| 0 <= j < before_rec.len() implies captures@[j] == before_rec[j] by {
                    assert(captures@.subrange(0, before_rec.len() as int)[j] == captures@[j]);
                }
                assert(captures@.subrange(0, pre.len() as int) =~= pre);
                assert forall|j: int| pre.len() <= j < captures@.len()
                    implies chain_extension_ok(b, ch, row as int, col as int, #[trigger] captures@[j], excl) by {
                    if j < before_rec.len() {
                        assert(chain_extension_ok(b, ch, row as int, col as int, before_rec[j], excl));
                    }
                }
            }
            proof {
                assert(captures@.subrange(0, after_push.len() as int) =~= after_push);
                lemma_seq_prefix_index(captures@, after_push);
                assert(after_push[before_push.len() as int] == capture_move);
                assert(captures@[before_push.len() as int] == capture_move);
                assert(records_jump(
                    capture_move, origin_row as int, origin_col as int, jump_row as int, jump_col as int,
                    land_pos.0 as int, land_pos.1 as int, excl,
                ));
                assert forall|j: int| pre.len() <= j < captures@.len()
                    implies (#[trigger] captures@[j]).from == (origin_row, origin_col) by {
                    if j < before_push.len() {
                        assert(captures@[j] == after_push[j]);
                        assert(after_push[j] == before_push[j]);
                    } else if j == before_push.len() {
                        assert(captures@[j] == capture_move);
                    }
                }
                assert forall|idx: int| 0 <= idx < i + 1 implies exists|j: int|
                    pre.len() <= j < captures@.len() && records_jump(
                        #[trigger] captures@[j], origin_row as int, origin_col as int, jump_row as int, jump_col as int,
                        (#[trigger] land_positions@[idx]).0 as int, land_positions@[idx].1 as int, excl,
                    ) by {
                    if idx < i {
                        let j = choose|j: int| pre.len() <= j < before_push.len() && records_jump(
                            #[trigger] before_push[j], origin_row as int, origin_col as int, jump_row as int, jump_col as int,
                            land_positions@[idx].0 as int, land_positions@[idx].1 as int, excl,
                        );
                        assert(after_push[j] == before_push[j]);
                        assert(captures@[j] == after_push[j]);
                    } else {
                        assert(records_jump(
                            captures@[before_push.len() as int], origin_row as int, origin_col as int,
                            jump_row as int, jump_col as int,
                            land_positions@[idx].0 as int, land_positions@[idx].1 as int, excl,
                        ));
                    }
                }
                let victim = (jump_row, jump_col);
                assert forall|steps: Seq<((usize, usize), (usize, usize))>|
                    steps.len() >= 1
                        && jump_step_dir_ok(b, ch, row as int, col as int, steps[0].0, steps[0].1, excl, dr, dc)
                        && (exists|idx: int| 0 <= idx < i + 1 && steps[0].1 == #[trigger] land_positions@[idx])
                        && chain_steps_ok(b, ch, steps[0].1.0 as int, steps[0].1.1 as int, steps.skip(1), excl.push(steps[0].0))
                    implies exists|j: int| pre.len() <= j < captures@.len()
                        && (#[trigger] captures@[j]).to == steps.last().1
                        && captures@[j].captures@ == excl + step_victims(steps) by {
                    assert(steps[0].0 == victim);
                    let idx0 = choose|idx: int| 0 <= idx < i + 1 && steps[0].1 == land_positions@[idx];
                    if idx0 < i {
                        let j = choose|j: int| pre.len() <= j < before_push.len()
                            && (#[trigger] before_push[j]).to == steps.last().1
                            && before_push[j].captures@ == excl + step_victims(steps);
                        assert(after_push[j] == before_push[j]);
                        assert(captures@[j] == after_push[j]);
                    } else {
                        assert(steps[0].1 == land_positions@[idx0]);
                        assert(land_positions@[idx0] == land_pos);
                        if steps.len() == 1 {
                            assert(steps.last() == steps[0]);
                            assert(captures@[before_push.len() as int] == capture_move);
                            assert(capture_move.to == land_pos);
                            assert(step_victims(steps) =~= seq![victim]);
                            assert(capture_move.captures@ == excl.push(victim));
                            assert(excl.push(victim) =~= excl + step_victims(steps));
                        } else {
                            let tail = steps.skip(1);
                            assert(excl.push(steps[0].0) == new_path@);
                            assert(chain_steps_ok(b, ch, land_pos.0 as int, land_pos.1 as int, tail, new_path@));
                            let j = choose|j: int| before_rec.len() <= j < captures@.len()
                                && (#[trigger] captures@[j]).to == tail.last().1
                                && captures@[j].captures@ == new_path@ + step_victims(tail);
                            assert(steps.last() == tail.last());
                            assert(step_victims(steps) =~= seq![victim] + step_victims(tail));
                            assert(captures@[j].captures@ =~= excl + step_victims(steps));
                        }
                    }
                }
                assert(captures@.subrange(0, before_push.len() as int + 1) =~= before_push.push(capture_move));
                assert forall|j: int| before_push.len() + 1 <= j < captures@.len()
                    implies chain_extension_ok(
                        b, ch, land_pos.0 as int, land_pos.1 as int, #[trigger] captures@[j], new_path@,
                    ) by {
                }
                lemma_push_iteration_shape(
                    b, ch, row as int, col as int, dr, dc, victim, land_pos, land_positions@, i as int,
                    excl, pre, before_push, capture_move, captures@,
                );
            }
            i = i + 1;
        }

        proof {
            assert forall|m0: int|
                1 <= m0 && (ch.checker_type is Regular ==> m0 == 1)
                    && on_board(row + dr, col + dc)
                    && is_piece_of(b[row + dr][col + dc], opponent(ch.player))
                    && !excl_contains(excl, row + dr, col + dc)
                    && #[trigger] quiet_ray_ok(b, row + dr, col + dc, dr, dc, m0)
                implies exists|j: int| pre.len() <= j < captures@.len() && records_jump(
                    #[trigger] captures@[j], origin_row as int, origin_col as int, row + dr, col + dc,
                    row + (m0 + 1) * dr, col + (m0 + 1) * dc, excl,
                ) by {
                if m0 > land_count {
                    lemma_quiet_ray_index(b, jump_row as int, jump_col as int, dr, dc, m0, land_count + 1);
                    assert(ch.checker_type is Regular && land_count == 1);
                    assert(false);
                }
                let idx = m0 - 1;
                assert(jump_ok_dir(
                    b, ch, row as int, col as int, jump_row as int, jump_col as int,
                    land_positions@[idx].0 as int, land_positions@[idx].1 as int, excl, dr, dc, idx + 1,
                ));
                lemma_mul_step(m0, dr);
                lemma_mul_step(m0, dc);
                assert(land_positions@[idx].0 as int == row + (m0 + 1) * dr);
                assert(land_positions@[idx].1 as int == col + (m0 + 1) * dc);
            }

            assert forall|steps: Seq<((usize, usize), (usize, usize))>|
                steps.len() >= 1
                    && jump_step_dir_ok(b, ch, row as int, col as int, steps[0].0, steps[0].1, excl, dr, dc)
                    && chain_steps_ok(b, ch, steps[0].1.0 as int, steps[0].1.1 as int, steps.skip(1), excl.push(steps[0].0))
                implies exists|j: int| pre.len() <= j < captures@.len()
                    && (#[trigger] captures@[j]).to == steps.last().1
                    && captures@[j].captures@ == excl + step_victims(steps) by {
                let m0 = choose|m: int|
                    1 <= m && (ch.checker_type is Regular ==> m == 1)
                        && steps[0].1.0 == row + (m + 1) * dr && steps[0].1.1 == col + (m + 1) * dc
                        && #[trigger] quiet_ray_ok(b, row + dr, col + dc, dr, dc, m);
                if m0 > land_count {
                    lemma_quiet_ray_index(b, jump_row as int, jump_col as int, dr, dc, m0, land_count + 1);
                    assert(ch.checker_type is Regular && land_count == 1);
                    assert(false);
                }
                let idx = m0 - 1;
                assert(jump_ok_dir(
                    b, ch, row as int, col as int, jump_row as int, jump_col as int,
                    land_positions@[idx].0 as int, land_positions@[idx].1 as int, excl, dr, dc, idx + 1,
                ));
                lemma_mul_step(m0, dr);
                lemma_mul_step(m0, dc);
                assert(land_positions@[idx].0 as int == row + (m0 + 1) * dr);
                assert(land_positions@[idx].1 as int == col + (m0 + 1) * dc);
                assert(steps[0].1.0 == land_positions@[idx].0 && steps[0].1.1 == land_positions@[idx].1);
                assert(steps[0].1 == land_positions@[idx]);
            }
        }
    }

    /// Recursively collects every capture move of `checker` standing on
    /// (row, col), given the squares in `path` were captured earlier in the
    /// chain: single jumps in every legal direction, and (for kings) all
    /// chained continuations.
    fn find_all_captures(
        &self,
        origin_row: usize,
        origin_col: usize,
        row: usize,
        col: usize,
        checker: &Checker,
        captures: &mut Vec<CheckersMove>,
        path: &Vec<(usize, usize)>,
    )
        requires
            row < 8,
            col < 8,
        ensures
            added_moves_ok(self.spec_board(), *checker, row as int, col as int, old(captures)@, final(captures)@, path@),
            forall|j: int| old(captures)@.len() <= j < final(captures)@.len()
                ==> (#[trigger] final(captures)@[j]).from == (origin_row, origin_col),
            final(captures)@.len() > old(captures)@.len() <==> can_capture(
                self.spec_board(), *checker, row as int, col as int, path@,
            ),
            forall|dr0: int, dc0: int, m0: int|
                capture_dir_ok(*checker, dr0) && (dc0 == 1 || dc0 == -1)
                    && 1 <= m0 && (checker.checker_type is Regular ==> m0 == 1)
                    && on_board(row + dr0, col + dc0)
                    && is_piece_of(self.spec_board()[row + dr0][col + dc0], opponent(checker.player))
                    && !excl_contains(path@, row + dr0, col + dc0)
                    && #[trigger] quiet_ray_ok(self.spec_board(), row + dr0, col + dc0, dr0, dc0, m0)
                    ==> exists|j: int| old(captures)@.len() <= j < final(captures)@.len() && records_jump(
                        #[trigger] final(captures)@[j], origin_row as int, origin_col as int, row + dr0, col + dc0,
                        row + (m0 + 1) * dr0, col + (m0 + 1) * dc0, path@,
                    ),
            forall|steps: Seq<((usize, usize), (usize, usize))>|
                steps.len() >= 1 && #[trigger] chain_steps_ok(
                    self.spec_board(), *checker, row as int, col as int, steps, path@,
                )
                    ==> exists|j: int| old(captures)@.len() <= j < final(captures)@.len()
                        && (#[trigger] final(captures)@[j]).to == steps.last().1
                        && final(captures)@[j].captures@ == path@ + step_victims(steps),
            forall|j: int| old(captures)@.len() <= j < final(captures)@.len()
                ==> (#[trigger] final(captures)@[j]).captures@.len() > path@.len(),
            forall|j1: int, j2: int|
                old(captures)@.len() <= j1 < j2 < final(captures)@.len()
                    && (#[trigger] final(captures)@[j1]).captures@.len() == path@.len() + 1
                    && (#[trigger] final(captures)@[j2]).captures@.len() == path@.len() + 1
                    ==> (final(captures)@[j1].to != final(captures)@[j2].to
                        || final(captures)@[j1].captures@[path@.len() as int]
                            != final(captures)@[j2].captures@[path@.len() as int]),
        decreases count_not_excluded(self.spec_board(), opponent(checker.player), path@), 1int,
    {
        let ghost b = self.spec_board();
        let ghost ch = *checker;
        let ghost excl = path@;
        let ghost pre = captures@;
        match checker.checker_type {
            CheckerType::Regular => {
                let direction = checker.player.direction();
                let ghost d = direction as int;
                self.try_capture_dir(origin_row, origin_col, row, col, checker, direction, -1, captures, path);
                let ghost s1 = captures@;
                self.try_capture_dir(origin_row, origin_col, row, col, checker, direction, 1, captures, path);
                proof {
                    lemma_added_moves_trans(b, ch, row as int, col as int, pre, s1, captures@, excl);
                    let grew = captures@.len() > pre.len();
                    if grew {
                        assert(jumpable_dir(b, ch, row as int, col as int, d, -1, excl)
                            || jumpable_dir(b, ch, row as int, col as int, d, 1, excl));
                        assert(can_capture(b, ch, row as int, col as int, excl));
                    }
                    if can_capture(b, ch, row as int, col as int, excl) {
                        let (dr0, dc0) = choose|dr0: int, dc0: int|
                            capture_dir_ok(ch, dr0) && (dc0 == 1 || dc0 == -1)
                                && jumpable_dir(b, ch, row as int, col as int, dr0, dc0, excl);
                        assert(dr0 == d);
                        assert(grew);
                    }
                    lemma_seq_prefix_index(captures@, s1);
                    assert forall|j: int| pre.len() <= j < captures@.len()
                        implies (#[trigger] captures@[j]).from == (origin_row, origin_col) by {
                        if j < s1.len() {
                            assert(captures@[j] == s1[j]);
                        }
                    }
                    assert forall|dr0: int, dc0: int, m0: int|
                        capture_dir_ok(ch, dr0) && (dc0 == 1 || dc0 == -1)
                            && 1 <= m0 && (ch.checker_type is Regular ==> m0 == 1)
                            && on_board(row + dr0, col + dc0)
                            && is_piece_of(b[row + dr0][col + dc0], opponent(ch.player))
                            && !excl_contains(excl, row + dr0, col + dc0)
                            && #[trigger] quiet_ray_ok(b, row + dr0, col + dc0, dr0, dc0, m0)
                        implies exists|j: int| pre.len() <= j < captures@.len() && records_jump(
                            #[trigger] captures@[j], origin_row as int, origin_col as int, row + dr0, col + dc0,
                            row + (m0 + 1) * dr0, col + (m0 + 1) * dc0, excl,
                        ) by {
                        assert(dr0 == d);
                        if dc0 == -1 {
                            let j = choose|j: int| pre.len() <= j < s1.len() && records_jump(
                                #[trigger] s1[j], origin_row as int, origin_col as int, row + dr0, col + dc0,
                                row + (m0 + 1) * dr0, col + (m0 + 1) * dc0, excl,
                            );
                            assert(captures@[j] == s1[j]);
                        }
                    }
                    assert forall|steps: Seq<((usize, usize), (usize, usize))>|
                        steps.len() >= 1 && chain_steps_ok(b, ch, row as int, col as int, steps, excl)
                        implies exists|j: int| pre.len() <= j < captures@.len()
                            && (#[trigger] captures@[j]).to == steps.last().1
                            && captures@[j].captures@ == excl + step_victims(steps) by {
                        assert(jump_step_ok(b, ch, row as int, col as int, steps[0].0, steps[0].1, excl));
                        assert(chain_steps_ok(
                            b, ch, steps[0].1.0 as int, steps[0].1.1 as int, steps.skip(1), excl.push(steps[0].0),
                        ));
                        let (dr0, dc0) = choose|dr0: int, dc0: int|
                            capture_dir_ok(ch, dr0) && (dc0 == 1 || dc0 == -1) && #[trigger] jump_step_dir_ok(
                                b, ch, row as int, col as int, steps[0].0, steps[0].1, excl, dr0, dc0,
                            );
                        assert(dr0 == d);
                        assert(jump_step_dir_ok(b, ch, row as int, col as int, steps[0].0, steps[0].1, excl, dr0, dc0));
                        if dc0 == -1 {
                            let j = choose|j: int| pre.len() <= j < s1.len()
                                && (#[trigger] s1[j]).to == steps.last().1
                                && s1[j].captures@ == excl + step_victims(steps);
                            assert(captures@[j] == s1[j]);
                        }
                    }
                    assert forall|j1: int, j2: int|
                        pre.len() <= j1 < j2 < captures@.len()
                            && (#[trigger] captures@[j1]).captures@.len() == excl.len() + 1
                            && (#[trigger] captures@[j2]).captures@.len() == excl.len() + 1
                        implies (captures@[j1].to != captures@[j2].to
                            || captures@[j1].captures@[excl.len() as int]
                                != captures@[j2].captures@[excl.len() as int]) by {
                        if j1 < s1.len() {
                            assert(captures@[j1] == s1[j1]);
                        }
                        if j2 < s1.len() {
                            assert(captures@[j2] == s1[j2]);
                        }
                        if j1 < s1.len() && j2 >= s1.len() {
                            assert(captures@[j1].captures@[excl.len() as int].1 == col - 1);
                            assert(captures@[j2].captures@[excl.len() as int].1 == col + 1);
                        }
                    }
                }
            },
            CheckerType::King => {
                self.try_capture_dir(origin_row, origin_col, row, col, checker, -1, -1, captures, path);
                let ghost s1 = captures@;
                self.try_capture_dir(origin_row, origin_col, row, col, checker, -1, 1, captures, path);
                let ghost s2 = captures@;
                self.try_capture_dir(origin_row, origin_col, row, col, checker, 1, -1, captures, path);
                let ghost s3 = captures@;
                self.try_capture_dir(origin_row, origin_col, row, col, checker, 1, 1, captures, path);
                proof {
                    lemma_added_moves_trans(b, ch, row as int, col as int, pre, s1, s2, excl);
                    lemma_added_moves_trans(b, ch, row as int, col as int, pre, s2, s3, excl);
                    lemma_added_moves_trans(b, ch, row as int, col as int, pre, s3, captures@, excl);
                    let grew = captures@.len() > pre.len();
                    if grew {
                        assert(jumpable_dir(b, ch, row as int, col as int, -1, -1, excl)
                            || jumpable_dir(b, ch, row as int, col as int, -1, 1, excl)
                            || jumpable_dir(b, ch, row as int, col as int, 1, -1, excl)
                            || jumpable_dir(b, ch, row as int, col as int, 1, 1, excl));
                        assert(can_capture(b, ch, row as int, col as int, excl));
                    }
                    if can_capture(b, ch, row as int, col as int, excl) {
                        let (dr0, dc0) = choose|dr0: int, dc0: int|
                            capture_dir_ok(ch, dr0) && (dc0 == 1 || dc0 == -1)
                                && jumpable_dir(b, ch, row as int, col as int, dr0, dc0, excl);
                        assert(dr0 == 1 || dr0 == -1);
                        assert(grew);
                    }
                    lemma_seq_prefix_index(captures@, s3);
                    lemma_seq_prefix_index(s3, s2);
                    lemma_seq_prefix_index(s2, s1);
                    assert forall|j: int| pre.len() <= j < captures@.len()
                        implies (#[trigger] captures@[j]).from == (origin_row, origin_col) by {
                        if j < s1.len() {
                            assert(captures@[j] == s3[j] && s3[j] == s2[j] && s2[j] == s1[j]);
                        } else if j < s2.len() {
                            assert(captures@[j] == s3[j] && s3[j] == s2[j]);
                        } else if j < s3.len() {
                            assert(captures@[j] == s3[j]);
                        }
                    }
                    assert forall|dr0: int, dc0: int, m0: int|
                        capture_dir_ok(ch, dr0) && (dc0 == 1 || dc0 == -1)
                            && 1 <= m0 && (ch.checker_type is Regular ==> m0 == 1)
                            && on_board(row + dr0, col + dc0)
                            && is_piece_of(b[row + dr0][col + dc0], opponent(ch.player))
                            && !excl_contains(excl, row + dr0, col + dc0)
                            && #[trigger] quiet_ray_ok(b, row + dr0, col + dc0, dr0, dc0, m0)
                        implies exists|j: int| pre.len() <= j < captures@.len() && records_jump(
                            #[trigger] captures@[j], origin_row as int, origin_col as int, row + dr0, col + dc0,
                            row + (m0 + 1) * dr0, col + (m0 + 1) * dc0, excl,
                        ) by {
                        assert(dr0 == 1 || dr0 == -1);
                        if dr0 == -1 && dc0 == -1 {
                            let j = choose|j: int| pre.len() <= j < s1.len() && records_jump(
                                #[trigger] s1[j], origin_row as int, origin_col as int, row + dr0, col + dc0,
                                row + (m0 + 1) * dr0, col + (m0 + 1) * dc0, excl,
                            );
                            assert(s2[j] == s1[j]);
                            assert(s3[j] == s2[j]);
                            assert(captures@[j] == s3[j]);
                        } else if dr0 == -1 && dc0 == 1 {
                            let j = choose|j: int| s1.len() <= j < s2.len() && records_jump(
                                #[trigger] s2[j], origin_row as int, origin_col as int, row + dr0, col + dc0,
                                row + (m0 + 1) * dr0, col + (m0 + 1) * dc0, excl,
                            );
                            assert(s3[j] == s2[j]);
                            assert(captures@[j] == s3[j]);
                        } else if dr0 == 1 && dc0 == -1 {
                            let j = choose|j: int| s2.len() <= j < s3.len() && records_jump(
                                #[trigger] s3[j], origin_row as int, origin_col as int, row + dr0, col + dc0,
                                row + (m0 + 1) * dr0, col + (m0 + 1) * dc0, excl,
                            );
                            assert(captures@[j] == s3[j]);
                        }
                    }
                    assert forall|steps: Seq<((usize, usize), (usize, usize))>|
                        steps.len() >= 1 && chain_steps_ok(b, ch, row as int, col as int, steps, excl)
                        implies exists|j: int| pre.len() <= j < captures@.len()
                            && (#[trigger] captures@[j]).to == steps.last().1
                            && captures@[j].captures@ == excl + step_victims(steps) by {
                        assert(jump_step_ok(b, ch, row as int, col as int, steps[0].0, steps[0].1, excl));
                        assert(chain_steps_ok(
                            b, ch, steps[0].1.0 as int, steps[0].1.1 as int, steps.skip(1), excl.push(steps[0].0),
                        ));
                        let (dr0, dc0) = choose|dr0: int, dc0: int|
                            capture_dir_ok(ch, dr0) && (dc0 == 1 || dc0 == -1) && #[trigger] jump_step_dir_ok(
                                b, ch, row as int, col as int, steps[0].0, steps[0].1, excl, dr0, dc0,
                            );
                        assert(dr0 == 1 || dr0 == -1);
                        assert(jump_step_dir_ok(b, ch, row as int, col as int, steps[0].0, steps[0].1, excl, dr0, dc0));
                        if dr0 == -1 && dc0 == -1 {
                            let j = choose|j: int| pre.len() <= j < s1.len()
                                && (#[trigger] s1[j]).to == steps.last().1
                                && s1[j].captures@ == excl + step_victims(steps);
                            assert(captures@[j] == s3[j] && s3[j] == s2[j] && s2[j] == s1[j]);
                        } else if dr0 == -1 && dc0 == 1 {
                            let j = choose|j: int| s1.len() <= j < s2.len()
                                && (#[trigger] s2[j]).to == steps.last().1
                                && s2[j].captures@ == excl + step_victims(steps);
                            assert(captures@[j] == s3[j] && s3[j] == s2[j]);
                        } else if dr0 == 1 && dc0 == -1 {
                            let j = choose|j: int| s2.len() <= j < s3.len()
                                && (#[trigger] s3[j]).to == steps.last().1
                                && s3[j].captures@ == excl + step_victims(steps);
                            assert(captures@[j] == s3[j]);
                        }
                    }
                    assert forall|j1: int, j2: int|
                        pre.len() <= j1 < j2 < captures@.len()
                            && (#[trigger] captures@[j1]).captures@.len() == excl.len() + 1
                            && (#[trigger] captures@[j2]).captures@.len() == excl.len() + 1
                        implies (captures@[j1].to != captures@[j2].to
                            || captures@[j1].captures@[excl.len() as int]
                                != captures@[j2].captures@[excl.len() as int]) by {
                        if j1 < s1.len() {
                            assert(captures@[j1] == s3[j1] && s3[j1] == s2[j1] && s2[j1] == s1[j1]);
                        } else if j1 < s2.len() {
                            assert(captures@[j1] == s3[j1] && s3[j1] == s2[j1]);
                        } else if j1 < s3.len() {
                            assert(captures@[j1] == s3[j1]);
                        }
                        if j2 < s1.len() {
                            assert(captures@[j2] == s3[j2] && s3[j2] == s2[j2] && s2[j2] == s1[j2]);
                        } else if j2 < s2.len() {
                            assert(captures@[j2] == s3[j2] && s3[j2] == s2[j2]);
                        } else if j2 < s3.len() {
                            assert(captures@[j2] == s3[j2]);
                        }
                        // same direction: distinct landings; different
                        // directions: distinct victims
                        let v1 = captures@[j1].captures@[excl.len() as int];
                        let v2 = captures@[j2].captures@[excl.len() as int];
                        if j1 < s1.len() && j2 >= s1.len() {
                            assert(v1.0 == row - 1 && v1.1 == col - 1);
                            assert(v2.0 == row - 1 ==> v2.1 == col + 1 || j2 >= s2.len());
                        }
                    }
                }
            },
        }
    }

    /// The capture moves of the piece on (row, col): each single jump with
    /// each of its legal landing squares, and every chained continuation,
    /// each recorded as one move from (row, col) whose capture list names
    /// the victims in order. Empty when the square is off the board, empty,
    /// or holds a piece of the side not to move, and when no capture is
    /// available.
    pub fn get_possible_captures(&self, row: usize, col: usize) -> (captures: Vec<CheckersMove>)
        ensures
            !on_board(row as int, col as int) ==> captures@.len() == 0,
            on_board(row as int, col as int) ==> {
                captures@.len() > 0 <==> (match self.spec_board()[row as int][col as int] {
                    Some(ch) => ch.player == self.spec_current_player()
                        && can_capture(self.spec_board(), ch, row as int, col as int, Seq::empty()),
                    None => false,
                })
            },
            forall|i: int| 0 <= i < captures@.len() ==> (#[trigger] captures@[i]).from == (row, col),
            on_board(row as int, col as int) ==> match self.spec_board()[row as int][col as int] {
                Some(ch) => forall|i: int| 0 <= i < captures@.len() ==> chain_extension_ok(
                    self.spec_board(), ch, row as int, col as int, #[trigger] captures@[i], Seq::empty(),
                ),
                None => captures@.len() == 0,
            },
            on_board(row as int, col as int) ==> match self.spec_board()[row as int][col as int] {
                Some(ch) => ch.player == self.spec_current_player() ==> forall|dr0: int, dc0: int, m0: int|
                    capture_dir_ok(ch, dr0) && (dc0 == 1 || dc0 == -1)
                        && 1 <= m0 && (ch.checker_type is Regular ==> m0 == 1)
                        && on_board(row + dr0, col + dc0)
                        && is_piece_of(self.spec_board()[row + dr0][col + dc0], opponent(ch.player))
                        && #[trigger] quiet_ray_ok(self.spec_board(), row + dr0, col + dc0, dr0, dc0, m0)
                        ==> exists|j: int| 0 <= j < captures@.len() && records_jump(
                            #[trigger] captures@[j], row as int, col as int, row + dr0, col + dc0,
                            row + (m0 + 1) * dr0, col + (m0 + 1) * dc0, Seq::empty(),
                        ),
                None => true,
            },
            on_board(row as int, col as int) ==> match self.spec_board()[row as int][col as int] {
                Some(ch) => ch.player == self.spec_current_player()
                    ==> forall|steps: Seq<((usize, usize), (usize, usize))>|
                        steps.len() >= 1 && #[trigger] chain_steps_ok(
                            self.spec_board(), ch, row as int, col as int, steps, Seq::empty(),
                        )
                            ==> exists|j: int| 0 <= j < captures@.len()
                                && (#[trigger] captures@[j]).to == steps.last().1
                                && captures@[j].captures@ == step_victims(steps),
                None => true,
            },
            forall|j1: int, j2: int|
                0 <= j1 < j2 < captures@.len()
                    && (#[trigger] captures@[j1]).captures@.len() == 1
                    && (#[trigger] captures@[j2]).captures@.len() == 1
                    ==> (captures@[j1].to != captures@[j2].to
                        || captures@[j1].captures@[0] != captures@[j2].captures@[0]),
    {
        let mut captures: Vec<CheckersMove> = Vec::new();

        if !Self::is_valid_position(row, col) {
            return captures;
        }

        if let Some(checker) = self.board[row][col] {
            let ghost b = self.spec_board();
            let ghost ch = checker;
            if checker.player != self.current_player {
                return captures;
            }
            let path: Vec<(usize, usize)> = Vec::new();
            self.find_all_captures(row, col, row, col, &checker, &mut captures, &path);
            proof {
                let ghost p = path@;
                assert forall|steps: Seq<((usize, usize), (usize, usize))>|
                    steps.len() >= 1 && #[trigger] chain_steps_ok(b, ch, row as int, col as int, steps, Seq::empty())
                    implies exists|j: int| 0 <= j < captures@.len()
                        && (#[trigger] captures@[j]).to == steps.last().1
                        && captures@[j].captures@ == step_victims(steps) by {
                    assert(p == Seq::<(usize, usize)>::empty());
                    assert(chain_steps_ok(b, ch, row as int, col as int, steps, p));
                    let j = choose|j: int| 0 <= j < captures@.len()
                        && (#[trigger] captures@[j]).to == steps.last().1
                        && captures@[j].captures@ == p + step_victims(steps);
                    assert(p + step_victims(steps) =~= step_victims(steps));
                }
            }
        }

        captures
    }

    /// Whether the side to move has at least one capture available
    /// somewhere on the board; if so, quiet moves are illegal.
    pub fn has_forced_captures(&self) -> (r: bool)
        ensures
            r == spec_has_forced_capture(*self),
    {
        for row in 0..8
            invariant
                forall|rr: int, cc: int| 0 <= rr < row && 0 <= cc < 8 ==> !capturable_square(*self, rr, cc),
        {
            for col in 0..8
                invariant
                    row < 8,
                    forall|rr: int, cc: int| 0 <= rr < row && 0 <= cc < 8 ==> !capturable_square(*self, rr, cc),
                    forall|cc: int| 0 <= cc < col ==> !capturable_square(*self, row as int, cc),
            {
                if let Some(checker) = self.board[row][col] {
                    if checker.player == self.current_player {
                        let captures = self.get_possible_captures(row, col);
                        if !captures.is_empty() {
                            proof {
                                assert(capturable_square(*self, row as int, col as int));
                            }
                            return true;
                        }
                    }
                }
                proof {
                    assert(!capturable_square(*self, row as int, col as int));
                }
            }
        }
        false
    }

    /// Walks one quiet direction of `checker` standing on (row, col) and
    /// appends a quiet move for every playable empty square reached before
    /// the first obstruction: one step for a regular piece, the whole ray
    /// for a king.
    #[verifier::loop_isolation(false)]
    #[verifier::rlimit(60)]
    fn push_quiet_dir(
        &self,
        row: usize,
        col: usize,
        checker: &Checker,
        row_dir: i32,
        col_dir: i32,
        moves: &mut Vec<CheckersMove>,
    )
        requires
            row < 8,
            col < 8,
            quiet_dir_ok(*checker, row_dir as int),
            col_dir as int == 1 || col_dir as int == -1,
        ensures
            old(moves)@.len() <= final(moves)@.len(),
            final(moves)@.subrange(0, old(moves)@.len() as int) == old(moves)@,
            forall|j: int| old(moves)@.len() <= j < final(moves)@.len() ==> {
                let mv = #[trigger] final(moves)@[j];
                &&& mv.from.0 == row && mv.from.1 == col
                &&& mv.captures@.len() == 0
                &&& quiet_move_ok(self.spec_board(), *checker, row as int, col as int, mv.to.0 as int, mv.to.1 as int)
            },
            forall|m: int|
                1 <= m && (checker.checker_type is Regular ==> m == 1)
                    && #[trigger] quiet_ray_ok(self.spec_board(), row as int, col as int, row_dir as int, col_dir as int, m)
                    ==> exists|j: int| old(moves)@.len() <= j < final(moves)@.len()
                        && #[trigger] final(moves)@[j].to.0 == row + m * (row_dir as int)
                        && final(moves)@[j].to.1 == col + m * (col_dir as int),
    {
        let ghost b = self.spec_board();
        let ghost ch = *checker;
        let ghost dr = row_dir as int;
        let ghost dc = col_dir as int;
        let ghost pre = moves@;
        proof {
            assert(pre.subrange(0, pre.len() as int) =~= pre);
            lemma_mul_step(0, dr);
            lemma_mul_step(0, dc);
        }

        let regular = !checker.is_king();
        let mut new_row_i = row as i32 + row_dir;
        let mut new_col_i = col as i32 + col_dir;
        let ghost mut m: int = 0;
        let mut done = false;

        while !done && new_row_i >= 0 && new_row_i < 8 && new_col_i >= 0 && new_col_i < 8
            invariant
                0 <= m <= 7,
                !done ==> new_row_i as int == row + (m + 1) * dr,
                !done ==> new_col_i as int == col + (m + 1) * dc,
                -9 <= new_row_i as int <= 16,
                -9 <= new_col_i as int <= 16,
                ch.checker_type is Regular ==> m <= 1,
                ch.checker_type is Regular ==> (m == 0 || done),
                quiet_ray_ok(b, row as int, col as int, dr, dc, m),
                moves@.len() == pre.len() + m,
                moves@.subrange(0, pre.len() as int) == pre,
                forall|j: int| pre.len() <= j < moves@.len() ==> {
                    let mv = #[trigger] moves@[j];
                    &&& mv.from.0 == row && mv.from.1 == col
                    &&& mv.captures@.len() == 0
                    &&& mv.to.0 == row + (j - pre.len() + 1) * dr
                    &&& mv.to.1 == col + (j - pre.len() + 1) * dc
                },
                done ==> (!(on_board(row + (m + 1) * dr, col + (m + 1) * dc)
                        && playable(row + (m + 1) * dr, col + (m + 1) * dc)
                        && b[row + (m + 1) * dr][col + (m + 1) * dc] is None)
                    || (ch.checker_type is Regular && m == 1)),
            decreases 8 - m + (if done { 0int } else { 1int }),
        {
            let nr = new_row_i as usize;
            let nc = new_col_i as usize;
            if !Self::is_black_cell(nr, nc) {
                done = true;
            } else if self.board[nr][nc].is_none() {
                let ghost before = moves@;
                moves.push(CheckersMove::new(row, col, nr, nc));
                proof {
                    lemma_quiet_ray_snoc(b, row as int, col as int, dr, dc, m);
                    m = m + 1;
                    lemma_mul_step(m, dr);
                    lemma_mul_step(m, dc);
                    assert((m + 1) * dr == (if dr == 1 { m + 1 } else { -(m + 1) })) by (nonlinear_arith)
                        requires
                            dr == 1 || dr == -1,
                    ;
                    assert(m * dr == (if dr == 1 { m } else { -m })) by (nonlinear_arith)
                        requires
                            dr == 1 || dr == -1,
                    ;
                    assert(moves@.subrange(0, pre.len() as int) =~= pre);
                }
                if regular {
                    done = true;
                } else {
                    new_row_i = new_row_i + row_dir;
                    new_col_i = new_col_i + col_dir;
                }
            } else {
                done = true;
            }
        }

        proof {
            lemma_mul_step(m, dr);
            lemma_mul_step(m, dc);
            assert(!(on_board(row + (m + 1) * dr, col + (m + 1) * dc)
                    && playable(row + (m + 1) * dr, col + (m + 1) * dc)
                    && b[row + (m + 1) * dr][col + (m + 1) * dc] is None)
                || (ch.checker_type is Regular && m == 1));

            // soundness: each appended move reaches its square over a
            // playable empty prefix of the ray
            assert forall|j: int| pre.len() <= j < moves@.len() implies {
                let mv = #[trigger] moves@[j];
                quiet_move_ok(b, ch, row as int, col as int, mv.to.0 as int, mv.to.1 as int)
            } by {
                let mv = moves@[j];
                let mj = j - pre.len() + 1;
                lemma_quiet_ray_prefix(b, row as int, col as int, dr, dc, m, mj);
                assert(quiet_target(row as int, col as int, dr, dc, mj, mv.to.0 as int, mv.to.1 as int));
            }

            // completeness: a clear ray of length m' has its landing listed
            assert forall|mp: int|
                1 <= mp && (ch.checker_type is Regular ==> mp == 1)
                    && #[trigger] quiet_ray_ok(b, row as int, col as int, dr, dc, mp)
                implies exists|j: int| pre.len() <= j < moves@.len()
                    && #[trigger] moves@[j].to.0 == row + mp * dr
                    && moves@[j].to.1 == col + mp * dc by {
                if mp > m {
                    lemma_quiet_ray_index(b, row as int, col as int, dr, dc, mp, m + 1);
                    assert(ch.checker_type is Regular && m == 1);
                    assert(false);
                }
                let j = pre.len() + mp - 1;
                assert(moves@[j].to.0 == row + mp * dr && moves@[j].to.1 == col + mp * dc);
            }
        }
    }

    /// Every move available to the piece on (row, col): its capture moves
    /// when it has any (captures are mandatory), otherwise its quiet moves,
    /// listing every playable empty square it can reach. Empty if the
    /// square is empty or holds a piece of the side not to move.
    pub fn get_possible_moves(&self, row: usize, col: usize) -> (moves: Vec<CheckersMove>)
        ensures
            !on_board(row as int, col as int) ==> moves@.len() == 0,
            forall|i: int| 0 <= i < moves@.len() ==> (#[trigger] moves@[i]).from == (row, col),
            on_board(row as int, col as int) ==> match self.spec_board()[row as int][col as int] {
                None => moves@.len() == 0,
                Some(ch) => {
                    if ch.player != self.spec_current_player() {
                        moves@.len() == 0
                    } else if can_capture(self.spec_board(), ch, row as int, col as int, Seq::empty()) {
                        &&& moves@.len() > 0
                        &&& forall|i: int| 0 <= i < moves@.len() ==> chain_extension_ok(
                            self.spec_board(), ch, row as int, col as int, #[trigger] moves@[i], Seq::empty(),
                        )
                        &&& forall|dr0: int, dc0: int, m0: int|
                            capture_dir_ok(ch, dr0) && (dc0 == 1 || dc0 == -1)
                                && 1 <= m0 && (ch.checker_type is Regular ==> m0 == 1)
                                && on_board(row + dr0, col + dc0)
                                && is_piece_of(self.spec_board()[row + dr0][col + dc0], opponent(ch.player))
                                && #[trigger] quiet_ray_ok(self.spec_board(), row + dr0, col + dc0, dr0, dc0, m0)
                                ==> exists|j: int| 0 <= j < moves@.len() && records_jump(
                                    #[trigger] moves@[j], row as int, col as int, row + dr0, col + dc0,
                                    row + (m0 + 1) * dr0, col + (m0 + 1) * dc0, Seq::empty(),
                                )
                        &&& forall|steps: Seq<((usize, usize), (usize, usize))>|
                            steps.len() >= 1 && #[trigger] chain_steps_ok(
                                self.spec_board(), ch, row as int, col as int, steps, Seq::empty(),
                            )
                                ==> exists|j: int| 0 <= j < moves@.len()
                                    && (#[trigger] moves@[j]).to == steps.last().1
                                    && moves@[j].captures@ == step_victims(steps)
                        &&& forall|j1: int, j2: int|
                            0 <= j1 < j2 < moves@.len()
                                && (#[trigger] moves@[j1]).captures@.len() == 1
                                && (#[trigger] moves@[j2]).captures@.len() == 1
                                ==> (moves@[j1].to != moves@[j2].to
                                    || moves@[j1].captures@[0] != moves@[j2].captures@[0])
                    } else {
                        &&& forall|i: int| 0 <= i < moves@.len() ==> {
                            let mv = #[trigger] moves@[i];
                            &&& mv.from.0 == row && mv.from.1 == col
                            &&& mv.captures@.len() == 0
                            &&& quiet_move_ok(self.spec_board(), ch, row as int, col as int, mv.to.0 as int, mv.to.1 as int)
                        }
                        &&& forall|t_r: int, t_c: int|
                            #[trigger] quiet_move_ok(self.spec_board(), ch, row as int, col as int, t_r, t_c)
                                ==> exists|i: int| 0 <= i < moves@.len()
                                    && #[trigger] moves@[i].to.0 == t_r && moves@[i].to.1 == t_c
                    }
                },
            },
    {
        let ghost b = self.spec_board();
        let mut moves: Vec<CheckersMove> = Vec::new();

        if !Self::is_valid_position(row, col) {
            return moves;
        }

        if let Some(checker) = self.board[row][col] {
            let ghost ch = checker;
            if checker.player != self.current_player {
                return moves;
            }

            let captures = self.get_possible_captures(row, col);
            if !captures.is_empty() {
                return captures;
            }

            match checker.checker_type {
                CheckerType::Regular => {
                    let direction = checker.player.direction();
                    self.push_quiet_dir(row, col, &checker, direction, -1, &mut moves);
                    let ghost mid1 = moves@;
                    self.push_quiet_dir(row, col, &checker, direction, 1, &mut moves);
                    proof {
                        let d = spec_direction(ch.player);
                        lemma_seq_prefix_index(moves@, mid1);
                        assert forall|i: int| 0 <= i < moves@.len() implies {
                            let mv = #[trigger] moves@[i];
                            &&& mv.from.0 == row && mv.from.1 == col
                            &&& mv.captures@.len() == 0
                            &&& quiet_move_ok(b, ch, row as int, col as int, mv.to.0 as int, mv.to.1 as int)
                        } by {
                            if i < mid1.len() {
                                assert(moves@[i] == mid1[i]);
                            }
                        }
                        assert forall|t_r: int, t_c: int|
                            #[trigger] quiet_move_ok(b, ch, row as int, col as int, t_r, t_c)
                                implies exists|i: int| 0 <= i < moves@.len()
                                    && #[trigger] moves@[i].to.0 == t_r && moves@[i].to.1 == t_c by {
                            let (dr0, dc0, m0) = choose|dr0: int, dc0: int, m0: int|
                                quiet_dir_ok(ch, dr0) && (dc0 == 1 || dc0 == -1)
                                    && #[trigger] quiet_target(row as int, col as int, dr0, dc0, m0, t_r, t_c)
                                    && m0 >= 1 && (ch.checker_type is Regular ==> m0 == 1)
                                    && quiet_ray_ok(b, row as int, col as int, dr0, dc0, m0);
                            assert(dr0 == d);
                            if dc0 == -1 {
                                let j = choose|j: int| 0 <= j < mid1.len()
                                    && #[trigger] mid1[j].to.0 == row + m0 * dr0 && mid1[j].to.1 == col + m0 * dc0;
                                assert(moves@[j] == mid1[j]);
                                assert(moves@[j].to.0 == t_r && moves@[j].to.1 == t_c);
                            }
                        }
                    }
                },
                CheckerType::King => {
                    self.push_quiet_dir(row, col, &checker, -1, -1, &mut moves);
                    let ghost mid1 = moves@;
                    self.push_quiet_dir(row, col, &checker, -1, 1, &mut moves);
                    let ghost mid2 = moves@;
                    self.push_quiet_dir(row, col, &checker, 1, -1, &mut moves);
                    let ghost mid3 = moves@;
                    self.push_quiet_dir(row, col, &checker, 1, 1, &mut moves);
                    proof {
                        lemma_seq_prefix_index(moves@, mid3);
                        lemma_seq_prefix_index(mid3, mid2);
                        lemma_seq_prefix_index(mid2, mid1);
                        assert forall|i: int| 0 <= i < moves@.len() implies {
                            let mv = #[trigger] moves@[i];
                            &&& mv.from.0 == row && mv.from.1 == col
                            &&& mv.captures@.len() == 0
                            &&& quiet_move_ok(b, ch, row as int, col as int, mv.to.0 as int, mv.to.1 as int)
                        } by {
                            if i < mid1.len() {
                                assert(moves@[i] == mid3[i] && mid3[i] == mid2[i] && mid2[i] == mid1[i]);
                            } else if i < mid2.len() {
                                assert(moves@[i] == mid3[i] && mid3[i] == mid2[i]);
                            } else if i < mid3.len() {
                                assert(moves@[i] == mid3[i]);
                            }
                        }
                        assert forall|t_r: int, t_c: int|
                            #[trigger] quiet_move_ok(b, ch, row as int, col as int, t_r, t_c)
                                implies exists|i: int| 0 <= i < moves@.len()
                                    && #[trigger] moves@[i].to.0 == t_r && moves@[i].to.1 == t_c by {
                            let (dr0, dc0, m0) = choose|dr0: int, dc0: int, m0: int|
                                quiet_dir_ok(ch, dr0) && (dc0 == 1 || dc0 == -1)
                                    && #[trigger] quiet_target(row as int, col as int, dr0, dc0, m0, t_r, t_c)
                                    && m0 >= 1 && (ch.checker_type is Regular ==> m0 == 1)
                                    && quiet_ray_ok(b, row as int, col as int, dr0, dc0, m0);
                            assert(dr0 == 1 || dr0 == -1);
                            if dr0 == -1 && dc0 == -1 {
                                let j = choose|j: int| 0 <= j < mid1.len()
                                    && #[trigger] mid1[j].to.0 == row + m0 * dr0 && mid1[j].to.1 == col + m0 * dc0;
                                assert(moves@[j] == mid3[j] && mid3[j] == mid2[j] && mid2[j] == mid1[j]);
                                assert(moves@[j].to.0 == t_r && moves@[j].to.1 == t_c);
                            } else if dr0 == -1 && dc0 == 1 {
                                let j = choose|j: int| mid1.len() <= j < mid2.len()
                                    && #[trigger] mid2[j].to.0 == row + m0 * dr0 && mid2[j].to.1 == col + m0 * dc0;
                                assert(moves@[j] == mid3[j] && mid3[j] == mid2[j]);
                                assert(moves@[j].to.0 == t_r && moves@[j].to.1 == t_c);
                            } else if dr0 == 1 && dc0 == -1 {
                                let j = choose|j: int| mid2.len() <= j < mid3.len()
                                    && #[trigger] mid3[j].to.0 == row + m0 * dr0 && mid3[j].to.1 == col + m0 * dc0;
                                assert(moves@[j] == mid3[j]);
                                assert(moves@[j].to.0 == t_r && moves@[j].to.1 == t_c);
                            }
                        }
                    }
                },
            }
        }

        moves
    }

    /// Every move of the side to move: all capture moves when any side
    /// piece can capture (captures are mandatory), otherwise all quiet
    /// moves, scanning the board square by square. The listing is complete:
    /// under forced capture it holds every piece's every single jump with
    /// each landing square (and the chained continuations the per-square
    /// search finds), otherwise every piece's every quiet move.
    #[verifier::rlimit(100)]
    pub fn get_all_possible_moves(&self) -> (all_moves: Vec<CheckersMove>)
        ensures
            spec_has_forced_capture(*self) ==> all_moves@.len() > 0,
            spec_has_forced_capture(*self) ==> forall|i: int|
                0 <= i < all_moves@.len() ==> listed_capture_ok(*self, #[trigger] all_moves@[i]),
            !spec_has_forced_capture(*self) ==> forall|i: int|
                0 <= i < all_moves@.len() ==> listed_quiet_ok(*self, #[trigger] all_moves@[i]),
            spec_has_forced_capture(*self) ==> forall|r: int, c: int|
                #[trigger] mover_square(*self, r, c) ==> square_jumps_covered(*self, all_moves@, r, c),
            !spec_has_forced_capture(*self) ==> forall|r: int, c: int|
                #[trigger] mover_square(*self, r, c) ==> quiet_moves_covered(*self, all_moves@, r, c),
    {
        let mut all_moves: Vec<CheckersMove> = Vec::new();
        let has_captures = self.has_forced_captures();

        for row in 0..8
            invariant
                forall|rr: int, cc: int| 0 <= rr < row && 0 <= cc < 8 && capturable_square(*self, rr, cc)
                    ==> all_moves@.len() > 0,
                has_captures == spec_has_forced_capture(*self),
                has_captures ==> forall|i: int|
                    0 <= i < all_moves@.len() ==> listed_capture_ok(*self, #[trigger] all_moves@[i]),
                !has_captures ==> forall|i: int|
                    0 <= i < all_moves@.len() ==> listed_quiet_ok(*self, #[trigger] all_moves@[i]),
                has_captures ==> forall|rr: int, cc: int|
                    0 <= rr < row && 0 <= cc < 8 && #[trigger] mover_square(*self, rr, cc)
                        ==> square_jumps_covered(*self, all_moves@, rr, cc),
                !has_captures ==> forall|rr: int, cc: int|
                    0 <= rr < row && 0 <= cc < 8 && #[trigger] mover_square(*self, rr, cc)
                        ==> quiet_moves_covered(*self, all_moves@, rr, cc),
        {
            for col in 0..8
                invariant
                    row < 8,
                    forall|rr: int, cc: int| 0 <= rr < row && 0 <= cc < 8 && capturable_square(*self, rr, cc)
                        ==> all_moves@.len() > 0,
                    forall|cc: int| 0 <= cc < col && capturable_square(*self, row as int, cc)
                        ==> all_moves@.len() > 0,
                    has_captures == spec_has_forced_capture(*self),
                    has_captures ==> forall|i: int|
                        0 <= i < all_moves@.len() ==> listed_capture_ok(*self, #[trigger] all_moves@[i]),
                    !has_captures ==> forall|i: int|
                        0 <= i < all_moves@.len() ==> listed_quiet_ok(*self, #[trigger] all_moves@[i]),
                    has_captures ==> forall|rr: int, cc: int|
                        0 <= rr < row && 0 <= cc < 8 && #[trigger] mover_square(*self, rr, cc)
                            ==> square_jumps_covered(*self, all_moves@, rr, cc),
                    !has_captures ==> forall|rr: int, cc: int|
                        0 <= rr < row && 0 <= cc < 8 && #[trigger] mover_square(*self, rr, cc)
                            ==> quiet_moves_covered(*self, all_moves@, rr, cc),
                    has_captures ==> forall|cc: int|
                        0 <= cc < col && #[trigger] mover_square(*self, row as int, cc)
                            ==> square_jumps_covered(*self, all_moves@, row as int, cc),
                    !has_captures ==> forall|cc: int|
                        0 <= cc < col && #[trigger] mover_square(*self, row as int, cc)
                            ==> quiet_moves_covered(*self, all_moves@, row as int, cc),
            {
                if let Some(checker) = self.board[row][col] {
                    if checker.player == self.current_player {
                        if has_captures {
                            let mut square_moves = self.get_possible_captures(row, col);
                            let ghost sq = square_moves@;
                            let ghost pre = all_moves@;
                            all_moves.append(&mut square_moves);
                            proof {
                                assert(all_moves@.subrange(0, pre.len() as int) =~= pre);
                                assert forall|i: int| 0 <= i < all_moves@.len()
                                    implies listed_capture_ok(*self, #[trigger] all_moves@[i]) by {
                                    if i >= pre.len() {
                                        assert(all_moves@[i] == sq[i - pre.len()]);
                                        assert(sq[i - pre.len()].from == (row, col));
                                        assert(on_board(row as int, col as int));
                                    } else {
                                        assert(all_moves@[i] == pre[i]);
                                    }
                                }
                                assert(square_jumps_covered(*self, all_moves@, row as int, col as int)) by {
                                    assert forall|dr0: int, dc0: int, m0: int|
                                        ({
                                            let ch = self.spec_board()[row as int][col as int]->0;
                                            &&& capture_dir_ok(ch, dr0)
                                            &&& (dc0 == 1 || dc0 == -1)
                                            &&& 1 <= m0 && (ch.checker_type is Regular ==> m0 == 1)
                                            &&& on_board(row + dr0, col + dc0)
                                            &&& is_piece_of(self.spec_board()[row + dr0][col + dc0], opponent(ch.player))
                                            &&& #[trigger] quiet_ray_ok(self.spec_board(), row + dr0, col + dc0, dr0, dc0, m0)
                                        }) implies exists|i: int| 0 <= i < all_moves@.len() && records_jump(
                                            #[trigger] all_moves@[i], row as int, col as int, row + dr0, col + dc0,
                                            row + (m0 + 1) * dr0, col + (m0 + 1) * dc0, Seq::empty(),
                                        ) by {
                                        let j = choose|j: int| 0 <= j < sq.len() && records_jump(
                                            #[trigger] sq[j], row as int, col as int, row + dr0, col + dc0,
                                            row + (m0 + 1) * dr0, col + (m0 + 1) * dc0, Seq::empty(),
                                        );
                                        assert(all_moves@[pre.len() + j] == sq[j]);
                                    }
                                }
                                assert forall|rr: int, cc: int|
                                    (0 <= rr < row || (rr == row && 0 <= cc < col)) && 0 <= cc < 8
                                        && #[trigger] mover_square(*self, rr, cc)
                                    implies square_jumps_covered(*self, all_moves@, rr, cc) by {
                                    lemma_jumps_covered_extend(*self, pre, all_moves@, rr, cc);
                                }
                            }
                        } else {
                            let mut square_moves = self.get_possible_moves(row, col);
                            let ghost sq = square_moves@;
                            let ghost pre = all_moves@;
                            all_moves.append(&mut square_moves);
                            proof {
                                assert(!capturable_square(*self, row as int, col as int));
                                assert(all_moves@.subrange(0, pre.len() as int) =~= pre);
                                assert forall|i: int| 0 <= i < all_moves@.len()
                                    implies listed_quiet_ok(*self, #[trigger] all_moves@[i]) by {
                                    if i >= pre.len() {
                                        assert(all_moves@[i] == sq[i - pre.len()]);
                                        assert(on_board(row as int, col as int));
                                    } else {
                                        assert(all_moves@[i] == pre[i]);
                                    }
                                }
                                assert(quiet_moves_covered(*self, all_moves@, row as int, col as int)) by {
                                    let ch = self.spec_board()[row as int][col as int]->0;
                                    assert forall|t_r: int, t_c: int|
                                        #[trigger] quiet_move_ok(self.spec_board(), ch, row as int, col as int, t_r, t_c)
                                        implies exists|i: int| 0 <= i < all_moves@.len()
                                            && (#[trigger] all_moves@[i]).from.0 == row && all_moves@[i].from.1 == col
                                            && all_moves@[i].to.0 == t_r && all_moves@[i].to.1 == t_c by {
                                        let j = choose|j: int| 0 <= j < sq.len()
                                            && #[trigger] sq[j].to.0 == t_r && sq[j].to.1 == t_c;
                                        assert(sq[j].from == (row, col));
                                        assert(all_moves@[pre.len() + j] == sq[j]);
                                    }
                                }
                                assert forall|rr: int, cc: int|
                                    (0 <= rr < row || (rr == row && 0 <= cc < col)) && 0 <= cc < 8
                                        && #[trigger] mover_square(*self, rr, cc)
                                    implies quiet_moves_covered(*self, all_moves@, rr, cc) by {
                                    lemma_quiet_covered_extend(*self, pre, all_moves@, rr, cc);
                                }
                            }
                        }
                    }
                }
                proof {
                    if capturable_square(*self, row as int, col as int) {
                        assert(all_moves@.len() > 0);
                    }
                    if !mover_square(*self, row as int, col as int) {
                        assert(!capturable_square(*self, row as int, col as int));
                    }
                }
            }
        }
        proof {
            if spec_has_forced_capture(*self) {
                let (rr, cc) = choose|rr: int, cc: int| capturable_square(*self, rr, cc);
                assert(all_moves@.len() > 0);
            }
        }
        all_moves
    }

    /// An advisory helper: a capture move of the side to move with the most
    /// captured pieces, or `None` when no capture is available. No chain of
    /// jumps anywhere on the board captures strictly more pieces than the
    /// returned move. It does not restrict play: the engine only requires
    /// that some capture be taken, not the longest.
    #[verifier::rlimit(100)]
    pub fn find_best_capture(&self) -> (best: Option<CheckersMove>)
        ensures
            best is Some <==> spec_has_forced_capture(*self),
            best is Some ==> listed_capture_ok(*self, best->0),
            best is Some ==> forall|r: int, c: int, steps: Seq<((usize, usize), (usize, usize))>|
                mover_square(*self, r, c) && steps.len() >= 1 && #[trigger] chain_steps_ok(
                    self.spec_board(), self.spec_board()[r][c]->0, r, c, steps, Seq::empty(),
                ) ==> steps.len() <= best->0.captures@.len(),
    {
        let ghost b = self.spec_board();
        let mut best_capture: Option<CheckersMove> = None;
        let mut max_captures: usize = 0;

        for row in 0..8
            invariant
                b == self.spec_board(),
                best_capture is Some <==> exists|rr: int, cc: int|
                    0 <= rr < row && 0 <= cc < 8 && #[trigger] capturable_square(*self, rr, cc),
                best_capture is Some ==> listed_capture_ok(*self, best_capture->0),
                best_capture is Some ==> max_captures >= 1,
                best_capture is Some ==> best_capture->0.captures@.len() == max_captures,
                best_capture is None ==> max_captures == 0,
                forall|rr: int, cc: int, steps: Seq<((usize, usize), (usize, usize))>|
                    0 <= rr < row && 0 <= cc < 8 && mover_square(*self, rr, cc) && steps.len() >= 1
                        && #[trigger] chain_steps_ok(b, b[rr][cc]->0, rr, cc, steps, Seq::empty())
                        ==> steps.len() <= max_captures,
        {
            for col in 0..8
                invariant
                    row < 8,
                    b == self.spec_board(),
                    best_capture is Some <==> (exists|rr: int, cc: int|
                        0 <= rr < row && 0 <= cc < 8 && #[trigger] capturable_square(*self, rr, cc))
                        || (exists|cc: int| 0 <= cc < col && #[trigger] capturable_square(*self, row as int, cc)),
                    best_capture is Some ==> listed_capture_ok(*self, best_capture->0),
                    best_capture is Some ==> max_captures >= 1,
                    best_capture is Some ==> best_capture->0.captures@.len() == max_captures,
                    best_capture is None ==> max_captures == 0,
                    forall|rr: int, cc: int, steps: Seq<((usize, usize), (usize, usize))>|
                        0 <= rr < row && 0 <= cc < 8 && mover_square(*self, rr, cc) && steps.len() >= 1
                            && #[trigger] chain_steps_ok(b, b[rr][cc]->0, rr, cc, steps, Seq::empty())
                            ==> steps.len() <= max_captures,
                    forall|cc: int, steps: Seq<((usize, usize), (usize, usize))>|
                        0 <= cc < col && mover_square(*self, row as int, cc) && steps.len() >= 1
                            && #[trigger] chain_steps_ok(b, b[row as int][cc]->0, row as int, cc, steps, Seq::empty())
                            ==> steps.len() <= max_captures,
            {
                if let Some(checker) = self.board[row][col] {
                    if checker.player == self.current_player {
                        let captures = self.get_possible_captures(row, col);
                        let ghost had = best_capture;
                        for k in 0..captures.len()
                            invariant
                                row < 8,
                                col < 8,
                                b == self.spec_board(),
                                captures@.len() > 0 ==> capturable_square(*self, row as int, col as int),
                                forall|i: int| 0 <= i < captures@.len()
                                    ==> (#[trigger] captures@[i]).from == (row, col),
                                forall|i: int| 0 <= i < captures@.len() ==> chain_extension_ok(
                                    b, b[row as int][col as int]->0,
                                    row as int, col as int, #[trigger] captures@[i], Seq::empty(),
                                ),
                                b[row as int][col as int] is Some,
                                best_capture is Some <==> (had is Some || (k > 0 && captures@.len() > 0)),
                                k > 0 && captures@.len() > 0 ==> best_capture is Some,
                                best_capture is Some ==> listed_capture_ok(*self, best_capture->0),
                                best_capture is Some ==> max_captures >= 1,
                                best_capture is Some ==> best_capture->0.captures@.len() == max_captures,
                                best_capture is None ==> max_captures == 0,
                                forall|i: int| 0 <= i < k
                                    ==> (#[trigger] captures@[i]).captures@.len() <= max_captures,
                                forall|rr: int, cc: int, steps: Seq<((usize, usize), (usize, usize))>|
                                    0 <= rr < row && 0 <= cc < 8 && mover_square(*self, rr, cc) && steps.len() >= 1
                                        && #[trigger] chain_steps_ok(b, b[rr][cc]->0, rr, cc, steps, Seq::empty())
                                        ==> steps.len() <= max_captures,
                                forall|cc: int, steps: Seq<((usize, usize), (usize, usize))>|
                                    0 <= cc < col && mover_square(*self, row as int, cc) && steps.len() >= 1
                                        && #[trigger] chain_steps_ok(b, b[row as int][cc]->0, row as int, cc, steps, Seq::empty())
                                        ==> steps.len() <= max_captures,
                        {
                            let cap_len = captures[k].captures.len();
                            if cap_len > max_captures {
                                max_captures = cap_len;
                                best_capture = Some(captures[k].clone());
                                proof {
                                    assert(on_board(row as int, col as int));
                                    assert(captures@[k as int].from == (row, col));
                                    assert(chain_extension_ok(
                                        b, b[row as int][col as int]->0,
                                        row as int, col as int, captures@[k as int], Seq::empty(),
                                    ));
                                }
                            } else {
                                proof {
                                    // the first capture of an empty best is longer than 0
                                    assert(captures@[k as int].captures@.len() >= 1);
                                    assert(best_capture is Some);
                                }
                            }
                        }
                        proof {
                            let ch = b[row as int][col as int]->0;
                            assert forall|steps: Seq<((usize, usize), (usize, usize))>|
                                steps.len() >= 1 && #[trigger] chain_steps_ok(b, ch, row as int, col as int, steps, Seq::empty())
                                implies steps.len() <= max_captures by {
                                let j = choose|j: int| 0 <= j < captures@.len()
                                    && (#[trigger] captures@[j]).to == steps.last().1
                                    && captures@[j].captures@ == step_victims(steps);
                                assert(step_victims(steps).len() == steps.len());
                                assert(captures@[j].captures@.len() <= max_captures);
                            }
                        }
                    }
                }
                proof {
                    if mover_square(*self, row as int, col as int)
                        && !is_piece_of(b[row as int][col as int], self.spec_current_player()) {
                        assert(false);
                    }
                }
            }
        }
        proof {
            if best_capture is Some {
                assert forall|r: int, c: int, steps: Seq<((usize, usize), (usize, usize))>|
                    mover_square(*self, r, c) && steps.len() >= 1 && #[trigger] chain_steps_ok(
                        b, b[r][c]->0, r, c, steps, Seq::empty(),
                    ) implies steps.len() <= max_captures by {
                }
            }
        }
        best_capture
    }

    /// Starts the game over: the standard initial setup, White to move,
    /// with the history cleared.
    pub fn reset(&mut self)
        ensures
            forall|r: int, c: int| on_board(r, c) ==> final(self).spec_board()[r][c] == initial_cell(r, c),
            final(self).spec_current_player() == CheckersPlayer::White,
            !final(self).spec_game_over(),
            final(self).spec_last_move() is None,
            final(self).spec_history() == Seq::<MoveLog>::empty(),
            playable_only(final(self).spec_board()),
    {
        *self = Self::new();
    }

    /// The move validator: quiet moves and single-step (midpoint) captures.
    fn is_valid_move(&self, from_row: usize, from_col: usize, to_row: usize, to_col: usize, checker: &Checker) -> (r: bool)
        requires
            from_row < 8,
            from_col < 8,
            to_row < 8,
            to_col < 8,
        ensures
            r == spec_is_valid_move(
                self.spec_board(),
                from_row as int,
                from_col as int,
                to_row as int,
                to_col as int,
                *checker,
            ),
    {
        let row_diff = to_row as i32 - from_row as i32;
        let col_diff = to_col as i32 - from_col as i32;
        let row_abs = if row_diff < 0 { -row_diff } else { row_diff };
        let col_abs = if col_diff < 0 { -col_diff } else { col_diff };

        if row_abs != col_abs {
            return false;
        }

        let is_capture = row_abs == 2;

        match checker.checker_type {
            CheckerType::Regular => {
                let direction = checker.player.direction();
                if is_capture {
                    if row_diff != direction * 2 || col_abs != 2 {
                        return false;
                    }
                } else {
                    if row_diff != direction || col_abs != 1 {
                        return false;
                    }
                }
            },
            CheckerType::King => {
                if row_abs < 1 || col_abs < 1 {
                    return false;
                }
            },
        }

        if is_capture {
            let mid_row = (from_row + to_row) / 2;
            let mid_col = (from_col + to_col) / 2;
            match self.board[mid_row][mid_col] {
                Some(mid_checker) => {
                    if mid_checker.player == checker.player {
                        return false;
                    }
                },
                None => {
                    return false;
                },
            }
        } else {
            if !self.is_path_clear(from_row, from_col, to_row, to_col) {
                return false;
            }
        }

        true
    }

    /// Whether every square strictly between the two endpoints of a
    /// diagonal is empty.
    fn is_path_clear(&self, from_row: usize, from_col: usize, to_row: usize, to_col: usize) -> (r: bool)
        requires
            from_row < 8,
            from_col < 8,
            to_row < 8,
            to_col < 8,
            abs_diff(to_row - from_row) == abs_diff(to_col - from_col),
            to_row != from_row,
        ensures
            r == path_clear(self.spec_board(), from_row as int, from_col as int, to_row as int, to_col as int),
    {
        let ghost sr: int = step_sign(to_row - from_row);
        let ghost sc: int = step_sign(to_col - from_col);
        let dist = if to_row > from_row { to_row - from_row } else { from_row - to_row };
        let row_step: i32 = if to_row > from_row { 1 } else { -1 };
        let col_step: i32 = if to_col > from_col { 1 } else { -1 };

        let mut current_row = from_row as i32 + row_step;
        let mut current_col = from_col as i32 + col_step;
        let mut k: usize = 1;
        proof {
            assert(1 * sr == sr && 1 * sc == sc) by (nonlinear_arith);
        }
        while k < dist
            invariant
                1 <= k <= dist,
                from_row < 8,
                from_col < 8,
                to_row < 8,
                to_col < 8,
                to_row != from_row,
                dist == abs_diff(to_row - from_row),
                abs_diff(to_row - from_row) == abs_diff(to_col - from_col),
                row_step as int == sr,
                col_step as int == sc,
                sr == step_sign(to_row - from_row),
                sc == step_sign(to_col - from_col),
                current_row as int == from_row + (k as int) * sr,
                current_col as int == from_col + (k as int) * sc,
                ray_clear(self.spec_board(), from_row as int, from_col as int, sr, sc, k - 1),
            decreases dist - k,
        {
            proof {
                let ki = k as int;
                assert(ki * sr == (if sr == 1 { ki } else { -ki })) by (nonlinear_arith)
                    requires
                        sr == 1 || sr == -1,
                        ki >= 0,
                ;
                assert(ki * sc == (if sc == 1 { ki } else { -ki })) by (nonlinear_arith)
                    requires
                        sc == 1 || sc == -1,
                        ki >= 0,
                ;
            }
            if self.board[current_row as usize][current_col as usize].is_some() {
                proof {
                    if path_clear(self.spec_board(), from_row as int, from_col as int, to_row as int, to_col as int) {
                        lemma_ray_clear_index(
                            self.spec_board(),
                            from_row as int,
                            from_col as int,
                            sr,
                            sc,
                            dist - 1,
                            k as int,
                        );
                    }
                }
                return false;
            }
            proof {
                lemma_ray_clear_snoc(self.spec_board(), from_row as int, from_col as int, sr, sc, k - 1);
                assert(((k + 1) as int) * sr == (k as int) * sr + sr) by (nonlinear_arith);
                assert(((k + 1) as int) * sc == (k as int) * sc + sc) by (nonlinear_arith);
            }
            current_row = current_row + row_step;
            current_col = current_col + col_step;
            k = k + 1;
        }
        true
    }

    /// Whether a regular piece of `checker`'s side is promoted on reaching
    /// row `row`.
    fn should_promote_to_king(&self, row: usize, _col: usize, checker: &Checker) -> (r: bool)
        ensures
            r == promotes(*checker, row as int),
    {
        if checker.is_king() {
            return false;
        }
        match checker.player {
            CheckersPlayer::White => row == 7,
            CheckersPlayer::Black => row == 0,
        }
    }

    /// Whether the move is classified as a capture attempt: a diagonal step
    /// of exactly two rows and two columns.
    pub fn is_capture_move(&self, from_row: usize, from_col: usize, to_row: usize, to_col: usize) -> (r: bool)
        ensures
            r == spec_capture_geom(from_row as int, from_col as int, to_row as int, to_col as int),
    {
        let row_abs = if to_row >= from_row { to_row - from_row } else { from_row - to_row };
        let col_abs = if to_col >= from_col { to_col - from_col } else { from_col - to_col };
        row_abs == 2 && col_abs == 2
    }

    /// The number of committed moves in the history.
    pub fn move_history_len(&self) -> (n: usize)
        ensures
            n == self.spec_history().len(),
    {
        self.move_history.len()
    }

    /// The history entry at `index`, oldest first, or `None` past the end.
    pub fn get_move_at(&self, index: usize) -> (r: Option<&MoveLog>)
        ensures
            index < self.spec_history().len() ==> r == Some(&self.spec_history()[index as int]),
            index >= self.spec_history().len() ==> r is None,
    {
        self.move_history.get(index)
    }
}

/// Forced capture, first half: whenever the side to move has any capture
/// available, `make_move` rejects every quiet attempt — a move whose
/// geometry is not that of a capture is never allowed.
pub proof fn lemma_forced_capture_blocks_quiet(s: Checkers, fr: int, fc: int, tr: int, tc: int)
    requires
        spec_has_forced_capture(s),
        !spec_capture_geom(fr, fc, tr, tc),
    ensures
        !move_allowed(s, fr, fc, tr, tc),
{
}

/// Forced capture, second half: a single capture that is actually on the
/// board — the mover's piece with an opposing piece diagonally adjacent in
/// a legal capture direction and an empty playable square just beyond —
/// is allowed by `make_move`, whether or not other captures exist.
pub proof fn lemma_capture_move_allowed(s: Checkers, fr: int, fc: int, tr: int, tc: int)
    requires
        !s.spec_game_over(),
        on_board(fr, fc),
        on_board(tr, tc),
        spec_capture_geom(fr, fc, tr, tc),
        match s.spec_board()[fr][fc] {
            Some(ch) => ch.player == s.spec_current_player() && capture_dir_ok(ch, (tr - fr) / 2),
            None => false,
        },
        is_piece_of(
            s.spec_board()[(fr + tr) / 2][(fc + tc) / 2],
            opponent(s.spec_board()[fr][fc]->0.player),
        ),
        s.spec_board()[tr][tc] is None,
        playable(tr, tc),
    ensures
        move_allowed(s, fr, fc, tr, tc),
{
    let ch = s.spec_board()[fr][fc]->0;
    let dr = tr - fr;
    let dc = tc - fc;
    assert(dr == 2 || dr == -2);
    assert(dc == 2 || dc == -2);
    assert(dr == 2 * (dr / 2));
    assert(spec_is_valid_move(s.spec_board(), fr, fc, tr, tc, ch));
}

} // verus!

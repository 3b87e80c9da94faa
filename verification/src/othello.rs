//! The Othello board engine: cell and player types, the mathematical model
//! of move legality and flipping, and the verified move algorithm.

use vstd::prelude::*;

verus! {

/// The contents of one board cell.
#[derive(Clone, Copy, Debug, PartialEq, Eq, Structural)]
pub enum GamePositionState {
    Empty,
    Black,
    White,
}

/// One of the two players.
#[derive(Clone, Copy, Debug, PartialEq, Eq, Structural)]
pub enum GamePlayer {
    White,
    Black,
}

/// True of a cell that holds a piece (is not empty).
pub open spec fn is_piece(c: GamePositionState) -> bool {
    c != GamePositionState::Empty
}

/// The color opposing `c`; `Empty` opposes nothing and is its own image.
pub open spec fn opp_color(c: GamePositionState) -> GamePositionState {
    match c {
        GamePositionState::White => GamePositionState::Black,
        GamePositionState::Black => GamePositionState::White,
        GamePositionState::Empty => GamePositionState::Empty,
    }
}

/// The player opposing `p`.
pub open spec fn opp_player(p: GamePlayer) -> GamePlayer {
    match p {
        GamePlayer::White => GamePlayer::Black,
        GamePlayer::Black => GamePlayer::White,
    }
}

/// The cell color of the pieces that player `p` places.
pub open spec fn color_of(p: GamePlayer) -> GamePositionState {
    match p {
        GamePlayer::White => GamePositionState::White,
        GamePlayer::Black => GamePositionState::Black,
    }
}

impl GamePositionState {
    /// The opposing color, as an executable function.
    pub fn opponent(self) -> (r: GamePositionState)
        ensures
            r == opp_color(self),
    {
        match self {
            GamePositionState::White => GamePositionState::Black,
            GamePositionState::Black => GamePositionState::White,
            GamePositionState::Empty => GamePositionState::Empty,
        }
    }
}

impl GamePlayer {
    /// The color of the pieces this player places.
    pub fn get_chess_color(self) -> (r: GamePositionState)
        ensures
            r == color_of(self),
    {
        match self {
            GamePlayer::White => GamePositionState::White,
            GamePlayer::Black => GamePositionState::Black,
        }
    }

    /// The opposing player, as an executable function.
    pub fn opponent(self) -> (r: GamePlayer)
        ensures
            r == opp_player(self),
    {
        match self {
            GamePlayer::White => GamePlayer::Black,
            GamePlayer::Black => GamePlayer::White,
        }
    }
}

/// True of a coordinate that lies on the board.
pub open spec fn in_range(i: int) -> bool {
    0 <= i <= 7
}

/// The cell of board `b` at column `x`, row `y`; any coordinate outside the
/// grid reads as `Empty` (an implicit infinite border of empty cells).
pub open spec fn cell_at(b: Seq<GamePositionState>, x: int, y: int) -> GamePositionState {
    if in_range(x) && in_range(y) {
        b[x + 8 * y]
    } else {
        GamePositionState::Empty
    }
}

/// A direction vector: each component is -1, 0 or 1, and not both are 0.
pub open spec fn valid_dir(dx: int, dy: int) -> bool {
    &&& -1 <= dx <= 1
    &&& -1 <= dy <= 1
    &&& !(dx == 0 && dy == 0)
}

/// The cell `k` steps from `(x, y)` along direction `(dx, dy)`.
pub open spec fn ray_cell(
    b: Seq<GamePositionState>,
    x: int,
    y: int,
    dx: int,
    dy: int,
    k: int,
) -> GamePositionState {
    cell_at(b, x + k * dx, y + k * dy)
}

/// True when `(u, v)` is the cell `k` steps from `(x, y)` along `(dx, dy)`.
pub open spec fn on_ray(x: int, y: int, dx: int, dy: int, k: int, u: int, v: int) -> bool {
    u == x + k * dx && v == y + k * dy
}

/// The column component of compass direction number `d`.
pub open spec fn dir_dx(d: int) -> int {
    if d == 0 {
        0
    } else if d == 1 {
        0
    } else if d == 2 {
        1
    } else if d == 3 {
        -1
    } else if d == 4 {
        -1
    } else if d == 5 {
        1
    } else if d == 6 {
        -1
    } else {
        1
    }
}

/// The row component of compass direction number `d`.
pub open spec fn dir_dy(d: int) -> int {
    if d == 0 {
        1
    } else if d == 1 {
        -1
    } else if d == 2 {
        0
    } else if d == 3 {
        0
    } else if d == 4 {
        -1
    } else if d == 5 {
        1
    } else if d == 6 {
        1
    } else {
        -1
    }
}

/// A capture in direction `(dx, dy)` from `(x, y)` bounded at step `n`:
/// every cell strictly between the origin and step `n` holds the opponent
/// of `c` (there is at least one such cell), and step `n` holds `c` itself.
pub open spec fn capture_to(
    b: Seq<GamePositionState>,
    c: GamePositionState,
    x: int,
    y: int,
    dx: int,
    dy: int,
    n: int,
) -> bool {
    &&& 2 <= n <= 7
    &&& forall|k: int| 1 <= k < n ==> ray_cell(b, x, y, dx, dy, k) == opp_color(c)
    &&& ray_cell(b, x, y, dx, dy, n) == c
}

/// Some bounded opponent run exists in direction `(dx, dy)` from `(x, y)`.
pub open spec fn captures_in_dir(
    b: Seq<GamePositionState>,
    c: GamePositionState,
    x: int,
    y: int,
    dx: int,
    dy: int,
) -> bool {
    exists|n: int| capture_to(b, c, x, y, dx, dy, n)
}

/// Some compass direction from `(x, y)` captures for color `c`.
pub open spec fn move_captures(
    b: Seq<GamePositionState>,
    c: GamePositionState,
    x: int,
    y: int,
) -> bool {
    exists|d: int| 0 <= d < 8 && captures_in_dir(b, c, x, y, dir_dx(d), dir_dy(d))
}

/// A move by color `c` at `(x, y)` is legal: the target lies on the board,
/// is empty, and at least one direction captures.
pub open spec fn legal_move(
    b: Seq<GamePositionState>,
    c: GamePositionState,
    x: int,
    y: int,
) -> bool {
    &&& in_range(x)
    &&& in_range(y)
    &&& cell_at(b, x, y) == GamePositionState::Empty
    &&& move_captures(b, c, x, y)
}

/// Cell `(u, v)` is flipped by a move of color `c` at `(x, y)` through one
/// of the first `dcount` compass directions.
pub open spec fn flipped_upto(
    b: Seq<GamePositionState>,
    c: GamePositionState,
    x: int,
    y: int,
    u: int,
    v: int,
    dcount: int,
) -> bool {
    exists|d: int, k: int, n: int|
        0 <= d < dcount && 1 <= k < n && capture_to(b, c, x, y, dir_dx(d), dir_dy(d), n)
            && on_ray(x, y, dir_dx(d), dir_dy(d), k, u, v)
}

/// Cell `(u, v)` is flipped by a move of color `c` at `(x, y)`.
pub open spec fn flipped_cell(
    b: Seq<GamePositionState>,
    c: GamePositionState,
    x: int,
    y: int,
    u: int,
    v: int,
) -> bool {
    flipped_upto(b, c, x, y, u, v, 8)
}

/// The contents of cell `(u, v)` after a legal move of color `c` at `(x, y)`
/// applied to board `b`: the placed piece, the flipped runs, and everything
/// else untouched.
pub open spec fn cell_after_move(
    b: Seq<GamePositionState>,
    c: GamePositionState,
    x: int,
    y: int,
    u: int,
    v: int,
) -> GamePositionState {
    if u == x && v == y {
        c
    } else if flipped_cell(b, c, x, y, u, v) {
        c
    } else {
        cell_at(b, u, v)
    }
}

/// Board `b2` is the result of applying a legal move of color `c` at
/// `(x, y)` to board `b`.
pub open spec fn board_after_move(
    b2: Seq<GamePositionState>,
    b: Seq<GamePositionState>,
    c: GamePositionState,
    x: int,
    y: int,
) -> bool {
    forall|u: int, v: int|
        in_range(u) && in_range(v) ==> #[trigger] cell_at(b2, u, v) == cell_after_move(
            b,
            c,
            x,
            y,
            u,
            v,
        )
}

/// The standard opening position: the four center cells hold the two
/// colors diagonally, every other cell is empty.
pub open spec fn init_cell(u: int, v: int) -> GamePositionState {
    if u == 3 && v == 3 {
        GamePositionState::White
    } else if u == 4 && v == 3 {
        GamePositionState::Black
    } else if u == 3 && v == 4 {
        GamePositionState::Black
    } else if u == 4 && v == 4 {
        GamePositionState::White
    } else {
        GamePositionState::Empty
    }
}

/// How one call of [`GameState::play`] relates the state before the call
/// (`pre_b`, `pre_p`), the state after it (`post_b`, `post_p`) and its
/// result `r`, for the player `player` claiming the move at `(x, y)`.
pub open spec fn play_transition(
    pre_b: Seq<GamePositionState>,
    pre_p: GamePlayer,
    player: GamePlayer,
    x: int,
    y: int,
    post_b: Seq<GamePositionState>,
    post_p: GamePlayer,
    r: bool,
) -> bool {
    &&& r == (player == pre_p && legal_move(pre_b, color_of(player), x, y))
    &&& (r ==> post_b.len() == 64 && post_p == opp_player(pre_p) && board_after_move(
        post_b,
        pre_b,
        color_of(player),
        x,
        y,
    ))
    &&& (!r ==> post_b == pre_b && post_p == pre_p)
}

/// Reads the cell of `board` at `(x, y)`, with the empty implicit border:
/// a coordinate outside the grid yields `Empty`.
fn cell_of(board: &Vec<GamePositionState>, x: i32, y: i32) -> (r: GamePositionState)
    requires
        board@.len() == 64,
    ensures
        r == cell_at(board@, x as int, y as int),
{
    if x < 0 || x > 7 || y < 0 || y > 7 {
        GamePositionState::Empty
    } else {
        board[(x + 8 * y) as usize]
    }
}

/// Writes cell `(x, y)` of `board`, which must lie on the grid; every other
/// cell keeps its contents.
fn set_cell(board: &mut Vec<GamePositionState>, x: i32, y: i32, c: GamePositionState)
    requires
        old(board)@.len() == 64,
        in_range(x as int),
        in_range(y as int),
    ensures
        final(board)@.len() == 64,
        forall|u: int, v: int|
            in_range(u) && in_range(v) ==> #[trigger] cell_at(final(board)@, u, v) == (if u == x
                as int && v == y as int {
                c
            } else {
                cell_at(old(board)@, u, v)
            }),
{
    let i: usize = (x + 8 * y) as usize;
    board.set(i, c);
}

/// Stepping once more along a direction adds one direction vector.
proof fn lemma_step(k: int, d: int)
    ensures
        (k + 1) * d == k * d + d,
{
    assert((k + 1) * d == k * d + d) by (nonlinear_arith);
}

/// From an on-board origin, a step whose cell is still on the board lies at
/// most 7 cells out.
proof fn lemma_step_bound(x: int, y: int, dx: int, dy: int, k: int)
    requires
        in_range(x),
        in_range(y),
        valid_dir(dx, dy),
        k >= 1,
        in_range(x + k * dx),
        in_range(y + k * dy),
    ensures
        k <= 7,
{
    assert(k <= 7) by (nonlinear_arith)
        requires
            0 <= x <= 7,
            0 <= y <= 7,
            -1 <= dx <= 1,
            -1 <= dy <= 1,
            !(dx == 0 && dy == 0),
            k >= 1,
            0 <= x + k * dx <= 7,
            0 <= y + k * dy <= 7,
    ;
}

/// Two rays cast from one origin in distinct directions share no cell
/// beyond the origin.
proof fn lemma_rays_disjoint(dx1: int, dy1: int, dx2: int, dy2: int, k1: int, k2: int)
    requires
        valid_dir(dx1, dy1),
        valid_dir(dx2, dy2),
        dx1 != dx2 || dy1 != dy2,
        k1 >= 1,
        k2 >= 1,
    ensures
        k1 * dx1 != k2 * dx2 || k1 * dy1 != k2 * dy2,
{
    assert(k1 * dx1 != k2 * dx2 || k1 * dy1 != k2 * dy2) by (nonlinear_arith)
        requires
            -1 <= dx1 <= 1,
            -1 <= dy1 <= 1,
            -1 <= dx2 <= 1,
            -1 <= dy2 <= 1,
            !(dx1 == 0 && dy1 == 0),
            !(dx2 == 0 && dy2 == 0),
            dx1 != dx2 || dy1 != dy2,
            k1 >= 1,
            k2 >= 1,
    ;
}

/// The eight compass direction numbers name eight distinct vectors, each
/// a valid direction.
proof fn lemma_dirs(i: int, j: int)
    requires
        0 <= i < 8,
        0 <= j < 8,
    ensures
        valid_dir(dir_dx(i), dir_dy(i)),
        i != j ==> dir_dx(i) != dir_dx(j) || dir_dy(i) != dir_dy(j),
{
}

/// A direction holds at most one bounded run: the bounding step is unique.
proof fn lemma_capture_unique(
    b: Seq<GamePositionState>,
    c: GamePositionState,
    x: int,
    y: int,
    dx: int,
    dy: int,
    n1: int,
    n2: int,
)
    requires
        is_piece(c),
        capture_to(b, c, x, y, dx, dy, n1),
        capture_to(b, c, x, y, dx, dy, n2),
    ensures
        n1 == n2,
{
    if n1 < n2 {
        assert(ray_cell(b, x, y, dx, dy, n1) == opp_color(c));
        assert(ray_cell(b, x, y, dx, dy, n1) == c);
        assert(false);
    }
    if n2 < n1 {
        assert(ray_cell(b, x, y, dx, dy, n2) == opp_color(c));
        assert(ray_cell(b, x, y, dx, dy, n2) == c);
        assert(false);
    }
}

/// Two boards of 64 cells that agree on every on-board coordinate are equal.
proof fn lemma_board_eq(b1: Seq<GamePositionState>, b2: Seq<GamePositionState>)
    requires
        b1.len() == 64,
        b2.len() == 64,
        forall|u: int, v: int|
            in_range(u) && in_range(v) ==> #[trigger] cell_at(b1, u, v) == cell_at(b2, u, v),
    ensures
        b1 == b2,
{
    assert forall|i: int| 0 <= i < 64 implies b1[i] == b2[i] by {
        let u = i % 8;
        let v = i / 8;
        assert(0 <= u <= 7 && 0 <= v <= 7 && u + 8 * v == i) by (nonlinear_arith)
            requires
                0 <= i < 64,
                u == i % 8,
                v == i / 8,
        ;
        assert(cell_at(b1, u, v) == cell_at(b2, u, v));
    }
    assert(b1 =~= b2);
}

/// Two boards that agree along a ray hold the same bounded runs there.
proof fn lemma_capture_agree(
    b1: Seq<GamePositionState>,
    b2: Seq<GamePositionState>,
    c: GamePositionState,
    x: int,
    y: int,
    dx: int,
    dy: int,
)
    requires
        forall|k: int|
            1 <= k <= 7 ==> #[trigger] ray_cell(b1, x, y, dx, dy, k) == ray_cell(b2, x, y, dx, dy, k),
    ensures
        forall|n: int|
            #[trigger] capture_to(b1, c, x, y, dx, dy, n) == capture_to(b2, c, x, y, dx, dy, n),
        captures_in_dir(b1, c, x, y, dx, dy) == captures_in_dir(b2, c, x, y, dx, dy),
{
    assert forall|n: int|
        #[trigger] capture_to(b1, c, x, y, dx, dy, n) == capture_to(b2, c, x, y, dx, dy, n) by {
        if capture_to(b1, c, x, y, dx, dy, n) {
            assert forall|k: int|
                1 <= k < n implies #[trigger] ray_cell(b2, x, y, dx, dy, k) == opp_color(c) by {
                assert(ray_cell(b1, x, y, dx, dy, k) == opp_color(c));
            }
            assert(ray_cell(b2, x, y, dx, dy, n) == c);
        }
        if capture_to(b2, c, x, y, dx, dy, n) {
            assert forall|k: int|
                1 <= k < n implies #[trigger] ray_cell(b1, x, y, dx, dy, k) == opp_color(c) by {
                assert(ray_cell(b2, x, y, dx, dy, k) == opp_color(c));
            }
            assert(ray_cell(b1, x, y, dx, dy, n) == c);
        }
    }
    if captures_in_dir(b1, c, x, y, dx, dy) {
        let n = choose|n: int| capture_to(b1, c, x, y, dx, dy, n);
        assert(capture_to(b2, c, x, y, dx, dy, n));
    }
    if captures_in_dir(b2, c, x, y, dx, dy) {
        let n = choose|n: int| capture_to(b2, c, x, y, dx, dy, n);
        assert(capture_to(b1, c, x, y, dx, dy, n));
    }
}

/// The direction vector of compass direction number `d`.
fn direction(d: usize) -> (r: (i32, i32))
    requires
        d < 8,
    ensures
        r.0 as int == dir_dx(d as int),
        r.1 as int == dir_dy(d as int),
        valid_dir(r.0 as int, r.1 as int),
{
    if d == 0 {
        (0, 1)
    } else if d == 1 {
        (0, -1)
    } else if d == 2 {
        (1, 0)
    } else if d == 3 {
        (-1, 0)
    } else if d == 4 {
        (-1, -1)
    } else if d == 5 {
        (1, 1)
    } else if d == 6 {
        (-1, 1)
    } else {
        (1, -1)
    }
}

/// Scans outward from `(x, y)` along `(dx, dy)` for a bounded opponent run:
/// returns the bounding step when color `c` captures in that direction, and
/// `None` when the direction contributes nothing.
fn find_capture(
    board: &Vec<GamePositionState>,
    c: GamePositionState,
    x: i32,
    y: i32,
    dx: i32,
    dy: i32,
) -> (r: Option<i32>)
    requires
        board@.len() == 64,
        is_piece(c),
        in_range(x as int),
        in_range(y as int),
        valid_dir(dx as int, dy as int),
    ensures
        match r {
            Some(n) => capture_to(board@, c, x as int, y as int, dx as int, dy as int, n as int),
            None => !captures_in_dir(board@, c, x as int, y as int, dx as int, dy as int),
        },
{
    let oc = c.opponent();
    let mut k: i32 = 1;
    let mut cx: i32 = x + dx;
    let mut cy: i32 = y + dy;
    loop
        invariant
            board@.len() == 64,
            is_piece(c),
            in_range(x as int),
            in_range(y as int),
            valid_dir(dx as int, dy as int),
            oc == opp_color(c),
            1 <= k <= 8,
            cx as int == x as int + (k as int) * (dx as int),
            cy as int == y as int + (k as int) * (dy as int),
            x - k <= cx <= x + k,
            y - k <= cy <= y + k,
            forall|j: int|
                1 <= j < k ==> #[trigger] ray_cell(
                    board@,
                    x as int,
                    y as int,
                    dx as int,
                    dy as int,
                    j,
                ) == opp_color(c),
        decreases 8 - k,
    {
        let cl = cell_of(board, cx, cy);
        proof {
            assert(cl == ray_cell(board@, x as int, y as int, dx as int, dy as int, k as int));
        }
        if cl == oc {
            proof {
                assert(in_range(cx as int) && in_range(cy as int));
                lemma_step_bound(x as int, y as int, dx as int, dy as int, k as int);
                lemma_step(k as int, dx as int);
                lemma_step(k as int, dy as int);
            }
            k = k + 1;
            cx = cx + dx;
            cy = cy + dy;
        } else if k >= 2 && cl == c {
            proof {
                assert(in_range(cx as int) && in_range(cy as int));
                lemma_step_bound(x as int, y as int, dx as int, dy as int, k as int);
                assert(capture_to(board@, c, x as int, y as int, dx as int, dy as int, k as int));
            }
            return Some(k);
        } else {
            proof {
                assert forall|n: int|
                    !capture_to(board@, c, x as int, y as int, dx as int, dy as int, n) by {
                    if capture_to(board@, c, x as int, y as int, dx as int, dy as int, n) {
                        if n < k as int {
                            assert(ray_cell(board@, x as int, y as int, dx as int, dy as int, n)
                                == opp_color(c));
                            assert(ray_cell(board@, x as int, y as int, dx as int, dy as int, n)
                                == c);
                            assert(false);
                        } else if n == k as int {
                            assert(ray_cell(board@, x as int, y as int, dx as int, dy as int, n)
                                == c);
                            assert(false);
                        } else {
                            assert(ray_cell(
                                board@,
                                x as int,
                                y as int,
                                dx as int,
                                dy as int,
                                k as int,
                            ) == opp_color(c));
                            assert(false);
                        }
                    }
                }
                if captures_in_dir(board@, c, x as int, y as int, dx as int, dy as int) {
                    let n = choose|n: int|
                        capture_to(board@, c, x as int, y as int, dx as int, dy as int, n);
                    assert(false);
                }
            }
            return None;
        }
    }
}

/// Flips the captured run: the cells strictly between `(x, y)` and the
/// bounding step `n` along `(dx, dy)` are set to `c`; no other cell moves.
fn flip_run(
    board: &mut Vec<GamePositionState>,
    c: GamePositionState,
    x: i32,
    y: i32,
    dx: i32,
    dy: i32,
    n: i32,
)
    requires
        old(board)@.len() == 64,
        is_piece(c),
        in_range(x as int),
        in_range(y as int),
        valid_dir(dx as int, dy as int),
        capture_to(old(board)@, c, x as int, y as int, dx as int, dy as int, n as int),
    ensures
        final(board)@.len() == 64,
        forall|u: int, v: int|
            in_range(u) && in_range(v) ==> #[trigger] cell_at(final(board)@, u, v) == (if exists|
                k: int,
            |
                1 <= k < n as int && on_ray(x as int, y as int, dx as int, dy as int, k, u, v) {
                c
            } else {
                cell_at(old(board)@, u, v)
            }),
{
    let ghost b0 = board@;
    let mut k: i32 = 1;
    let mut cx: i32 = x + dx;
    let mut cy: i32 = y + dy;
    while k < n
        invariant
            board@.len() == 64,
            is_piece(c),
            in_range(x as int),
            in_range(y as int),
            valid_dir(dx as int, dy as int),
            capture_to(b0, c, x as int, y as int, dx as int, dy as int, n as int),
            1 <= k <= n,
            cx as int == x as int + (k as int) * (dx as int),
            cy as int == y as int + (k as int) * (dy as int),
            x - k <= cx <= x + k,
            y - k <= cy <= y + k,
            forall|u: int, v: int|
                in_range(u) && in_range(v) ==> #[trigger] cell_at(board@, u, v) == (if exists|
                    j: int,
                |
                    1 <= j < k as int && on_ray(x as int, y as int, dx as int, dy as int, j, u, v) {
                    c
                } else {
                    cell_at(b0, u, v)
                }),
        decreases n - k,
    {
        proof {
            assert(ray_cell(b0, x as int, y as int, dx as int, dy as int, k as int) == opp_color(
                c,
            ));
            assert(in_range(cx as int) && in_range(cy as int)) by {
                if !(in_range(cx as int) && in_range(cy as int)) {
                    assert(cell_at(b0, cx as int, cy as int) == GamePositionState::Empty);
                }
            }
        }
        let ghost bprev = board@;
        set_cell(board, cx, cy, c);
        proof {
            assert forall|u: int, v: int| in_range(u) && in_range(v) implies #[trigger] cell_at(
                board@,
                u,
                v,
            ) == (if exists|j: int|
                1 <= j < k as int + 1 && on_ray(x as int, y as int, dx as int, dy as int, j, u, v) {
                c
            } else {
                cell_at(b0, u, v)
            }) by {
                if u == cx as int && v == cy as int {
                    assert(on_ray(x as int, y as int, dx as int, dy as int, k as int, u, v));
                } else {
                    assert(cell_at(board@, u, v) == cell_at(bprev, u, v));
                    if exists|j: int|
                        1 <= j < k as int + 1 && on_ray(
                            x as int,
                            y as int,
                            dx as int,
                            dy as int,
                            j,
                            u,
                            v,
                        ) {
                        let j = choose|j: int|
                            1 <= j < k as int + 1 && on_ray(
                                x as int,
                                y as int,
                                dx as int,
                                dy as int,
                                j,
                                u,
                                v,
                            );
                        assert(j < k as int);
                    }
                }
            }
            lemma_step(k as int, dx as int);
            lemma_step(k as int, dy as int);
        }
        k = k + 1;
        cx = cx + dx;
        cy = cy + dy;
    }
}

/// A game session: the 8x8 board and the player whose turn it is.
pub struct GameState {
    game_board: Vec<GamePositionState>,
    current_player: GamePlayer,
}

impl GameState {
    /// The board holds exactly its 64 cells.
    pub closed spec fn wf(&self) -> bool {
        self.game_board@.len() == 64
    }

    /// The board contents, as a flat row-major sequence of 64 cells.
    pub closed spec fn board(&self) -> Seq<GamePositionState> {
        self.game_board@
    }

    /// The player whose turn it is.
    pub closed spec fn player(&self) -> GamePlayer {
        self.current_player
    }

    /// Constructs a fresh session: the standard opening position, Black
    /// to move.
    pub fn new() -> (r: GameState)
        ensures
            r.wf(),
            r.player() == GamePlayer::Black,
            forall|u: int, v: int|
                in_range(u) && in_range(v) ==> #[trigger] cell_at(r.board(), u, v) == init_cell(
                    u,
                    v,
                ),
    {
        let mut board: Vec<GamePositionState> = Vec::new();
        let mut i: usize = 0;
        while i < 64
            invariant
                i <= 64,
                board@.len() == i,
                forall|j: int| 0 <= j < i ==> board@[j] == GamePositionState::Empty,
            decreases 64 - i,
        {
            board.push(GamePositionState::Empty);
            i = i + 1;
        }
        assert(forall|u: int, v: int|
            in_range(u) && in_range(v) ==> #[trigger] cell_at(board@, u, v)
                == GamePositionState::Empty);
        set_cell(&mut board, 3, 3, GamePositionState::White);
        set_cell(&mut board, 4, 3, GamePositionState::Black);
        set_cell(&mut board, 3, 4, GamePositionState::Black);
        set_cell(&mut board, 4, 4, GamePositionState::White);
        GameState { game_board: board, current_player: GamePlayer::Black }
    }

    /// Adjudicates and applies a move at `(x, y)` for the player on turn.
    /// The move is accepted exactly when the target cell lies on the board,
    /// is empty, and at least one compass direction holds a bounded opponent
    /// run; then every such run is flipped, the piece is placed, and the
    /// call returns true. A rejected move leaves the board untouched.
    fn do_move(&mut self, x: i32, y: i32) -> (r: bool)
        requires
            old(self).wf(),
        ensures
            final(self).wf(),
            final(self).player() == old(self).player(),
            r == legal_move(old(self).board(), color_of(old(self).player()), x as int, y as int),
            r ==> board_after_move(
                final(self).board(),
                old(self).board(),
                color_of(old(self).player()),
                x as int,
                y as int,
            ),
            !r ==> final(self).board() == old(self).board(),
    {
        if x < 0 || x > 7 || y < 0 || y > 7 {
            return false;
        }
        let c = self.current_player.get_chess_color();
        if cell_of(&self.game_board, x, y) != GamePositionState::Empty {
            return false;
        }
        let ghost b0 = self.game_board@;
        let ghost p0 = self.current_player;
        let mut success = false;
        let mut d: usize = 0;
        while d < 8
            invariant
                self.game_board@.len() == 64,
                b0.len() == 64,
                self.current_player == p0,
                c == color_of(p0),
                is_piece(c),
                in_range(x as int),
                in_range(y as int),
                cell_at(b0, x as int, y as int) == GamePositionState::Empty,
                0 <= d <= 8,
                forall|u: int, v: int|
                    in_range(u) && in_range(v) ==> #[trigger] cell_at(self.game_board@, u, v) == (
                    if flipped_upto(b0, c, x as int, y as int, u, v, d as int) {
                        c
                    } else {
                        cell_at(b0, u, v)
                    }),
                success == exists|j: int|
                    0 <= j < d as int && captures_in_dir(
                        b0,
                        c,
                        x as int,
                        y as int,
                        dir_dx(j),
                        dir_dy(j),
                    ),
            decreases 8 - d,
        {
            let (dx, dy) = direction(d);
            let ghost cur = self.game_board@;
            proof {
                assert forall|k: int| 1 <= k <= 7 implies #[trigger] ray_cell(
                    cur,
                    x as int,
                    y as int,
                    dx as int,
                    dy as int,
                    k,
                ) == ray_cell(b0, x as int, y as int, dx as int, dy as int, k) by {
                    let u = x as int + k * (dx as int);
                    let v = y as int + k * (dy as int);
                    if in_range(u) && in_range(v) {
                        if flipped_upto(b0, c, x as int, y as int, u, v, d as int) {
                            let (j, kj, nj) = choose|j: int, kj: int, nj: int|
                                0 <= j < d as int && 1 <= kj < nj && capture_to(
                                    b0,
                                    c,
                                    x as int,
                                    y as int,
                                    dir_dx(j),
                                    dir_dy(j),
                                    nj,
                                ) && on_ray(x as int, y as int, dir_dx(j), dir_dy(j), kj, u, v);
                            lemma_dirs(j, d as int);
                            lemma_rays_disjoint(
                                dir_dx(j),
                                dir_dy(j),
                                dx as int,
                                dy as int,
                                kj,
                                k,
                            );
                            assert(false);
                        }
                        assert(cell_at(cur, u, v) == cell_at(b0, u, v));
                    }
                }
                lemma_capture_agree(cur, b0, c, x as int, y as int, dx as int, dy as int);
            }
            match find_capture(&self.game_board, c, x, y, dx, dy) {
                Some(nf) => {
                    proof {
                        assert(capture_to(
                            b0,
                            c,
                            x as int,
                            y as int,
                            dx as int,
                            dy as int,
                            nf as int,
                        ));
                    }
                    flip_run(&mut self.game_board, c, x, y, dx, dy, nf);
                    success = true;
                    proof {
                        let ghost newb = self.game_board@;
                        assert forall|u: int, v: int| in_range(u) && in_range(v) implies #[trigger] cell_at(
                            newb,
                            u,
                            v,
                        ) == (if flipped_upto(b0, c, x as int, y as int, u, v, d as int + 1) {
                            c
                        } else {
                            cell_at(b0, u, v)
                        }) by {
                            if exists|kk: int|
                                1 <= kk < nf as int && on_ray(
                                    x as int,
                                    y as int,
                                    dx as int,
                                    dy as int,
                                    kk,
                                    u,
                                    v,
                                ) {
                                let kk = choose|kk: int|
                                    1 <= kk < nf as int && on_ray(
                                        x as int,
                                        y as int,
                                        dx as int,
                                        dy as int,
                                        kk,
                                        u,
                                        v,
                                    );
                                assert(on_ray(
                                    x as int,
                                    y as int,
                                    dir_dx(d as int),
                                    dir_dy(d as int),
                                    kk,
                                    u,
                                    v,
                                ));
                                assert(flipped_upto(b0, c, x as int, y as int, u, v, d as int + 1));
                                assert(cell_at(newb, u, v) == c);
                            } else {
                                assert(cell_at(newb, u, v) == cell_at(cur, u, v));
                                if flipped_upto(b0, c, x as int, y as int, u, v, d as int + 1) {
                                    let (j, kj, nj) = choose|j: int, kj: int, nj: int|
                                        0 <= j < d as int + 1 && 1 <= kj < nj && capture_to(
                                            b0,
                                            c,
                                            x as int,
                                            y as int,
                                            dir_dx(j),
                                            dir_dy(j),
                                            nj,
                                        ) && on_ray(
                                            x as int,
                                            y as int,
                                            dir_dx(j),
                                            dir_dy(j),
                                            kj,
                                            u,
                                            v,
                                        );
                                    if j == d as int {
                                        lemma_capture_unique(
                                            b0,
                                            c,
                                            x as int,
                                            y as int,
                                            dx as int,
                                            dy as int,
                                            nj,
                                            nf as int,
                                        );
                                        assert(false);
                                    } else {
                                        assert(flipped_upto(b0, c, x as int, y as int, u, v, d as int));
                                    }
                                }
                                if flipped_upto(b0, c, x as int, y as int, u, v, d as int) {
                                    let (j, kj, nj) = choose|j: int, kj: int, nj: int|
                                        0 <= j < d as int && 1 <= kj < nj && capture_to(
                                            b0,
                                            c,
                                            x as int,
                                            y as int,
                                            dir_dx(j),
                                            dir_dy(j),
                                            nj,
                                        ) && on_ray(
                                            x as int,
                                            y as int,
                                            dir_dx(j),
                                            dir_dy(j),
                                            kj,
                                            u,
                                            v,
                                        );
                                    assert(flipped_upto(b0, c, x as int, y as int, u, v, d as int + 1));
                                }
                            }
                        }
                        assert(captures_in_dir(
                            b0,
                            c,
                            x as int,
                            y as int,
                            dir_dx(d as int),
                            dir_dy(d as int),
                        ));
                    }
                },
                None => {
                    proof {
                        assert(!captures_in_dir(b0, c, x as int, y as int, dx as int, dy as int));
                        assert forall|u: int, v: int| in_range(u) && in_range(v) implies #[trigger] cell_at(
                            self.game_board@,
                            u,
                            v,
                        ) == (if flipped_upto(b0, c, x as int, y as int, u, v, d as int + 1) {
                            c
                        } else {
                            cell_at(b0, u, v)
                        }) by {
                            if flipped_upto(b0, c, x as int, y as int, u, v, d as int + 1) {
                                let (j, kj, nj) = choose|j: int, kj: int, nj: int|
                                    0 <= j < d as int + 1 && 1 <= kj < nj && capture_to(
                                        b0,
                                        c,
                                        x as int,
                                        y as int,
                                        dir_dx(j),
                                        dir_dy(j),
                                        nj,
                                    ) && on_ray(
                                        x as int,
                                        y as int,
                                        dir_dx(j),
                                        dir_dy(j),
                                        kj,
                                        u,
                                        v,
                                    );
                                if j == d as int {
                                    assert(captures_in_dir(
                                        b0,
                                        c,
                                        x as int,
                                        y as int,
                                        dx as int,
                                        dy as int,
                                    ));
                                    assert(false);
                                } else {
                                    assert(flipped_upto(b0, c, x as int, y as int, u, v, d as int));
                                }
                            }
                            if flipped_upto(b0, c, x as int, y as int, u, v, d as int) {
                                let (j, kj, nj) = choose|j: int, kj: int, nj: int|
                                    0 <= j < d as int && 1 <= kj < nj && capture_to(
                                        b0,
                                        c,
                                        x as int,
                                        y as int,
                                        dir_dx(j),
                                        dir_dy(j),
                                        nj,
                                    ) && on_ray(
                                        x as int,
                                        y as int,
                                        dir_dx(j),
                                        dir_dy(j),
                                        kj,
                                        u,
                                        v,
                                    );
                                assert(flipped_upto(b0, c, x as int, y as int, u, v, d as int + 1));
                            }
                        }
                        if exists|j: int|
                            0 <= j < d as int + 1 && captures_in_dir(
                                b0,
                                c,
                                x as int,
                                y as int,
                                dir_dx(j),
                                dir_dy(j),
                            ) {
                            let j = choose|j: int|
                                0 <= j < d as int + 1 && captures_in_dir(
                                    b0,
                                    c,
                                    x as int,
                                    y as int,
                                    dir_dx(j),
                                    dir_dy(j),
                                );
                            if j == d as int {
                                assert(false);
                            }
                            assert(exists|j: int|
                                0 <= j < d as int && captures_in_dir(
                                    b0,
                                    c,
                                    x as int,
                                    y as int,
                                    dir_dx(j),
                                    dir_dy(j),
                                ));
                        }
                    }
                },
            }
            d = d + 1;
        }
        if success {
            proof {
                assert(move_captures(b0, c, x as int, y as int));
                assert(legal_move(b0, c, x as int, y as int));
            }
            let ghost bflipped = self.game_board@;
            set_cell(&mut self.game_board, x, y, c);
            proof {
                assert forall|u: int, v: int| in_range(u) && in_range(v) implies #[trigger] cell_at(
                    self.game_board@,
                    u,
                    v,
                ) == cell_after_move(b0, c, x as int, y as int, u, v) by {
                    if !(u == x as int && v == y as int) {
                        assert(cell_at(self.game_board@, u, v) == cell_at(bflipped, u, v));
                    }
                }
            }
            true
        } else {
            proof {
                assert(!move_captures(b0, c, x as int, y as int));
                assert forall|u: int, v: int| in_range(u) && in_range(v) implies #[trigger] cell_at(
                    self.game_board@,
                    u,
                    v,
                ) == cell_at(b0, u, v) by {
                    if flipped_upto(b0, c, x as int, y as int, u, v, 8) {
                        let (j, kj, nj) = choose|j: int, kj: int, nj: int|
                            0 <= j < 8 && 1 <= kj < nj && capture_to(
                                b0,
                                c,
                                x as int,
                                y as int,
                                dir_dx(j),
                                dir_dy(j),
                                nj,
                            ) && on_ray(x as int, y as int, dir_dx(j), dir_dy(j), kj, u, v);
                        assert(captures_in_dir(b0, c, x as int, y as int, dir_dx(j), dir_dy(j)));
                        assert(false);
                    }
                }
                lemma_board_eq(self.game_board@, b0);
            }
            false
        }
    }

    /// Attempts a move at `(x, y)` on behalf of `player`. A claim by the
    /// player not on turn, or an illegal move, is rejected: the call returns
    /// false and changes nothing. An accepted move flips every bounded
    /// opponent run, places the piece, hands the turn to the other player,
    /// and returns true.
    pub fn play(&mut self, player: GamePlayer, x: i32, y: i32) -> (r: bool)
        requires
            old(self).wf(),
        ensures
            final(self).wf(),
            play_transition(
                old(self).board(),
                old(self).player(),
                player,
                x as int,
                y as int,
                final(self).board(),
                final(self).player(),
                r,
            ),
    {
        if player != self.current_player {
            return false;
        }
        if !self.do_move(x, y) {
            return false;
        }
        self.current_player = self.current_player.opponent();
        true
    }

    /// The player whose turn it is.
    pub fn current_player(&self) -> (r: GamePlayer)
        ensures
            r == self.player(),
    {
        self.current_player
    }

    /// A read-only copy of the board as eight rows of eight cells, indexed
    /// `[row][column]`; it reflects only committed state.
    pub fn snapshot(&self) -> (r: Vec<Vec<GamePositionState>>)
        requires
            self.wf(),
        ensures
            r@.len() == 8,
            forall|v: int| 0 <= v < 8 ==> #[trigger] r@[v]@.len() == 8,
            forall|u: int, v: int|
                in_range(u) && in_range(v) ==> #[trigger] r@[v]@[u] == cell_at(self.board(), u, v),
    {
        let mut rows: Vec<Vec<GamePositionState>> = Vec::new();
        let mut y: i32 = 0;
        while y < 8
            invariant
                self.wf(),
                0 <= y <= 8,
                rows@.len() == y,
                forall|v: int| 0 <= v < y ==> #[trigger] rows@[v]@.len() == 8,
                forall|u: int, v: int|
                    in_range(u) && 0 <= v < y ==> #[trigger] rows@[v]@[u] == cell_at(
                        self.board(),
                        u,
                        v,
                    ),
            decreases 8 - y,
        {
            let mut row: Vec<GamePositionState> = Vec::new();
            let mut x: i32 = 0;
            while x < 8
                invariant
                    self.wf(),
                    0 <= x <= 8,
                    0 <= y <= 7,
                    row@.len() == x,
                    forall|u: int|
                        0 <= u < x ==> #[trigger] row@[u] == cell_at(self.board(), u, y as int),
                decreases 8 - x,
            {
                row.push(cell_of(&self.game_board, x, y));
                x = x + 1;
            }
            rows.push(row);
            y = y + 1;
        }
        rows
    }
}

/// Turn discipline: a move claimed by the player not on turn is rejected,
/// and the board and the turn are left exactly as they were.
pub proof fn lemma_turn_discipline(
    pre_b: Seq<GamePositionState>,
    pre_p: GamePlayer,
    player: GamePlayer,
    x: int,
    y: int,
    post_b: Seq<GamePositionState>,
    post_p: GamePlayer,
    r: bool,
)
    requires
        play_transition(pre_b, pre_p, player, x, y, post_b, post_p, r),
        player != pre_p,
    ensures
        !r,
        post_b == pre_b,
        post_p == pre_p,
{
}

/// Occupied-cell rejection: a move aimed at a cell that already holds a
/// piece is rejected whatever the rest of the board holds, and the board
/// and the turn are left exactly as they were.
pub proof fn lemma_occupied_rejected(
    pre_b: Seq<GamePositionState>,
    pre_p: GamePlayer,
    player: GamePlayer,
    x: int,
    y: int,
    post_b: Seq<GamePositionState>,
    post_p: GamePlayer,
    r: bool,
)
    requires
        play_transition(pre_b, pre_p, player, x, y, post_b, post_p, r),
        cell_at(pre_b, x, y) != GamePositionState::Empty,
    ensures
        !r,
        post_b == pre_b,
        post_p == pre_p,
{
}

/// Any single capturing direction legalizes the move: when the target cell
/// is empty and on the board, a bounded opponent run in one compass
/// direction alone already makes the move legal.
pub proof fn lemma_any_direction_suffices(
    b: Seq<GamePositionState>,
    c: GamePositionState,
    x: int,
    y: int,
    d: int,
)
    requires
        in_range(x),
        in_range(y),
        cell_at(b, x, y) == GamePositionState::Empty,
        0 <= d < 8,
        captures_in_dir(b, c, x, y, dir_dx(d), dir_dy(d)),
    ensures
        legal_move(b, c, x, y),
{
    assert(move_captures(b, c, x, y));
}

/// Boundary safety: a direction whose first step already leaves the board
/// contributes no capture, for any origin on the board's edge or anywhere
/// else.
pub proof fn lemma_off_grid_no_capture(
    b: Seq<GamePositionState>,
    c: GamePositionState,
    x: int,
    y: int,
    dx: int,
    dy: int,
)
    requires
        is_piece(c),
        !(in_range(x + dx) && in_range(y + dy)),
    ensures
        !captures_in_dir(b, c, x, y, dx, dy),
{
    assert forall|n: int| !capture_to(b, c, x, y, dx, dy, n) by {
        if capture_to(b, c, x, y, dx, dy, n) {
            assert(ray_cell(b, x, y, dx, dy, 1) == opp_color(c));
            assert(x + 1 * dx == x + dx && y + 1 * dy == y + dy);
            assert(cell_at(b, x + dx, y + dy) == GamePositionState::Empty);
            assert(false);
        }
    }
    if captures_in_dir(b, c, x, y, dx, dy) {
        let n = choose|n: int| capture_to(b, c, x, y, dx, dy, n);
        assert(false);
    }
}

/// Determinism: one move request made from one state has exactly one
/// outcome; two calls with the same arguments from equal states return the
/// same answer and leave equal boards and equal turns. Replaying a whole
/// sequence of requests therefore yields identical boards at every step.
pub proof fn lemma_move_deterministic(
    pre_b: Seq<GamePositionState>,
    pre_p: GamePlayer,
    player: GamePlayer,
    x: int,
    y: int,
    b1: Seq<GamePositionState>,
    p1: GamePlayer,
    r1: bool,
    b2: Seq<GamePositionState>,
    p2: GamePlayer,
    r2: bool,
)
    requires
        play_transition(pre_b, pre_p, player, x, y, b1, p1, r1),
        play_transition(pre_b, pre_p, player, x, y, b2, p2, r2),
    ensures
        r1 == r2,
        b1 == b2,
        p1 == p2,
{
    if r1 {
        assert forall|u: int, v: int|
            in_range(u) && in_range(v) implies #[trigger] cell_at(b1, u, v) == cell_at(
            b2,
            u,
            v,
        ) by {
            assert(cell_at(b1, u, v) == cell_after_move(pre_b, color_of(player), x, y, u, v));
            assert(cell_at(b2, u, v) == cell_after_move(pre_b, color_of(player), x, y, u, v));
        }
        lemma_board_eq(b1, b2);
    }
}

} // verus!

//! Classical chessboard: pieces, squares, placement, and the pure
//! move-legality predicate of ordinary chess geometry.
use vstd::prelude::*;

verus! {

broadcast use vstd::array::group_array_axioms;

/// One of the two players.
#[derive(Copy, Clone, Debug, Eq, PartialEq, Structural)]
pub enum Player {
    WHITE,
    BLACK,
}

impl Player {
    /// The other player.
    pub open spec fn spec_switched(self) -> Player {
        if self is WHITE {
            Player::BLACK
        } else {
            Player::WHITE
        }
    }

    /// Replaces this player by the other one.
    pub fn switch(&mut self)
        ensures
            *final(self) == old(self).spec_switched(),
    {
        if *self == Player::WHITE {
            *self = Player::BLACK;
        } else {
            *self = Player::WHITE;
        }
    }
}

/// A kind of chess piece; `EMPTY` is the sentinel for an unoccupied square.
#[derive(Copy, Clone, Debug, Eq, PartialEq, Structural)]
pub enum Piece {
    EMPTY,
    PAWN,
    KNIGHT,
    BISHOP,
    ROOK,
    QUEEN,
    KING,
}

/// The contents of one square: an owning player and a piece.
/// Unoccupied squares carry `player == WHITE` and `piece == EMPTY`.
#[derive(Copy, Clone, Debug, Eq, PartialEq, Structural)]
pub struct Square {
    pub player: Player,
    pub piece: Piece,
}

/// The square value used for clearing: white player, empty piece.
pub open spec fn spec_empty_square() -> Square {
    Square { player: Player::WHITE, piece: Piece::EMPTY }
}

/// The square value used for clearing: white player, empty piece.
#[verifier::when_used_as_spec(spec_empty_square)]
pub fn empty_square() -> (s: Square)
    ensures
        s == spec_empty_square(),
{
    Square { player: Player::WHITE, piece: Piece::EMPTY }
}

impl Square {
    /// Whether the square holds a real piece.
    pub open spec fn spec_is_occupied(&self) -> bool {
        self.piece != Piece::EMPTY
    }

    /// Whether the square holds a real piece.
    #[verifier::when_used_as_spec(spec_is_occupied)]
    pub fn is_occupied(&self) -> (r: bool)
        ensures
            r == self.spec_is_occupied(),
    {
        self.piece != Piece::EMPTY
    }
}

/// A proposed ordinary chess move. `target_piece == EMPTY` means the move
/// does not capture; any other value means it expects to capture that piece.
#[derive(Copy, Clone, Debug)]
pub struct ChessMove {
    pub player: Player,
    pub source_position: (isize, isize),
    pub target_position: (isize, isize),
    pub piece: Piece,
    pub target_piece: Piece,
}

impl ChessMove {
    /// Whether source and target coincide.
    pub open spec fn spec_is_trivial(&self) -> bool {
        self.source_position == self.target_position
    }

    /// Whether source and target coincide.
    #[verifier::when_used_as_spec(spec_is_trivial)]
    pub fn is_trivial(&self) -> (r: bool)
        ensures
            r == self.spec_is_trivial(),
    {
        self.source_position.0 == self.target_position.0 && self.source_position.1
            == self.target_position.1
    }

    /// Whether both endpoints lie on the board.
    pub open spec fn coords_on_board(&self) -> bool {
        on_board(self.source_position.0 as int, self.source_position.1 as int) && on_board(
            self.target_position.0 as int,
            self.target_position.1 as int,
        )
    }
}

/// A proposed quantum move: the piece travels from `source_position`
/// to `target_position` through `middle_position`, splitting each
/// admissible harmonic into a moved and an unmoved branch.
#[derive(Copy, Clone, Debug)]
pub struct QuantumMove {
    pub player: Player,
    pub source_position: (isize, isize),
    pub middle_position: (isize, isize),
    pub target_position: (isize, isize),
    pub piece: Piece,
}

impl QuantumMove {
    /// Whether all three positions lie on the board.
    pub open spec fn coords_on_board(&self) -> bool {
        on_board(self.source_position.0 as int, self.source_position.1 as int) && on_board(
            self.middle_position.0 as int,
            self.middle_position.1 as int,
        ) && on_board(self.target_position.0 as int, self.target_position.1 as int)
    }
}

/// Any move a player can submit: an ordinary move or a quantum move.
#[derive(Copy, Clone, Debug)]
pub enum QuantumChessMove {
    Ordinary(ChessMove),
    Quantum(QuantumMove),
}

/// The outcome of a submitted move: accepted, or rejected with a reason.
#[derive(Clone, Debug)]
pub enum ChessMoveResult {
    Success,
    Failure(String),
}

impl ChessMoveResult {
    /// Whether this result reports success.
    pub open spec fn spec_is_success(&self) -> bool {
        self is Success
    }

    /// Whether this result reports success.
    #[verifier::when_used_as_spec(spec_is_success)]
    pub fn is_success(&self) -> (r: bool)
        ensures
            r == self.spec_is_success(),
    {
        match self {
            ChessMoveResult::Success => true,
            ChessMoveResult::Failure(_) => false,
        }
    }
}

/// The sign of `d`: `-1`, `0` or `1`.
pub open spec fn sgn(d: int) -> int {
    if d > 0 {
        1
    } else if d < 0 {
        -1
    } else {
        0
    }
}

/// The absolute value of `d`.
pub open spec fn abs(d: int) -> int {
    if d >= 0 {
        d
    } else {
        -d
    }
}

/// The larger of `a` and `b`.
pub open spec fn max(a: int, b: int) -> int {
    if a >= b {
        a
    } else {
        b
    }
}

/// The state of a classical chessboard: 64 squares, indexed by
/// `y * 8 + x` with `x` the file and `y` the rank.
#[derive(Copy, Clone)]
pub struct Chessboard {
    squares: [Square; 64],
}

impl View for Chessboard {
    type V = Seq<Square>;

    closed spec fn view(&self) -> Seq<Square> {
        self.squares@
    }
}

/// Whether `(x, y)` is a coordinate pair on the board.
pub open spec fn on_board(x: int, y: int) -> bool {
    0 <= x < 8 && 0 <= y < 8
}

impl Chessboard {
    /// Whether this value is a real chessboard (64 squares).
    pub open spec fn wf(self) -> bool {
        self@.len() == 64
    }

    /// The square at `(x, y)`, as a mathematical value.
    pub open spec fn at(self, x: int, y: int) -> Square {
        self@[y * 8 + x]
    }

    /// A board with every square empty.
    pub fn new_empty() -> (b: Chessboard)
        ensures
            b.wf(),
            forall|x: int, y: int| on_board(x, y) ==> b.at(x, y) == spec_empty_square(),
    {
        let b = Chessboard { squares: [empty_square(); 64] };
        proof {
            assert forall|x: int, y: int| on_board(x, y) implies b.at(x, y)
                == spec_empty_square() by {
                assert(b@[y * 8 + x] == spec_empty_square());
            }
        }
        b
    }

    /// The linear index of `(x, y)`; coordinates must lie on the board.
    pub fn index(x: isize, y: isize) -> (i: usize)
        requires
            on_board(x as int, y as int),
        ensures
            i == y * 8 + x,
    {
        (y * 8 + x) as usize
    }

    /// The coordinates packed at linear index `ind`.
    pub fn unindex(ind: usize) -> (r: (isize, isize))
        requires
            ind < 64,
        ensures
            on_board(r.0 as int, r.1 as int),
            r.1 * 8 + r.0 == ind,
    {
        ((ind % 8) as isize, (ind / 8) as isize)
    }

    /// Reads the square at `(x, y)`.
    pub fn get(&self, x: isize, y: isize) -> (s: Square)
        requires
            self.wf(),
            on_board(x as int, y as int),
        ensures
            s == self.at(x as int, y as int),
    {
        let ind = Chessboard::index(x, y);
        self.squares[ind]
    }

    /// Writes the square at `(x, y)`; every other square is unchanged.
    pub fn set(&mut self, x: isize, y: isize, square: Square)
        requires
            old(self).wf(),
            on_board(x as int, y as int),
        ensures
            final(self).wf(),
            final(self)@ == old(self)@.update(y * 8 + x, square),
            final(self).at(x as int, y as int) == square,
            forall|i: int, j: int|
                on_board(i, j) && (i != x || j != y) ==> final(self).at(i, j) == old(self).at(
                    i,
                    j,
                ),
    {
        let ind = Chessboard::index(x, y);
        self.squares[ind] = square;
    }
}

/// The squares of a board after playing `mv` on it: the moved piece
/// stands on the target square and the source square is empty.
pub open spec fn apply_v(b: Seq<Square>, mv: ChessMove) -> Seq<Square> {
    let sx = mv.source_position.0 as int;
    let sy = mv.source_position.1 as int;
    let tx = mv.target_position.0 as int;
    let ty = mv.target_position.1 as int;
    b.update(ty * 8 + tx, Square { player: mv.player, piece: mv.piece }).update(
        sy * 8 + sx,
        spec_empty_square(),
    )
}

/// The piece standing on file `x` of a back rank in the starting position.
pub open spec fn back_rank_piece(x: int) -> Piece {
    if x == 0 || x == 7 {
        Piece::ROOK
    } else if x == 1 || x == 6 {
        Piece::KNIGHT
    } else if x == 2 || x == 5 {
        Piece::BISHOP
    } else if x == 3 {
        Piece::QUEEN
    } else {
        Piece::KING
    }
}

/// The square at `(x, y)` in the standard starting position.
pub open spec fn starting_square(x: int, y: int) -> Square {
    if y == 1 {
        Square { player: Player::WHITE, piece: Piece::PAWN }
    } else if y == 6 {
        Square { player: Player::BLACK, piece: Piece::PAWN }
    } else if y == 0 {
        Square { player: Player::WHITE, piece: back_rank_piece(x) }
    } else if y == 7 {
        Square { player: Player::BLACK, piece: back_rank_piece(x) }
    } else {
        spec_empty_square()
    }
}

impl Chessboard {
    /// Whether every square strictly between source and target of the
    /// straight or diagonal motion `(sx, sy) -> (tx, ty)` is unoccupied.
    pub open spec fn path_clear(self, sx: int, sy: int, tx: int, ty: int) -> bool {
        forall|i: int|
            1 <= i < max(abs(tx - sx), abs(ty - sy)) ==> !(#[trigger] self.at(
                sx + i * sgn(tx - sx),
                sy + i * sgn(ty - sy),
            )).spec_is_occupied()
    }

    /// Whether the motion of `mv` is allowed by ordinary-chess geometry
    /// on this board. Occupancy of source and target squares is not
    /// inspected; only intermediate squares are (for sliding pieces, and
    /// for the pawn double step).
    pub open spec fn spec_allowed(self, mv: ChessMove) -> bool {
        let sx = mv.source_position.0 as int;
        let sy = mv.source_position.1 as int;
        let tx = mv.target_position.0 as int;
        let ty = mv.target_position.1 as int;
        let dx = tx - sx;
        let dy = ty - sy;
        if sx == tx && sy == ty {
            false
        } else {
            match mv.piece {
                Piece::EMPTY => false,
                Piece::PAWN => match mv.player {
                    Player::WHITE => if mv.target_piece == Piece::EMPTY {
                        sx == tx && (sy + 1 == ty || (sy == 1 && ty == 3 && !self.at(
                            sx,
                            2,
                        ).spec_is_occupied()))
                    } else {
                        abs(dx) == 1 && sy + 1 == ty
                    },
                    Player::BLACK => if mv.target_piece == Piece::EMPTY {
                        sx == tx && (sy == ty + 1 || (sy == 6 && ty == 4 && !self.at(
                            sx,
                            5,
                        ).spec_is_occupied()))
                    } else {
                        abs(dx) == 1 && sy == ty + 1
                    },
                },
                Piece::KNIGHT => (abs(dx) == 1 && abs(dy) == 2) || (abs(dx) == 2 && abs(dy) == 1),
                Piece::BISHOP => abs(dx) == abs(dy) && self.path_clear(sx, sy, tx, ty),
                Piece::ROOK => (dx == 0 || dy == 0) && self.path_clear(sx, sy, tx, ty),
                Piece::QUEEN => (dx == 0 || dy == 0 || abs(dx) == abs(dy)) && self.path_clear(
                    sx,
                    sy,
                    tx,
                    ty,
                ),
                Piece::KING => (abs(dx) == 0 || abs(dx) == 1) && (abs(dy) == 0 || abs(dy) == 1),
            }
        }
    }

    /// The board after playing `mv`: the moved piece stands on the target
    /// square and the source square is empty.
    pub open spec fn spec_apply(self, mv: ChessMove) -> Seq<Square> {
        apply_v(self@, mv)
    }

    /// A board holding the standard starting position.
    pub fn new_starting() -> (b: Chessboard)
        ensures
            b.wf(),
            forall|x: int, y: int| on_board(x, y) ==> b.at(x, y) == starting_square(x, y),
    {
        let mut board = Chessboard::new_empty();
        let mut i: isize = 0;
        while i < 8
            invariant
                0 <= i <= 8,
                board.wf(),
                forall|x: int, y: int|
                    on_board(x, y) && x < i && (y == 1 || y == 6) ==> #[trigger] board.at(x, y)
                        == starting_square(x, y),
                forall|x: int, y: int|
                    on_board(x, y) && y != 1 && y != 6 ==> #[trigger] board.at(x, y)
                        == spec_empty_square(),
            decreases 8 - i,
        {
            board.set(i, 1, Square { player: Player::WHITE, piece: Piece::PAWN });
            board.set(i, 6, Square { player: Player::BLACK, piece: Piece::PAWN });
            i = i + 1;
        }
        board.set(0, 0, Square { player: Player::WHITE, piece: Piece::ROOK });
        board.set(0, 7, Square { player: Player::BLACK, piece: Piece::ROOK });
        board.set(1, 0, Square { player: Player::WHITE, piece: Piece::KNIGHT });
        board.set(1, 7, Square { player: Player::BLACK, piece: Piece::KNIGHT });
        board.set(2, 0, Square { player: Player::WHITE, piece: Piece::BISHOP });
        board.set(2, 7, Square { player: Player::BLACK, piece: Piece::BISHOP });
        board.set(3, 0, Square { player: Player::WHITE, piece: Piece::QUEEN });
        board.set(3, 7, Square { player: Player::BLACK, piece: Piece::QUEEN });
        board.set(4, 0, Square { player: Player::WHITE, piece: Piece::KING });
        board.set(4, 7, Square { player: Player::BLACK, piece: Piece::KING });
        board.set(5, 0, Square { player: Player::WHITE, piece: Piece::BISHOP });
        board.set(5, 7, Square { player: Player::BLACK, piece: Piece::BISHOP });
        board.set(6, 0, Square { player: Player::WHITE, piece: Piece::KNIGHT });
        board.set(6, 7, Square { player: Player::BLACK, piece: Piece::KNIGHT });
        board.set(7, 0, Square { player: Player::WHITE, piece: Piece::ROOK });
        board.set(7, 7, Square { player: Player::BLACK, piece: Piece::ROOK });
        board
    }

    /// Whether every square strictly between `(sx, sy)` and `(tx, ty)` is
    /// unoccupied, walking in unit steps of the signs of the deltas.
    fn path_clear_exec(&self, sx: isize, sy: isize, tx: isize, ty: isize) -> (r: bool)
        requires
            self.wf(),
            on_board(sx as int, sy as int),
            on_board(tx as int, ty as int),
            tx == sx || ty == sy || abs(tx - sx) == abs(ty - sy),
        ensures
            r == self.path_clear(sx as int, sy as int, tx as int, ty as int),
    {
        let dx = tx - sx;
        let dy = ty - sy;
        let sx_step: isize = if dx > 0 {
            1
        } else if dx < 0 {
            -1
        } else {
            0
        };
        let sy_step: isize = if dy > 0 {
            1
        } else if dy < 0 {
            -1
        } else {
            0
        };
        let ax = if dx >= 0 {
            dx
        } else {
            -dx
        };
        let ay = if dy >= 0 {
            dy
        } else {
            -dy
        };
        let dd: isize = if ax >= ay {
            ax
        } else {
            ay
        };
        let mut i: isize = 1;
        let mut xx: isize = sx + sx_step;
        let mut yy: isize = sy + sy_step;
        while i < dd
            invariant
                self.wf(),
                on_board(sx as int, sy as int),
                on_board(tx as int, ty as int),
                tx == sx || ty == sy || abs(tx as int - sx as int) == abs(ty as int - sy as int),
                sx_step == sgn(tx as int - sx as int),
                sy_step == sgn(ty as int - sy as int),
                dd == max(abs(tx as int - sx as int), abs(ty as int - sy as int)),
                1 <= i,
                i <= dd || (dd <= 1 && i == 1),
                xx == sx + i * sx_step,
                yy == sy + i * sy_step,
                forall|j: int|
                    1 <= j < i ==> !(#[trigger] self.at(
                        sx + j * sgn(tx as int - sx as int),
                        sy + j * sgn(ty as int - sy as int),
                    )).spec_is_occupied(),
            decreases dd - i,
        {
            proof {
                lemma_path_point_on_board(sx as int, sy as int, tx as int, ty as int, i as int);
                assert(xx == sx + i * sgn(tx as int - sx as int));
                assert(yy == sy + i * sgn(ty as int - sy as int));
            }
            if self.get(xx, yy).is_occupied() {
                proof {
                    assert(self.at(
                        sx + (i as int) * sgn(tx as int - sx as int),
                        sy + (i as int) * sgn(ty as int - sy as int),
                    ).spec_is_occupied());
                }
                return false;
            }
            proof {
                assert((i + 1) * sx_step == i * sx_step + sx_step) by (nonlinear_arith);
                assert((i + 1) * sy_step == i * sy_step + sy_step) by (nonlinear_arith);
            }
            i = i + 1;
            xx = xx + sx_step;
            yy = yy + sy_step;
        }
        true
    }

    /// Whether the move `mv` is allowed by the piece-movement rules of
    /// ordinary chess on this board.
    pub fn allowed(&self, mv: &ChessMove) -> (r: bool)
        requires
            self.wf(),
            mv.coords_on_board(),
            mv.piece != Piece::EMPTY,
        ensures
            r == self.spec_allowed(*mv),
    {
        let (sx, sy) = mv.source_position;
        let (tx, ty) = mv.target_position;

        if sx == tx && sy == ty {
            return false;
        }
        let dx = tx - sx;
        let dx_abs = if dx >= 0 {
            dx
        } else {
            -dx
        };
        let dy = ty - sy;
        let dy_abs = if dy >= 0 {
            dy
        } else {
            -dy
        };

        match mv.piece {
            Piece::EMPTY => false,
            Piece::PAWN => {
                match mv.player {
                    Player::WHITE => {
                        if mv.target_piece == Piece::EMPTY {
                            sx == tx && (sy + 1 == ty || (sy == 1 && ty == 3 && !self.get(
                                sx,
                                2,
                            ).is_occupied()))
                        } else {
                            dx_abs == 1 && sy + 1 == ty
                        }
                    },
                    Player::BLACK => {
                        if mv.target_piece == Piece::EMPTY {
                            sx == tx && (sy == ty + 1 || (sy == 6 && ty == 4 && !self.get(
                                sx,
                                5,
                            ).is_occupied()))
                        } else {
                            dx_abs == 1 && sy == ty + 1
                        }
                    },
                }
            },
            Piece::KNIGHT => (dx_abs == 1 && dy_abs == 2) || (dx_abs == 2 && dy_abs == 1),
            Piece::BISHOP => dx_abs == dy_abs && self.path_clear_exec(sx, sy, tx, ty),
            Piece::ROOK => (dx == 0 || dy == 0) && self.path_clear_exec(sx, sy, tx, ty),
            Piece::QUEEN => (dx == 0 || dy == 0 || dx_abs == dy_abs) && self.path_clear_exec(
                sx,
                sy,
                tx,
                ty,
            ),
            Piece::KING => (dx_abs == 0 || dx_abs == 1) && (dy_abs == 0 || dy_abs == 1),
        }
    }

    /// Plays `mv` on this board: the target square receives the moving
    /// piece and the source square is cleared. Occupancy and legality are
    /// not checked here; callers check `allowed` first.
    pub fn apply(&mut self, mv: &ChessMove)
        requires
            old(self).wf(),
            mv.coords_on_board(),
        ensures
            final(self).wf(),
            final(self)@ == old(self).spec_apply(*mv),
    {
        let (sx, sy) = mv.source_position;
        let (tx, ty) = mv.target_position;
        self.set(tx, ty, Square { player: mv.player, piece: mv.piece });
        self.set(sx, sy, empty_square());
    }
}

/// A numeric code for a player, used to order boards.
pub open spec fn player_code(p: Player) -> int {
    match p {
        Player::WHITE => 0,
        Player::BLACK => 1,
    }
}

/// A numeric code for a piece, used to order boards.
pub open spec fn piece_code(p: Piece) -> int {
    match p {
        Piece::EMPTY => 0,
        Piece::PAWN => 1,
        Piece::KNIGHT => 2,
        Piece::BISHOP => 3,
        Piece::ROOK => 4,
        Piece::QUEEN => 5,
        Piece::KING => 6,
    }
}

/// A numeric code for a square's contents; distinct contents get
/// distinct codes.
pub open spec fn square_code(s: Square) -> int {
    player_code(s.player) * 7 + piece_code(s.piece)
}

/// Distinct square values have distinct codes.
pub proof fn lemma_square_code_injective(a: Square, b: Square)
    requires
        square_code(a) == square_code(b),
    ensures
        a == b,
{
}

/// The numeric code of a square's contents.
fn square_code_exec(s: Square) -> (r: u8)
    ensures
        r as int == square_code(s),
{
    let pl: u8 = match s.player {
        Player::WHITE => 0,
        Player::BLACK => 1,
    };
    let pc: u8 = match s.piece {
        Piece::EMPTY => 0,
        Piece::PAWN => 1,
        Piece::KNIGHT => 2,
        Piece::BISHOP => 3,
        Piece::ROOK => 4,
        Piece::QUEEN => 5,
        Piece::KING => 6,
    };
    pl * 7 + pc
}

/// A strict lexicographic order on equal-length sequences of squares,
/// comparing square codes position by position.
pub open spec fn board_lt(a: Seq<Square>, b: Seq<Square>) -> bool
    decreases a.len(),
{
    if a.len() == 0 || b.len() == 0 {
        false
    } else if square_code(a.first()) < square_code(b.first()) {
        true
    } else if square_code(a.first()) > square_code(b.first()) {
        false
    } else {
        board_lt(a.drop_first(), b.drop_first())
    }
}

/// Two equal-length square sequences are ordered one way, the other way,
/// or equal.
pub proof fn lemma_board_lt_connected(a: Seq<Square>, b: Seq<Square>)
    requires
        a.len() == b.len(),
    ensures
        board_lt(a, b) || board_lt(b, a) || a == b,
    decreases a.len(),
{
    if a.len() == 0 {
        assert(a =~= b);
    } else if square_code(a.first()) == square_code(b.first()) {
        lemma_square_code_injective(a.first(), b.first());
        lemma_board_lt_connected(a.drop_first(), b.drop_first());
        if !board_lt(a, b) && !board_lt(b, a) {
            assert(a.drop_first() == b.drop_first());
            assert forall|i: int| 0 <= i < a.len() implies a[i] == b[i] by {
                if i > 0 {
                    assert(a.drop_first()[i - 1] == b.drop_first()[i - 1]);
                }
            }
            assert(a =~= b);
        }
    }
}

/// The board order is asymmetric.
pub proof fn lemma_board_lt_asym(a: Seq<Square>, b: Seq<Square>)
    requires
        board_lt(a, b),
    ensures
        !board_lt(b, a),
    decreases a.len(),
{
    if a.len() > 0 && b.len() > 0 && square_code(a.first()) == square_code(b.first()) {
        lemma_board_lt_asym(a.drop_first(), b.drop_first());
    }
}

/// The board order is transitive.
pub proof fn lemma_board_lt_trans(a: Seq<Square>, b: Seq<Square>, c: Seq<Square>)
    requires
        board_lt(a, b),
        board_lt(b, c),
    ensures
        board_lt(a, c),
    decreases a.len(),
{
    if square_code(a.first()) == square_code(b.first()) && square_code(b.first()) == square_code(
        c.first(),
    ) {
        lemma_board_lt_trans(a.drop_first(), b.drop_first(), c.drop_first());
    }
}

/// Boards with equal views are equal values.
pub proof fn lemma_view_determines_board(a: Chessboard, b: Chessboard)
    requires
        a@ == b@,
    ensures
        a == b,
{
    assert(a.squares =~= b.squares);
}

impl Chessboard {
    /// Whether the squares of this board equal those of `other`.
    pub fn same_position(&self, other: &Chessboard) -> (r: bool)
        requires
            self.wf(),
            other.wf(),
        ensures
            r == (self@ == other@),
    {
        let mut i: usize = 0;
        while i < 64
            invariant
                self.wf(),
                other.wf(),
                0 <= i <= 64,
                forall|j: int| 0 <= j < i ==> self@[j] == other@[j],
            decreases 64 - i,
        {
            if self.squares[i] != other.squares[i] {
                return false;
            }
            i = i + 1;
        }
        proof {
            assert(self@ =~= other@);
        }
        true
    }

    /// Whether this board comes strictly before `other` in the board order.
    pub fn before(&self, other: &Chessboard) -> (r: bool)
        requires
            self.wf(),
            other.wf(),
        ensures
            r == board_lt(self@, other@),
    {
        proof {
            assert(self@.skip(0) =~= self@);
            assert(other@.skip(0) =~= other@);
        }
        let mut i: usize = 0;
        while i < 64
            invariant
                self.wf(),
                other.wf(),
                0 <= i <= 64,
                board_lt(self@, other@) == board_lt(
                    self@.skip(i as int),
                    other@.skip(i as int),
                ),
            decreases 64 - i,
        {
            let ca = square_code_exec(self.squares[i]);
            let cb = square_code_exec(other.squares[i]);
            proof {
                assert(self@.skip(i as int).first() == self@[i as int]);
                assert(other@.skip(i as int).first() == other@[i as int]);
                assert(self@.skip(i as int).drop_first() =~= self@.skip(i as int + 1));
                assert(other@.skip(i as int).drop_first() =~= other@.skip(i as int + 1));
            }
            if ca < cb {
                return true;
            }
            if ca > cb {
                return false;
            }
            i = i + 1;
        }
        proof {
            assert(self@.skip(64) =~= Seq::<Square>::empty());
        }
        false
    }
}

/// Multiplying by the sign of `v` keeps or flips the sign.
proof fn lemma_mul_sgn(i: int, v: int)
    ensures
        v > 0 ==> i * sgn(v) == i,
        v < 0 ==> i * sgn(v) == -i,
        v == 0 ==> i * sgn(v) == 0,
{
    if v > 0 {
        assert(i * 1 == i) by (nonlinear_arith);
    } else if v < 0 {
        assert(i * -1 == -i) by (nonlinear_arith);
    } else {
        assert(i * 0 == 0) by (nonlinear_arith);
    }
}

/// Every intermediate point of a straight or diagonal walk between two
/// board coordinates lies on the board.
proof fn lemma_path_point_on_board(sx: int, sy: int, tx: int, ty: int, i: int)
    requires
        on_board(sx, sy),
        on_board(tx, ty),
        tx == sx || ty == sy || abs(tx - sx) == abs(ty - sy),
        1 <= i < max(abs(tx - sx), abs(ty - sy)),
    ensures
        on_board(sx + i * sgn(tx - sx), sy + i * sgn(ty - sy)),
{
    lemma_mul_sgn(i, tx - sx);
    lemma_mul_sgn(i, ty - sy);
}

} // verus!

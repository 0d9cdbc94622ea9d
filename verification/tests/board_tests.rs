use quantum_chess::chess::{
    empty_square, ChessMove, Chessboard, Piece, Player, Square,
};

fn mv(
    player: Player,
    piece: Piece,
    from: (isize, isize),
    to: (isize, isize),
    takes: Piece,
) -> ChessMove {
    ChessMove {
        player,
        source_position: from,
        target_position: to,
        piece,
        target_piece: takes,
    }
}

#[test]
fn starting_position_layout() {
    let b = Chessboard::new_starting();
    assert_eq!(b.get(0, 0), Square { player: Player::WHITE, piece: Piece::ROOK });
    assert_eq!(b.get(1, 0), Square { player: Player::WHITE, piece: Piece::KNIGHT });
    assert_eq!(b.get(2, 0), Square { player: Player::WHITE, piece: Piece::BISHOP });
    assert_eq!(b.get(3, 0), Square { player: Player::WHITE, piece: Piece::QUEEN });
    assert_eq!(b.get(4, 0), Square { player: Player::WHITE, piece: Piece::KING });
    assert_eq!(b.get(7, 7), Square { player: Player::BLACK, piece: Piece::ROOK });
    assert_eq!(b.get(4, 7), Square { player: Player::BLACK, piece: Piece::KING });
    for x in 0..8 {
        assert_eq!(b.get(x, 1), Square { player: Player::WHITE, piece: Piece::PAWN });
        assert_eq!(b.get(x, 6), Square { player: Player::BLACK, piece: Piece::PAWN });
        for y in 2..6 {
            assert!(!b.get(x, y).is_occupied());
        }
    }
}

#[test]
fn index_and_unindex_roundtrip() {
    assert_eq!(Chessboard::index(4, 1), 12);
    let (x, y) = Chessboard::unindex(12);
    assert_eq!((x, y), (4, 1));
    for ind in 0..64 {
        let (x, y) = Chessboard::unindex(ind);
        assert_eq!(Chessboard::index(x, y), ind);
    }
}

#[test]
fn set_and_get() {
    let mut b = Chessboard::new_empty();
    let sq = Square { player: Player::BLACK, piece: Piece::QUEEN };
    b.set(3, 4, sq);
    assert_eq!(b.get(3, 4), sq);
    assert_eq!(b.get(3, 5), empty_square());
}

#[test]
fn pawn_moves() {
    let b = Chessboard::new_starting();
    // Single and double step from the starting rank.
    assert!(b.allowed(&mv(Player::WHITE, Piece::PAWN, (4, 1), (4, 2), Piece::EMPTY)));
    assert!(b.allowed(&mv(Player::WHITE, Piece::PAWN, (4, 1), (4, 3), Piece::EMPTY)));
    // Three steps is never a pawn move.
    assert!(!b.allowed(&mv(Player::WHITE, Piece::PAWN, (4, 1), (4, 4), Piece::EMPTY)));
    // A capture goes one step diagonally.
    assert!(b.allowed(&mv(Player::WHITE, Piece::PAWN, (4, 1), (5, 2), Piece::PAWN)));
    assert!(!b.allowed(&mv(Player::WHITE, Piece::PAWN, (4, 1), (4, 2), Piece::PAWN)));
    // Black mirrors white.
    assert!(b.allowed(&mv(Player::BLACK, Piece::PAWN, (4, 6), (4, 4), Piece::EMPTY)));
    assert!(!b.allowed(&mv(Player::BLACK, Piece::PAWN, (4, 6), (4, 7), Piece::EMPTY)));
}

#[test]
fn pawn_double_step_blocked() {
    let mut b = Chessboard::new_starting();
    b.set(4, 2, Square { player: Player::BLACK, piece: Piece::KNIGHT });
    assert!(!b.allowed(&mv(Player::WHITE, Piece::PAWN, (4, 1), (4, 3), Piece::EMPTY)));
    b.set(4, 2, empty_square());
    assert!(b.allowed(&mv(Player::WHITE, Piece::PAWN, (4, 1), (4, 3), Piece::EMPTY)));
}

#[test]
fn knight_moves() {
    let b = Chessboard::new_starting();
    assert!(b.allowed(&mv(Player::WHITE, Piece::KNIGHT, (1, 0), (2, 2), Piece::EMPTY)));
    assert!(b.allowed(&mv(Player::WHITE, Piece::KNIGHT, (1, 0), (0, 2), Piece::EMPTY)));
    assert!(!b.allowed(&mv(Player::WHITE, Piece::KNIGHT, (1, 0), (1, 2), Piece::EMPTY)));
    assert!(!b.allowed(&mv(Player::WHITE, Piece::KNIGHT, (1, 0), (1, 0), Piece::EMPTY)));
}

#[test]
fn sliding_pieces_respect_blockers() {
    let b = Chessboard::new_starting();
    // The rook on a1 is blocked by the pawn on a2.
    assert!(!b.allowed(&mv(Player::WHITE, Piece::ROOK, (0, 0), (0, 5), Piece::EMPTY)));
    // The bishop on c1 is blocked by the pawn on b2.
    assert!(!b.allowed(&mv(Player::WHITE, Piece::BISHOP, (2, 0), (0, 2), Piece::EMPTY)));
    let mut open = Chessboard::new_empty();
    open.set(0, 0, Square { player: Player::WHITE, piece: Piece::ROOK });
    assert!(open.allowed(&mv(Player::WHITE, Piece::ROOK, (0, 0), (0, 7), Piece::EMPTY)));
    assert!(open.allowed(&mv(Player::WHITE, Piece::ROOK, (0, 0), (7, 0), Piece::EMPTY)));
    assert!(!open.allowed(&mv(Player::WHITE, Piece::ROOK, (0, 0), (1, 2), Piece::EMPTY)));
    open.set(3, 3, Square { player: Player::WHITE, piece: Piece::QUEEN });
    assert!(open.allowed(&mv(Player::WHITE, Piece::QUEEN, (3, 3), (7, 7), Piece::EMPTY)));
    assert!(open.allowed(&mv(Player::WHITE, Piece::QUEEN, (3, 3), (3, 0), Piece::EMPTY)));
    assert!(!open.allowed(&mv(Player::WHITE, Piece::QUEEN, (3, 3), (4, 5), Piece::EMPTY)));
    // A move that goes nowhere is never allowed.
    assert!(!open.allowed(&mv(Player::WHITE, Piece::QUEEN, (3, 3), (3, 3), Piece::EMPTY)));
    open.set(3, 1, Square { player: Player::BLACK, piece: Piece::PAWN });
    assert!(!open.allowed(&mv(Player::WHITE, Piece::QUEEN, (3, 3), (3, 0), Piece::EMPTY)));
}

#[test]
fn king_moves_one_step() {
    let b = Chessboard::new_starting();
    assert!(b.allowed(&mv(Player::WHITE, Piece::KING, (4, 0), (4, 1), Piece::EMPTY)));
    assert!(b.allowed(&mv(Player::WHITE, Piece::KING, (4, 0), (5, 1), Piece::EMPTY)));
    assert!(!b.allowed(&mv(Player::WHITE, Piece::KING, (4, 0), (4, 2), Piece::EMPTY)));
}

#[test]
fn apply_moves_the_piece() {
    let mut b = Chessboard::new_starting();
    let m = mv(Player::WHITE, Piece::PAWN, (4, 1), (4, 3), Piece::EMPTY);
    assert!(b.allowed(&m));
    b.apply(&m);
    assert_eq!(b.get(4, 3), Square { player: Player::WHITE, piece: Piece::PAWN });
    assert!(!b.get(4, 1).is_occupied());
}

#[test]
fn board_order_and_equality() {
    let a = Chessboard::new_starting();
    let b = Chessboard::new_starting();
    assert!(a.same_position(&b));
    assert!(!a.before(&b));
    let mut c = Chessboard::new_starting();
    c.set(4, 4, Square { player: Player::WHITE, piece: Piece::QUEEN });
    assert!(!a.same_position(&c));
    // The order is total: exactly one of the two comparisons holds.
    assert!(a.before(&c) != c.before(&a));
}

#[test]
fn move_triviality() {
    let m = mv(Player::WHITE, Piece::ROOK, (3, 3), (3, 3), Piece::EMPTY);
    assert!(m.is_trivial());
    let m2 = mv(Player::WHITE, Piece::ROOK, (3, 3), (3, 4), Piece::EMPTY);
    assert!(!m2.is_trivial());
}

#[test]
fn player_switch_alternates() {
    let mut p = Player::WHITE;
    p.switch();
    assert_eq!(p, Player::BLACK);
    p.switch();
    assert_eq!(p, Player::WHITE);
}

use quantum_chess::chess::{
    ChessMove, Piece, Player, QuantumChessMove, QuantumMove, Square,
};
use quantum_chess::engine::QuantumChessEngine;
use quantum_chess::quantize::QuantumChessboard;
use quantum_chess::rng::CoinSource;

fn ordinary(
    player: Player,
    piece: Piece,
    from: (isize, isize),
    to: (isize, isize),
    takes: Piece,
) -> QuantumChessMove {
    QuantumChessMove::Ordinary(ChessMove {
        player,
        source_position: from,
        target_position: to,
        piece,
        target_piece: takes,
    })
}

fn quantum(
    player: Player,
    piece: Piece,
    from: (isize, isize),
    mid: (isize, isize),
    to: (isize, isize),
) -> QuantumChessMove {
    QuantumChessMove::Quantum(QuantumMove {
        player,
        source_position: from,
        middle_position: mid,
        target_position: to,
        piece,
    })
}

fn snapshots_equal(a: &QuantumChessboard, b: &QuantumChessboard) -> bool {
    if a.harmonics.len() != b.harmonics.len() {
        return false;
    }
    for i in 0..a.harmonics.len() {
        if a.harmonics[i].degeneracy != b.harmonics[i].degeneracy {
            return false;
        }
        if !a.harmonics[i].board.same_position(&b.harmonics[i].board) {
            return false;
        }
    }
    true
}

#[test]
fn plain_pawn_push() {
    let mut eng = QuantumChessEngine::new();
    eng.coin = CoinSource::Fixed(true);
    let res = eng.submit(&ordinary(Player::WHITE, Piece::PAWN, (4, 1), (4, 3), Piece::EMPTY));
    assert!(res.is_success());
    let qb = eng.get_quantum_chessboard();
    assert_eq!(qb.harmonics.len(), 1);
    assert_eq!(qb.harmonics[0].degeneracy, 1);
    let board = &qb.harmonics[0].board;
    assert_eq!(board.get(4, 3), Square { player: Player::WHITE, piece: Piece::PAWN });
    assert!(!board.get(4, 1).is_occupied());
}

#[test]
fn quantum_knight_split() {
    let mut eng = QuantumChessEngine::new();
    eng.coin = CoinSource::Fixed(true);
    let res = eng.submit(&quantum(Player::WHITE, Piece::KNIGHT, (1, 0), (2, 2), (4, 3)));
    assert!(res.is_success());
    let qb = eng.get_quantum_chessboard();
    assert_eq!(qb.harmonics.len(), 2);
    assert_eq!(qb.harmonics[0].degeneracy, 1);
    assert_eq!(qb.harmonics[1].degeneracy, 1);
    let knight = Square { player: Player::WHITE, piece: Piece::KNIGHT };
    let mut saw_unmoved = false;
    let mut saw_moved = false;
    for h in &qb.harmonics {
        if h.board.get(1, 0) == knight {
            assert!(!h.board.get(4, 3).is_occupied());
            assert!(!h.board.get(2, 2).is_occupied());
            saw_unmoved = true;
        } else {
            assert_eq!(h.board.get(4, 3), knight);
            assert!(!h.board.get(1, 0).is_occupied());
            assert!(!h.board.get(2, 2).is_occupied());
            saw_moved = true;
        }
    }
    assert!(saw_unmoved && saw_moved);
}

#[test]
fn illegal_move_rejected_and_state_unchanged() {
    let mut eng = QuantumChessEngine::new();
    eng.coin = CoinSource::Fixed(true);
    let before = eng.get_quantum_chessboard();
    let res = eng.submit(&ordinary(Player::WHITE, Piece::PAWN, (4, 1), (4, 4), Piece::EMPTY));
    assert!(!res.is_success());
    let after = eng.get_quantum_chessboard();
    assert!(snapshots_equal(&before, &after));
    assert_eq!(eng.player, Player::WHITE);
}

#[test]
fn wrong_player_rejected() {
    let mut eng = QuantumChessEngine::new();
    let before = eng.get_quantum_chessboard();
    let res = eng.submit(&ordinary(Player::BLACK, Piece::PAWN, (4, 6), (4, 4), Piece::EMPTY));
    assert!(!res.is_success());
    assert!(snapshots_equal(&before, &eng.get_quantum_chessboard()));
}

#[test]
fn empty_source_rejected() {
    let mut eng = QuantumChessEngine::new();
    let res = eng.submit(&ordinary(Player::WHITE, Piece::PAWN, (4, 3), (4, 4), Piece::EMPTY));
    assert!(!res.is_success());
}

#[test]
fn wrong_piece_rejected() {
    let mut eng = QuantumChessEngine::new();
    let res = eng.submit(&ordinary(Player::WHITE, Piece::KNIGHT, (4, 1), (4, 2), Piece::EMPTY));
    assert!(!res.is_success());
}

#[test]
fn wrong_target_piece_rejected() {
    let mut eng = QuantumChessEngine::new();
    let res = eng.submit(&ordinary(Player::WHITE, Piece::PAWN, (4, 1), (4, 2), Piece::PAWN));
    assert!(!res.is_success());
}

#[test]
fn friendly_target_rejected() {
    let mut eng = QuantumChessEngine::new();
    let res = eng.submit(&ordinary(Player::WHITE, Piece::QUEEN, (3, 0), (4, 0), Piece::KING));
    assert!(!res.is_success());
}

#[test]
fn trivial_quantum_rejected() {
    let mut eng = QuantumChessEngine::new();
    let before = eng.get_quantum_chessboard();
    let res = eng.submit(&quantum(Player::WHITE, Piece::KNIGHT, (1, 0), (2, 2), (1, 0)));
    assert!(!res.is_success());
    assert!(snapshots_equal(&before, &eng.get_quantum_chessboard()));
}

#[test]
fn quantum_capture_rejected() {
    let mut eng = QuantumChessEngine::new();
    // The target square holds a black pawn: quantum moves cannot land on
    // any occupied square.
    let res = eng.submit(&quantum(Player::WHITE, Piece::KNIGHT, (1, 0), (2, 2), (3, 6)));
    assert!(!res.is_success());
}

#[test]
fn move_on_superposed_source_applies_where_present() {
    let mut eng = QuantumChessEngine::new();
    eng.coin = CoinSource::Fixed(true);
    // Split the knight between b1 and e4.
    assert!(eng
        .submit(&quantum(Player::WHITE, Piece::KNIGHT, (1, 0), (2, 2), (4, 3)))
        .is_success());
    eng.player.switch();
    assert!(eng
        .submit(&ordinary(Player::BLACK, Piece::PAWN, (3, 6), (3, 4), Piece::EMPTY))
        .is_success());
    eng.player.switch();
    // A plain knight move from e4 applies only on the branch where the
    // knight is there; the other branch is unchanged.
    let res = eng.submit(&ordinary(Player::WHITE, Piece::KNIGHT, (4, 3), (3, 5), Piece::EMPTY));
    assert!(res.is_success());
    let qb = eng.get_quantum_chessboard();
    assert_eq!(qb.harmonics.len(), 2);
    let knight = Square { player: Player::WHITE, piece: Piece::KNIGHT };
    let mut saw_moved = false;
    let mut saw_unmoved = false;
    for h in &qb.harmonics {
        if h.board.get(3, 5) == knight {
            saw_moved = true;
        }
        if h.board.get(1, 0) == knight {
            saw_unmoved = true;
        }
    }
    assert!(saw_moved && saw_unmoved);
}

#[test]
fn capture_with_collapse_heads() {
    let mut eng = QuantumChessEngine::new();
    eng.coin = CoinSource::Fixed(true);
    // Knight superposed between b1 (unmoved) and d5 (moved).
    assert!(eng
        .submit(&quantum(Player::WHITE, Piece::KNIGHT, (1, 0), (2, 2), (3, 4)))
        .is_success());
    eng.player.switch();
    assert!(eng
        .submit(&ordinary(Player::BLACK, Piece::PAWN, (4, 6), (4, 5), Piece::EMPTY))
        .is_success());
    eng.player.switch();
    // With the coin fixed on heads, the capture of the c7 pawn collapses
    // the state onto the branch where the knight stands on d5.
    let res = eng.submit(&ordinary(Player::WHITE, Piece::KNIGHT, (3, 4), (2, 6), Piece::PAWN));
    assert!(res.is_success());
    let qb = eng.get_quantum_chessboard();
    assert_eq!(qb.harmonics.len(), 1);
    assert_eq!(qb.harmonics[0].degeneracy, 1);
    let knight = Square { player: Player::WHITE, piece: Piece::KNIGHT };
    assert_eq!(qb.harmonics[0].board.get(2, 6), knight);
    assert!(!qb.harmonics[0].board.get(3, 4).is_occupied());
    assert!(!qb.harmonics[0].board.get(1, 0).is_occupied());
}

#[test]
fn capture_with_collapse_tails() {
    let mut eng = QuantumChessEngine::new();
    eng.coin = CoinSource::Fixed(true);
    assert!(eng
        .submit(&quantum(Player::WHITE, Piece::KNIGHT, (1, 0), (2, 2), (3, 4)))
        .is_success());
    eng.player.switch();
    assert!(eng
        .submit(&ordinary(Player::BLACK, Piece::PAWN, (4, 6), (4, 5), Piece::EMPTY))
        .is_success());
    eng.player.switch();
    // With the coin fixed on tails, the knight is found absent: the state
    // collapses onto the unmoved branch, nothing is captured, and the
    // submission still succeeds (the player loses the attempt).
    eng.coin = CoinSource::Fixed(false);
    let res = eng.submit(&ordinary(Player::WHITE, Piece::KNIGHT, (3, 4), (2, 6), Piece::PAWN));
    assert!(res.is_success());
    let qb = eng.get_quantum_chessboard();
    assert_eq!(qb.harmonics.len(), 1);
    assert_eq!(qb.harmonics[0].degeneracy, 1);
    let knight = Square { player: Player::WHITE, piece: Piece::KNIGHT };
    let pawn = Square { player: Player::BLACK, piece: Piece::PAWN };
    assert_eq!(qb.harmonics[0].board.get(1, 0), knight);
    assert_eq!(qb.harmonics[0].board.get(2, 6), pawn);
    assert!(!qb.harmonics[0].board.get(3, 4).is_occupied());
}

#[test]
fn full_capture_without_measurement() {
    let mut eng = QuantumChessEngine::new();
    eng.coin = CoinSource::Fixed(true);
    assert!(eng
        .submit(&ordinary(Player::WHITE, Piece::PAWN, (4, 1), (4, 3), Piece::EMPTY))
        .is_success());
    eng.player.switch();
    assert!(eng
        .submit(&ordinary(Player::BLACK, Piece::PAWN, (3, 6), (3, 4), Piece::EMPTY))
        .is_success());
    eng.player.switch();
    // The white e4 pawn takes the black d5 pawn: probability one, no coin.
    eng.coin = CoinSource::Scripted(vec![false]);
    let res = eng.submit(&ordinary(Player::WHITE, Piece::PAWN, (4, 3), (3, 4), Piece::PAWN));
    assert!(res.is_success());
    let qb = eng.get_quantum_chessboard();
    assert_eq!(qb.harmonics.len(), 1);
    assert_eq!(
        qb.harmonics[0].board.get(3, 4),
        Square { player: Player::WHITE, piece: Piece::PAWN }
    );
    assert!(!qb.harmonics[0].board.get(4, 3).is_occupied());
    // No coin was consulted: the script is untouched.
    match &eng.coin {
        CoinSource::Scripted(s) => assert_eq!(s.len(), 1),
        _ => panic!("coin source changed kind"),
    }
}

#[test]
fn square_info_probabilities() {
    let mut eng = QuantumChessEngine::new();
    eng.coin = CoinSource::Fixed(true);
    let qb = eng.get_quantum_chessboard();
    // A fully occupied square reports probability one, exactly.
    let info = qb.get_quantum_square_info(4, 1);
    assert_eq!(info.square, Square { player: Player::WHITE, piece: Piece::PAWN });
    assert_eq!(info.numerator, 1);
    assert_eq!(info.denominator, 1);
    // An everywhere-empty square reports the empty square with probability one.
    let info = qb.get_quantum_square_info(4, 4);
    assert!(!info.square.is_occupied());
    assert_eq!(info.numerator, info.denominator);
    // After a split, the knight occupies each branch square with weight 1 of 2.
    assert!(eng
        .submit(&quantum(Player::WHITE, Piece::KNIGHT, (1, 0), (2, 2), (4, 3)))
        .is_success());
    let qb = eng.get_quantum_chessboard();
    let info = qb.get_quantum_square_info(1, 0);
    assert_eq!(info.square, Square { player: Player::WHITE, piece: Piece::KNIGHT });
    assert_eq!(info.numerator, 1);
    assert_eq!(info.denominator, 2);
    assert!(info.numerator <= info.denominator);
    let info = qb.get_quantum_square_info(4, 3);
    assert_eq!(info.numerator, 1);
    assert_eq!(info.denominator, 2);
}

#[test]
fn degeneracies_stay_normalized_and_sorted() {
    let mut eng = QuantumChessEngine::new();
    eng.coin = CoinSource::Fixed(true);
    // Two quantum moves in a row: the inadmissible branches double, and
    // normalization keeps the degeneracy gcd at one.
    assert!(eng
        .submit(&quantum(Player::WHITE, Piece::KNIGHT, (1, 0), (2, 2), (4, 3)))
        .is_success());
    eng.player.switch();
    assert!(eng
        .submit(&quantum(Player::BLACK, Piece::KNIGHT, (6, 7), (5, 5), (3, 4)))
        .is_success());
    let qb = eng.get_quantum_chessboard();
    assert_eq!(qb.harmonics.len(), 4);
    let mut gcd: u64 = 0;
    for h in &qb.harmonics {
        assert!(h.degeneracy >= 1);
        gcd = quantum_chess::quantize::gcd_u64(gcd, h.degeneracy);
    }
    assert_eq!(gcd, 1);
    for i in 1..qb.harmonics.len() {
        assert!(qb.harmonics[i - 1].degeneracy >= qb.harmonics[i].degeneracy);
    }
    // No two harmonics hold the same board.
    for i in 0..qb.harmonics.len() {
        for j in (i + 1)..qb.harmonics.len() {
            assert!(!qb.harmonics[i].board.same_position(&qb.harmonics[j].board));
        }
    }
}

#[test]
fn random_coin_certain_when_probability_is_one() {
    // A certain flip answers true however the generator draws: the only
    // value below one is zero.
    let mut coin = CoinSource::Random;
    for _ in 0..8 {
        assert!(coin.flip(1, 1));
    }
}

#[test]
fn scripted_coin_pops_from_the_end() {
    let mut coin = CoinSource::Scripted(vec![true, false]);
    assert_eq!(coin.flip(1, 2), false);
    assert_eq!(coin.flip(1, 2), true);
    assert_eq!(coin.flip(1, 2), true);
}

#[test]
fn gcd_values() {
    assert_eq!(quantum_chess::quantize::gcd_u64(12, 18), 6);
    assert_eq!(quantum_chess::quantize::gcd_u64(0, 5), 5);
    assert_eq!(quantum_chess::quantize::gcd_u64(7, 0), 7);
    assert_eq!(quantum_chess::quantize::gcd_u64(9, 28), 1);
}

#[test]
fn failed_submit_on_superposed_state_changes_nothing() {
    let mut eng = QuantumChessEngine::new();
    eng.coin = CoinSource::Fixed(true);
    assert!(eng
        .submit(&quantum(Player::WHITE, Piece::KNIGHT, (1, 0), (2, 2), (4, 3)))
        .is_success());
    // The settled two-branch state survives a rejected submission bitwise:
    // the pipeline runs again and gives back the very same superposition.
    let before = eng.get_quantum_chessboard();
    let res = eng.submit(&ordinary(Player::BLACK, Piece::PAWN, (3, 6), (3, 4), Piece::EMPTY));
    assert!(!res.is_success());
    assert!(snapshots_equal(&before, &eng.get_quantum_chessboard()));
}

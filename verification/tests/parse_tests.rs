use quantum_chess::chess::{Piece, Player, Square};
use quantum_chess::chess::QuantumChessMove;
use quantum_chess::parse::{
    parse_command, parse_coords, parse_ordinary_move, parse_piece, parse_player,
    parse_quantum_move, parse_target_piece, str_is,
};
use quantum_chess::render::square_char;

#[test]
fn string_comparison() {
    assert!(str_is("white", "white"));
    assert!(!str_is("white", "black"));
    assert!(!str_is("white", "whit"));
    assert!(!str_is("whit", "white"));
    assert!(str_is("", ""));
}

#[test]
fn player_words() {
    assert_eq!(parse_player("white"), Some(Player::WHITE));
    assert_eq!(parse_player("black"), Some(Player::BLACK));
    assert_eq!(parse_player("green"), None);
    assert_eq!(parse_player(""), None);
}

#[test]
fn piece_words() {
    assert_eq!(parse_piece("pawn"), Some(Piece::PAWN));
    assert_eq!(parse_piece("knight"), Some(Piece::KNIGHT));
    assert_eq!(parse_piece("bishop"), Some(Piece::BISHOP));
    assert_eq!(parse_piece("rook"), Some(Piece::ROOK));
    assert_eq!(parse_piece("queen"), Some(Piece::QUEEN));
    assert_eq!(parse_piece("king"), Some(Piece::KING));
    assert_eq!(parse_piece("nothing"), None);
    assert_eq!(parse_piece("duke"), None);
}

#[test]
fn capture_words() {
    assert_eq!(parse_target_piece("nothing"), Some(Piece::EMPTY));
    assert_eq!(parse_target_piece("queen"), Some(Piece::QUEEN));
    assert_eq!(parse_target_piece("empty"), None);
}

#[test]
fn coordinate_words() {
    assert_eq!(parse_coords("a1"), Some((0, 0)));
    assert_eq!(parse_coords("e2"), Some((4, 1)));
    assert_eq!(parse_coords("h8"), Some((7, 7)));
    assert_eq!(parse_coords("i1"), None);
    assert_eq!(parse_coords("a9"), None);
    assert_eq!(parse_coords("a"), None);
    assert_eq!(parse_coords("a10"), None);
    assert_eq!(parse_coords(""), None);
}

#[test]
fn ordinary_move_words() {
    let m = parse_ordinary_move("white", "pawn", "e2", "e4", "nothing").unwrap();
    assert_eq!(m.player, Player::WHITE);
    assert_eq!(m.piece, Piece::PAWN);
    assert_eq!(m.source_position, (4, 1));
    assert_eq!(m.target_position, (4, 3));
    assert_eq!(m.target_piece, Piece::EMPTY);

    let c = parse_ordinary_move("black", "rook", "a8", "a1", "queen").unwrap();
    assert_eq!(c.player, Player::BLACK);
    assert_eq!(c.piece, Piece::ROOK);
    assert_eq!(c.source_position, (0, 7));
    assert_eq!(c.target_position, (0, 0));
    assert_eq!(c.target_piece, Piece::QUEEN);

    assert!(parse_ordinary_move("gray", "pawn", "e2", "e4", "nothing").is_none());
    assert!(parse_ordinary_move("white", "prawn", "e2", "e4", "nothing").is_none());
    assert!(parse_ordinary_move("white", "pawn", "e9", "e4", "nothing").is_none());
    assert!(parse_ordinary_move("white", "pawn", "e2", "j4", "nothing").is_none());
    assert!(parse_ordinary_move("white", "pawn", "e2", "e4", "something").is_none());
}

#[test]
fn quantum_move_words() {
    let m = parse_quantum_move("white", "knight", "b1", "c3", "e4").unwrap();
    assert_eq!(m.player, Player::WHITE);
    assert_eq!(m.piece, Piece::KNIGHT);
    assert_eq!(m.source_position, (1, 0));
    assert_eq!(m.middle_position, (2, 2));
    assert_eq!(m.target_position, (4, 3));

    assert!(parse_quantum_move("white", "knight", "b1", "c3", "e0").is_none());
    assert!(parse_quantum_move("white", "nothing", "b1", "c3", "e4").is_none());
}

#[test]
fn square_glyphs() {
    assert_eq!(square_char(Square { player: Player::WHITE, piece: Piece::KING }), '\u{2654}');
    assert_eq!(square_char(Square { player: Player::WHITE, piece: Piece::PAWN }), '\u{2659}');
    assert_eq!(square_char(Square { player: Player::BLACK, piece: Piece::KING }), '\u{265A}');
    assert_eq!(square_char(Square { player: Player::BLACK, piece: Piece::PAWN }), '\u{265F}');
    assert_eq!(square_char(Square { player: Player::WHITE, piece: Piece::EMPTY }), '.');
}

#[test]
fn command_lines() {
    match parse_command("white pawn e2 -> e4 takes nothing") {
        Some(QuantumChessMove::Ordinary(m)) => {
            assert_eq!(m.player, Player::WHITE);
            assert_eq!(m.piece, Piece::PAWN);
            assert_eq!(m.source_position, (4, 1));
            assert_eq!(m.target_position, (4, 3));
            assert_eq!(m.target_piece, Piece::EMPTY);
        },
        _ => panic!("ordinary command did not parse"),
    }
    match parse_command("black knight g8 -> f6 -> e4") {
        Some(QuantumChessMove::Quantum(m)) => {
            assert_eq!(m.player, Player::BLACK);
            assert_eq!(m.piece, Piece::KNIGHT);
            assert_eq!(m.source_position, (6, 7));
            assert_eq!(m.middle_position, (5, 5));
            assert_eq!(m.target_position, (4, 3));
        },
        _ => panic!("quantum command did not parse"),
    }
    assert!(parse_command("").is_none());
    assert!(parse_command("white pawn e2 -> e4").is_none());
    assert!(parse_command("white pawn e2 -> e4 takes nothing extra").is_none());
    assert!(parse_command("white pawn e2 => e4 takes nothing").is_none());
    assert!(parse_command("white pawn e2  -> e4 takes nothing").is_none());
    assert!(parse_command("white pawn e2 -> e4 takes nothing ").is_none());
}

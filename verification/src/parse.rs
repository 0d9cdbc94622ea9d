//! The text command grammar: words for players, pieces and board
//! coordinates, parsed into move values.
use vstd::prelude::*;

use crate::chess::{on_board, ChessMove, Piece, Player, QuantumChessMove, QuantumMove};

verus! {

/// The player a command word names, trying `white` then `black`.
pub open spec fn spec_parse_player(s: Seq<char>) -> Option<Player> {
    if s == "white"@ {
        Some(Player::WHITE)
    } else if s == "black"@ {
        Some(Player::BLACK)
    } else {
        None
    }
}

/// The piece a command word names, in the order the grammar lists them.
pub open spec fn spec_parse_piece(s: Seq<char>) -> Option<Piece> {
    if s == "pawn"@ {
        Some(Piece::PAWN)
    } else if s == "knight"@ {
        Some(Piece::KNIGHT)
    } else if s == "bishop"@ {
        Some(Piece::BISHOP)
    } else if s == "rook"@ {
        Some(Piece::ROOK)
    } else if s == "queen"@ {
        Some(Piece::QUEEN)
    } else if s == "king"@ {
        Some(Piece::KING)
    } else {
        None
    }
}

/// The capture word: `nothing` for a plain move, else a piece word.
pub open spec fn spec_parse_target_piece(s: Seq<char>) -> Option<Piece> {
    if s == "nothing"@ {
        Some(Piece::EMPTY)
    } else {
        spec_parse_piece(s)
    }
}

/// The board coordinates a two-character word names: files `a..h` map to
/// `x = 0..7` and ranks `1..8` map to `y = 0..7`.
pub open spec fn spec_parse_coords(s: Seq<char>) -> Option<(int, int)> {
    if s.len() == 2 && 'a' as int <= s[0] as int <= 'h' as int && '1' as int <= s[1] as int
        <= '8' as int {
        Some((s[0] as int - 'a' as int, s[1] as int - '1' as int))
    } else {
        None
    }
}

/// The ordinary move named by its five command words, when every word is
/// well-formed.
pub open spec fn spec_parse_ordinary(
    player_w: Seq<char>,
    piece_w: Seq<char>,
    source_w: Seq<char>,
    target_w: Seq<char>,
    takes_w: Seq<char>,
) -> Option<ChessMove> {
    if spec_parse_player(player_w) is Some && spec_parse_piece(piece_w) is Some
        && spec_parse_coords(source_w) is Some && spec_parse_coords(target_w) is Some
        && spec_parse_target_piece(takes_w) is Some {
        let s = spec_parse_coords(source_w).unwrap();
        let t = spec_parse_coords(target_w).unwrap();
        Some(
            ChessMove {
                player: spec_parse_player(player_w).unwrap(),
                source_position: (s.0 as isize, s.1 as isize),
                target_position: (t.0 as isize, t.1 as isize),
                piece: spec_parse_piece(piece_w).unwrap(),
                target_piece: spec_parse_target_piece(takes_w).unwrap(),
            },
        )
    } else {
        None
    }
}

/// The quantum move named by its five command words, when every word is
/// well-formed.
pub open spec fn spec_parse_quantum(
    player_w: Seq<char>,
    piece_w: Seq<char>,
    source_w: Seq<char>,
    middle_w: Seq<char>,
    target_w: Seq<char>,
) -> Option<QuantumMove> {
    if spec_parse_player(player_w) is Some && spec_parse_piece(piece_w) is Some
        && spec_parse_coords(source_w) is Some && spec_parse_coords(middle_w) is Some
        && spec_parse_coords(target_w) is Some {
        let s = spec_parse_coords(source_w).unwrap();
        let m = spec_parse_coords(middle_w).unwrap();
        let t = spec_parse_coords(target_w).unwrap();
        Some(
            QuantumMove {
                player: spec_parse_player(player_w).unwrap(),
                source_position: (s.0 as isize, s.1 as isize),
                middle_position: (m.0 as isize, m.1 as isize),
                target_position: (t.0 as isize, t.1 as isize),
                piece: spec_parse_piece(piece_w).unwrap(),
            },
        )
    } else {
        None
    }
}

/// The position of the first space in `s`, or its length when it has none.
pub open spec fn first_space(s: Seq<char>) -> int
    decreases s.len(),
{
    if s.len() == 0 {
        0
    } else if s[0] == ' ' {
        0
    } else {
        1 + first_space(s.drop_first())
    }
}

/// The first space comes no earlier than the start and no later than the
/// end of the text.
pub proof fn lemma_first_space_bounds(s: Seq<char>)
    ensures
        0 <= first_space(s) <= s.len(),
    decreases s.len(),
{
    if s.len() > 0 && s[0] != ' ' {
        lemma_first_space_bounds(s.drop_first());
    }
}

/// The words of `s`, split at every single space.
pub open spec fn spec_split(s: Seq<char>) -> Seq<Seq<char>>
    decreases s.len(),
    via spec_split_decreases
{
    let i = first_space(s);
    if i >= s.len() {
        seq![s]
    } else {
        seq![s.take(i)] + spec_split(s.skip(i + 1))
    }
}

#[via_fn]
proof fn spec_split_decreases(s: Seq<char>) {
    lemma_first_space_bounds(s);
}

/// The move a full command line names: seven space-separated words, with
/// `->` and `takes` in the ordinary shape, or `->` twice in the quantum
/// shape.
pub open spec fn spec_parse_command(s: Seq<char>) -> Option<QuantumChessMove> {
    let ws = spec_split(s);
    if ws.len() == 7 && ws[3] == "->"@ && ws[5] == "takes"@ {
        match spec_parse_ordinary(ws[0], ws[1], ws[2], ws[4], ws[6]) {
            Some(m) => Some(QuantumChessMove::Ordinary(m)),
            None => None,
        }
    } else if ws.len() == 7 && ws[3] == "->"@ && ws[5] == "->"@ {
        match spec_parse_quantum(ws[0], ws[1], ws[2], ws[4], ws[6]) {
            Some(m) => Some(QuantumChessMove::Quantum(m)),
            None => None,
        }
    } else {
        None
    }
}

/// A scan that saw no space up to `k`, and a space or the end at `k`,
/// found the first space.
proof fn lemma_first_space_at(s: Seq<char>, k: int)
    requires
        0 <= k <= s.len(),
        forall|j: int| 0 <= j < k ==> s[j] != ' ',
        k == s.len() || s[k] == ' ',
    ensures
        first_space(s) == k,
    decreases k,
{
    if k == 0 {
    } else {
        assert(s[0] != ' ');
        lemma_first_space_at(s.drop_first(), k - 1);
    }
}

/// Splitting yields at least one word.
proof fn lemma_spec_split_nonempty(s: Seq<char>)
    ensures
        spec_split(s).len() >= 1,
{
    lemma_first_space_bounds(s);
}

/// The views of a list of word slices.
pub open spec fn word_views(ws: Seq<&str>) -> Seq<Seq<char>> {
    ws.map_values(|w: &str| w@)
}

/// The next word of `s` at or after position `from`: the characters up to
/// the next space or the end, and the position just past that space.
fn next_word<'a>(s: &'a str, from: usize) -> (r: (&'a str, usize))
    requires
        from <= s@.len(),
        s@.len() < usize::MAX,
    ensures
        r.0@ == s@.skip(from as int).take(first_space(s@.skip(from as int))),
        r.1 == from + first_space(s@.skip(from as int)) + 1,
{
    let n = s.unicode_len();
    let mut j: usize = from;
    while j < n
        invariant
            from <= j <= n,
            n == s@.len(),
            forall|k: int| from <= k < j ==> s@[k] != ' ',
        ensures
            from <= j <= n,
            forall|k: int| from <= k < j ==> s@[k] != ' ',
            j == n || s@[j as int] == ' ',
        decreases n - j,
    {
        if s.get_char(j) == ' ' {
            break;
        }
        j = j + 1;
    }
    proof {
        let rest = s@.skip(from as int);
        assert forall|k: int| 0 <= k < j - from implies rest[k] != ' ' by {
            assert(s@[from + k] != ' ');
        }
        if j < n {
            assert(rest[j - from] == s@[j as int]);
        }
        lemma_first_space_at(rest, j - from);
    }
    let w = s.substring_char(from, j);
    proof {
        assert(w@ =~= s@.skip(from as int).take(j - from));
    }
    (w, j + 1)
}

/// Parses a full command line: seven space-separated words shaped
/// `<player> <piece> <from> -> <to> takes <target>` for an ordinary move
/// or `<player> <piece> <from> -> <middle> -> <to>` for a quantum move.
/// Anything else parses to nothing.
pub fn parse_command(line: &str) -> (r: Option<QuantumChessMove>)
    requires
        line@.len() < usize::MAX,
    ensures
        r == spec_parse_command(line@),
{
    let n = line.unicode_len();
    let mut words: Vec<&str> = Vec::new();
    let mut p: usize = 0;
    let mut done = false;
    proof {
        assert(line@.skip(0) =~= line@);
        assert(word_views(words@) =~~= Seq::<Seq<char>>::empty());
        assert(word_views(words@) + spec_split(line@.skip(p as int)) =~~= spec_split(line@));
    }
    while !done && words.len() < 8
        invariant
            n == line@.len(),
            n < usize::MAX,
            p <= n + 1,
            !done ==> p <= n,
            words@.len() <= 8,
            !done ==> spec_split(line@) == word_views(words@) + spec_split(line@.skip(p as int)),
            done ==> spec_split(line@) == word_views(words@),
        decreases 8 - words@.len(),
    {
        let ghost words0 = words@;
        let (w, np) = next_word(line, p);
        words.push(w);
        proof {
            let rest = line@.skip(p as int);
            lemma_first_space_bounds(rest);
            let fs = first_space(rest);
            assert(word_views(words@) =~~= word_views(words0).push(w@));
            if fs >= rest.len() {
                assert(w@ =~= rest);
                assert(spec_split(rest) =~~= seq![rest]);
                assert(word_views(words0) + spec_split(rest) =~~= word_views(words@));
            } else {
                assert(spec_split(rest) == seq![rest.take(fs)] + spec_split(rest.skip(fs + 1)));
                assert(rest.skip(fs + 1) =~= line@.skip(np as int));
                assert(word_views(words0) + spec_split(rest) =~~= word_views(words@)
                    + spec_split(line@.skip(np as int)));
            }
        }
        if np > n {
            done = true;
        } else {
            p = np;
        }
    }
    if !done || words.len() != 7 {
        proof {
            if done {
                assert(spec_split(line@).len() == words@.len());
            } else {
                lemma_spec_split_nonempty(line@.skip(p as int));
                assert(spec_split(line@).len() >= 9);
            }
            assert(spec_split(line@).len() != 7);
        }
        return None;
    }
    proof {
        assert(spec_split(line@).len() == 7);
        assert forall|k: int| 0 <= k < 7 implies spec_split(line@)[k] == words@[k]@ by {
            assert(word_views(words@)[k] == words@[k]@);
        }
    }
    if str_is(words[3], "->") && str_is(words[5], "takes") {
        match parse_ordinary_move(words[0], words[1], words[2], words[4], words[6]) {
            Some(m) => Some(QuantumChessMove::Ordinary(m)),
            None => None,
        }
    } else if str_is(words[3], "->") && str_is(words[5], "->") {
        match parse_quantum_move(words[0], words[1], words[2], words[4], words[6]) {
            Some(m) => Some(QuantumChessMove::Quantum(m)),
            None => None,
        }
    } else {
        None
    }
}

/// Whether two text fragments hold the same characters.
pub fn str_is(s: &str, t: &str) -> (r: bool)
    ensures
        r == (s@ == t@),
{
    let n = s.unicode_len();
    let m = t.unicode_len();
    if n != m {
        return false;
    }
    let mut i: usize = 0;
    while i < n
        invariant
            n == s@.len(),
            n == t@.len(),
            0 <= i <= n,
            forall|j: int| 0 <= j < i ==> s@[j] == t@[j],
        decreases n - i,
    {
        if s.get_char(i) != t.get_char(i) {
            return false;
        }
        i = i + 1;
    }
    proof {
        assert(s@ =~= t@);
    }
    true
}

/// Parses a player word.
pub fn parse_player(s: &str) -> (r: Option<Player>)
    ensures
        r == spec_parse_player(s@),
{
    if str_is(s, "white") {
        Some(Player::WHITE)
    } else if str_is(s, "black") {
        Some(Player::BLACK)
    } else {
        None
    }
}

/// Parses a piece word.
pub fn parse_piece(s: &str) -> (r: Option<Piece>)
    ensures
        r == spec_parse_piece(s@),
{
    if str_is(s, "pawn") {
        Some(Piece::PAWN)
    } else if str_is(s, "knight") {
        Some(Piece::KNIGHT)
    } else if str_is(s, "bishop") {
        Some(Piece::BISHOP)
    } else if str_is(s, "rook") {
        Some(Piece::ROOK)
    } else if str_is(s, "queen") {
        Some(Piece::QUEEN)
    } else if str_is(s, "king") {
        Some(Piece::KING)
    } else {
        None
    }
}

/// Parses a capture word: `nothing`, or a piece word.
pub fn parse_target_piece(s: &str) -> (r: Option<Piece>)
    ensures
        r == spec_parse_target_piece(s@),
{
    if str_is(s, "nothing") {
        Some(Piece::EMPTY)
    } else {
        parse_piece(s)
    }
}

/// Parses a two-character coordinate word such as `e2`.
pub fn parse_coords(s: &str) -> (r: Option<(isize, isize)>)
    ensures
        r is Some <==> spec_parse_coords(s@) is Some,
        r matches Some(c) ==> spec_parse_coords(s@) == Some((c.0 as int, c.1 as int)) && on_board(
            c.0 as int,
            c.1 as int,
        ),
{
    let n = s.unicode_len();
    if n != 2 {
        return None;
    }
    let file = s.get_char(0);
    let rank = s.get_char(1);
    let fu = file as u32;
    let ru = rank as u32;
    let au = 'a' as u32;
    let ou = '1' as u32;
    if fu < au || fu > 'h' as u32 {
        return None;
    }
    if ru < ou || ru > '8' as u32 {
        return None;
    }
    let x = (fu - au) as isize;
    let y = (ru - ou) as isize;
    Some((x, y))
}

/// Parses the five words of an ordinary move command:
/// `<player> <piece> <from> -> <to> takes <target>`. Returns a move
/// exactly when every word is well-formed.
pub fn parse_ordinary_move(
    player_str: &str,
    piece_str: &str,
    source_str: &str,
    target_str: &str,
    takes_str: &str,
) -> (r: Option<ChessMove>)
    ensures
        r is Some <==> (spec_parse_player(player_str@) is Some && spec_parse_piece(piece_str@)
            is Some && spec_parse_coords(source_str@) is Some && spec_parse_coords(target_str@)
            is Some && spec_parse_target_piece(takes_str@) is Some),
        r matches Some(m) ==> Some(m.player) == spec_parse_player(player_str@) && Some(m.piece)
            == spec_parse_piece(piece_str@) && spec_parse_coords(source_str@) == Some(
            (m.source_position.0 as int, m.source_position.1 as int),
        ) && spec_parse_coords(target_str@) == Some(
            (m.target_position.0 as int, m.target_position.1 as int),
        ) && Some(m.target_piece) == spec_parse_target_piece(takes_str@) && m.coords_on_board(),
        r == spec_parse_ordinary(player_str@, piece_str@, source_str@, target_str@, takes_str@),
{
    let player = match parse_player(player_str) {
        Some(p) => p,
        None => {
            return None;
        },
    };
    let piece = match parse_piece(piece_str) {
        Some(p) => p,
        None => {
            return None;
        },
    };
    let source_position = match parse_coords(source_str) {
        Some(c) => c,
        None => {
            return None;
        },
    };
    let target_position = match parse_coords(target_str) {
        Some(c) => c,
        None => {
            return None;
        },
    };
    let target_piece = match parse_target_piece(takes_str) {
        Some(p) => p,
        None => {
            return None;
        },
    };
    Some(ChessMove { player, source_position, target_position, piece, target_piece })
}

/// Parses the five words of a quantum move command:
/// `<player> <piece> <from> -> <middle> -> <to>`. Returns a move exactly
/// when every word is well-formed.
pub fn parse_quantum_move(
    player_str: &str,
    piece_str: &str,
    source_str: &str,
    middle_str: &str,
    target_str: &str,
) -> (r: Option<QuantumMove>)
    ensures
        r is Some <==> (spec_parse_player(player_str@) is Some && spec_parse_piece(piece_str@)
            is Some && spec_parse_coords(source_str@) is Some && spec_parse_coords(middle_str@)
            is Some && spec_parse_coords(target_str@) is Some),
        r matches Some(m) ==> Some(m.player) == spec_parse_player(player_str@) && Some(m.piece)
            == spec_parse_piece(piece_str@) && spec_parse_coords(source_str@) == Some(
            (m.source_position.0 as int, m.source_position.1 as int),
        ) && spec_parse_coords(middle_str@) == Some(
            (m.middle_position.0 as int, m.middle_position.1 as int),
        ) && spec_parse_coords(target_str@) == Some(
            (m.target_position.0 as int, m.target_position.1 as int),
        ) && m.coords_on_board(),
        r == spec_parse_quantum(player_str@, piece_str@, source_str@, middle_str@, target_str@),
{
    let player = match parse_player(player_str) {
        Some(p) => p,
        None => {
            return None;
        },
    };
    let piece = match parse_piece(piece_str) {
        Some(p) => p,
        None => {
            return None;
        },
    };
    let source_position = match parse_coords(source_str) {
        Some(c) => c,
        None => {
            return None;
        },
    };
    let middle_position = match parse_coords(middle_str) {
        Some(c) => c,
        None => {
            return None;
        },
    };
    let target_position = match parse_coords(target_str) {
        Some(c) => c,
        None => {
            return None;
        },
    };
    Some(QuantumMove { player, source_position, middle_position, target_position, piece })
}

} // verus!

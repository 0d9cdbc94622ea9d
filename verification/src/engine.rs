//! The move-submission protocol: validates a proposed move against the
//! aggregate square information, rewrites the harmonics, and runs the
//! post-move pipeline (measurement, regroup, normalization).
use vstd::prelude::*;

use crate::chess::{
    apply_v, on_board, spec_empty_square, ChessMove, Chessboard, ChessMoveResult, Piece, Player,
    QuantumChessMove, QuantumMove, Square,
};
use crate::quantize::{
    aggregate_at, at_most_two, at_most_two_at, boards_wf, consistent, consistent_at, deg_contrib,
    distinct_boards, keeps_occupancy, normalized, occ_deg, pipeline_shape, positivity, settled,
    sorted_desc, sum_of, total_deg, weight, weights_divided_by, well_formed,
    lemma_consistent_at_most_two, lemma_consistent_boards_members, lemma_pipeline_idempotent,
    lemma_sum_member_le, lemma_sum_take_le, lemma_sum_take_step, lemma_sum_nonneg,
    QuantumChessboard, QuantumHarmonic,
};
use crate::rng::CoinSource;

verus! {

/// The engine: whose turn it is, the current superposition, and the
/// source of measurement coins.
pub struct QuantumChessEngine {
    pub player: Player,
    pub coin: CoinSource,
    state: QuantumChessboard,
}

/// Whether the move `mv` applies on the harmonic `h`: its source square
/// holds exactly the aggregate source value and the motion is allowed by
/// chess geometry on `h`'s board.
pub open spec fn ord_applies(h: QuantumHarmonic, mv: ChessMove, src_sq: Square) -> bool {
    h.board.at(mv.source_position.0 as int, mv.source_position.1 as int) == src_sq
        && h.board.spec_allowed(mv)
}

/// Whether some harmonic of `s` lets `mv` apply.
pub open spec fn ord_available(s: Seq<QuantumHarmonic>, mv: ChessMove, src_sq: Square) -> bool {
    exists|i: int| 0 <= i < s.len() && ord_applies(#[trigger] s[i], mv, src_sq)
}

/// `post` is `pre` with `mv` played in place on every harmonic where it
/// applies, and every other harmonic unchanged.
pub open spec fn ord_rewritten(
    pre: Seq<QuantumHarmonic>,
    post: Seq<QuantumHarmonic>,
    mv: ChessMove,
    src_sq: Square,
) -> bool {
    &&& post.len() == pre.len()
    &&& forall|i: int|
        0 <= i < pre.len() ==> (#[trigger] post[i]).degeneracy == pre[i].degeneracy && (if
        ord_applies(pre[i], mv, src_sq) {
            post[i].board@ == apply_v(pre[i].board@, mv)
        } else {
            post[i] == pre[i]
        })
}

/// The conditions under which an ordinary move is rejected: wrong player,
/// empty or mismatched or enemy-held aggregate source, mismatched
/// aggregate target piece, friendly aggregate target, or no harmonic on
/// which the move applies.
pub open spec fn ord_submit_fails(player: Player, s: Seq<QuantumHarmonic>, mv: ChessMove) -> bool {
    let src = aggregate_at(s, mv.source_position.0 as int, mv.source_position.1 as int);
    let tgt = aggregate_at(s, mv.target_position.0 as int, mv.target_position.1 as int);
    ||| player != mv.player
    ||| !src.spec_is_occupied()
    ||| src.piece != mv.piece
    ||| src.player != mv.player
    ||| tgt.piece != mv.target_piece
    ||| (tgt.spec_is_occupied() && tgt.player == mv.player)
    ||| !ord_available(s, mv, src)
}

/// Equal degeneracies position by position give equal totals.
proof fn lemma_total_same_degs(a: Seq<QuantumHarmonic>, b: Seq<QuantumHarmonic>)
    requires
        a.len() == b.len(),
        forall|i: int| 0 <= i < a.len() ==> (#[trigger] a[i]).degeneracy == b[i].degeneracy,
    ensures
        total_deg(a) == total_deg(b),
    decreases a.len(),
{
    if a.len() > 0 {
        lemma_total_same_degs(a.drop_last(), b.drop_last());
    }
}

/// Playing an ordinary move in place cannot put a third occupant value on
/// any square: the target gains at most the moved piece beside its old
/// unique occupant, the source only empties, and no other square changes.
proof fn lemma_ord_rewritten_classes(
    pre: Seq<QuantumHarmonic>,
    post: Seq<QuantumHarmonic>,
    mv: ChessMove,
    src_sq: Square,
)
    requires
        consistent(pre),
        boards_wf(pre),
        positivity(pre),
        mv.coords_on_board(),
        ord_rewritten(pre, post, mv, src_sq),
    ensures
        at_most_two(post),
        boards_wf(post),
        positivity(post),
        total_deg(post) == total_deg(pre),
        post.len() == pre.len(),
{
    let sx = mv.source_position.0 as int;
    let sy = mv.source_position.1 as int;
    let tx = mv.target_position.0 as int;
    let ty = mv.target_position.1 as int;
    let moved = Square { player: mv.player, piece: mv.piece };
    lemma_total_same_degs(post, pre);
    assert forall|i: int| 0 <= i < post.len() implies (#[trigger] post[i]).board.wf() by {
        if ord_applies(pre[i], mv, src_sq) {
            assert(post[i].board@.len() == pre[i].board@.len());
        }
    }
    assert forall|x: int, y: int| on_board(x, y) implies at_most_two_at(post, x, y) by {
        assert forall|i: int|
            0 <= i < post.len() && (#[trigger] post[i]).board.at(x, y).spec_is_occupied() implies
            post[i].board.at(x, y) == moved || (pre[i].board.at(x, y).spec_is_occupied()
                && post[i].board.at(x, y) == pre[i].board.at(x, y)) by {
            if ord_applies(pre[i], mv, src_sq) {
                assert(post[i].board@ == apply_v(pre[i].board@, mv));
                if y * 8 + x == sy * 8 + sx {
                    assert(post[i].board.at(x, y) == spec_empty_square());
                } else if y * 8 + x == ty * 8 + tx {
                    assert(post[i].board.at(x, y) == moved);
                } else {
                    assert(post[i].board.at(x, y) == pre[i].board.at(x, y));
                }
            }
        }
        assert forall|i: int, j: int, k: int|
            0 <= i < post.len() && 0 <= j < post.len() && 0 <= k < post.len() && (
            #[trigger] post[i]).board.at(x, y).spec_is_occupied() && (#[trigger] post[j]).board.at(
                x,
                y,
            ).spec_is_occupied() && (#[trigger] post[k]).board.at(x, y).spec_is_occupied() implies
            post[i].board.at(x, y) == post[j].board.at(x, y) || post[i].board.at(x, y)
                == post[k].board.at(x, y) || post[j].board.at(x, y) == post[k].board.at(
                x,
                y,
            ) by {
            assert(consistent_at(pre, x, y));
        }
    }
}

impl QuantumChessEngine {
    /// The current superposition, as a mathematical value.
    pub closed spec fn harmonics(self) -> Seq<QuantumHarmonic> {
        self.state.harmonics@
    }

    /// The player whose turn it is, as a mathematical value.
    pub closed spec fn spec_player(self) -> Player {
        self.player
    }

    /// The coin source, as a mathematical value.
    pub closed spec fn spec_coin(self) -> CoinSource {
        self.coin
    }

    /// The engine's invariant: the superposition is settled (well-formed,
    /// consistent, distinct boards, sorted, normalized).
    pub open spec fn inv(self) -> bool {
        settled(self.harmonics())
    }

    /// A fresh engine: white to move, one harmonic holding the standard
    /// starting position with degeneracy one, and a random coin.
    pub fn new() -> (e: QuantumChessEngine)
        ensures
            e.inv(),
            e.spec_player() == Player::WHITE,
            e.spec_coin() is Random,
            e.harmonics().len() == 1,
            e.harmonics()[0].degeneracy == 1,
            forall|x: int, y: int|
                on_board(x, y) ==> e.harmonics()[0].board.at(x, y) == crate::chess::starting_square(
                    x,
                    y,
                ),
    {
        let board = Chessboard::new_starting();
        let mut harmonics: Vec<QuantumHarmonic> = Vec::new();
        harmonics.push(QuantumHarmonic { board, degeneracy: 1 });
        let e = QuantumChessEngine {
            player: Player::WHITE,
            coin: CoinSource::Random,
            state: QuantumChessboard { harmonics },
        };
        proof {
            let s = e.state.harmonics@;
            assert(s.drop_last() =~= Seq::<QuantumHarmonic>::empty());
            assert(s.len() == 1 && s.last().degeneracy == 1);
            assert(sum_of(Seq::<QuantumHarmonic>::empty(), deg_contrib()) == 0);
            assert(deg_contrib()(s.last()) == 1);
            assert(total_deg(s) == sum_of(s.drop_last(), deg_contrib()) + deg_contrib()(s.last()));
            assert(crate::quantize::seq_gcd(Seq::<QuantumHarmonic>::empty()) == 0);
            assert(crate::quantize::seq_gcd(s) == crate::quantize::gcd(0, 1));
            assert(crate::quantize::gcd(0, 1) == 1);
        }
        e
    }

    /// A deep copy of the current superposition.
    pub fn get_quantum_chessboard(&self) -> (r: QuantumChessboard)
        ensures
            r.harmonics@ == self.harmonics(),
    {
        let n = self.state.harmonics.len();
        let mut v: Vec<QuantumHarmonic> = Vec::new();
        let mut i: usize = 0;
        while i < n
            invariant
                n == self.state.harmonics@.len(),
                0 <= i <= n,
                v@ == self.state.harmonics@.take(i as int),
            decreases n - i,
        {
            v.push(self.state.harmonics[i]);
            proof {
                assert(v@ =~= self.state.harmonics@.take(i as int + 1));
            }
            i = i + 1;
        }
        proof {
            assert(self.state.harmonics@.take(n as int) =~= self.state.harmonics@);
        }
        QuantumChessboard { harmonics: v }
    }

    /// The summed degeneracy of the current superposition.
    pub fn total_degeneracy(&self) -> (r: u64)
        requires
            well_formed(self.harmonics()),
        ensures
            r as int == total_deg(self.harmonics()),
    {
        let ghost s = self.state.harmonics@;
        let n = self.state.harmonics.len();
        let mut total: u64 = 0;
        let mut i: usize = 0;
        proof {
            assert(s.take(0) =~= Seq::<QuantumHarmonic>::empty());
        }
        while i < n
            invariant
                well_formed(s),
                self.state.harmonics@ == s,
                n == s.len(),
                0 <= i <= n,
                total as int == total_deg(s.take(i as int)),
            decreases n - i,
        {
            proof {
                assert(forall|j: int| 0 <= j < s.len() ==> deg_contrib()(#[trigger] s[j]) >= 0);
                lemma_sum_take_step(s, deg_contrib(), i as int);
                lemma_sum_take_le(s, deg_contrib(), i as int + 1);
            }
            total = total + self.state.harmonics[i].degeneracy;
            i = i + 1;
        }
        proof {
            assert(s.take(n as int) =~= s);
        }
        total
    }
}

/// How a measured capture rewrites the superposition, for a given coin
/// outcome: on heads, only harmonics whose source square is occupied
/// survive and the move is played wherever it applies; on tails, only
/// harmonics whose source square is empty survive and nothing is played.
pub open spec fn capture_outcome(
    pre: Seq<QuantumHarmonic>,
    post: Seq<QuantumHarmonic>,
    mv: ChessMove,
    src_sq: Square,
    heads: bool,
) -> bool {
    let sx = mv.source_position.0 as int;
    let sy = mv.source_position.1 as int;
    if heads {
        ord_rewritten(pre.filter(keeps_occupancy(sx, sy, true)), post, mv, src_sq)
    } else {
        post == pre.filter(keeps_occupancy(sx, sy, false))
    }
}

impl QuantumChessEngine {
    /// Submits an ordinary move: validates it against the aggregate square
    /// information and rewrites the harmonics, without running the
    /// post-move pipeline. On rejection the state is untouched. A capture
    /// from a source that is occupied on only part of the superposition
    /// draws a coin: on heads the capture is played on the surviving
    /// harmonics, on tails the mover's piece is found absent and the
    /// attempt succeeds without a capture.
    pub fn submit_move(&mut self, mv: &ChessMove) -> (r: ChessMoveResult)
        requires
            well_formed(old(self).harmonics()),
            consistent(old(self).harmonics()),
            mv.coords_on_board(),
        ensures
            final(self).spec_player() == old(self).spec_player(),
            well_formed(final(self).harmonics()),
            at_most_two(final(self).harmonics()),
            total_deg(final(self).harmonics()) <= total_deg(old(self).harmonics()),
            r is Success <==> !ord_submit_fails(old(self).spec_player(), old(self).harmonics(), *mv),
            r is Failure ==> final(self).harmonics() == old(self).harmonics() && final(self).spec_coin() == old(self).spec_coin(),
            ({
                let pre = old(self).harmonics();
                let post = final(self).harmonics();
                let src_sq = aggregate_at(
                    pre,
                    mv.source_position.0 as int,
                    mv.source_position.1 as int,
                );
                let tgt_sq = aggregate_at(
                    pre,
                    mv.target_position.0 as int,
                    mv.target_position.1 as int,
                );
                r is Success ==> (if !tgt_sq.spec_is_occupied() || occ_deg(
                    pre,
                    mv.source_position.0 as int,
                    mv.source_position.1 as int,
                ) == total_deg(pre) {
                    ord_rewritten(pre, post, *mv, src_sq) && final(self).spec_coin() == old(self).spec_coin()
                } else {
                    exists|heads: bool|
                        #[trigger] capture_outcome(pre, post, *mv, src_sq, heads) && ((old(self).spec_coin() is Fixed || old(self).spec_coin() is Scripted) ==> heads
                            == old(self).spec_coin().spec_next())
                })
            }),
    {
        let ghost pre = self.harmonics();
        let (sx, sy) = mv.source_position;
        let (tx, ty) = mv.target_position;
        proof {
            crate::quantize::lemma_consistent_at_most_two(pre);
        }
        if self.player != mv.player {
            return ChessMoveResult::Failure(String::from_str("Invalid player!"));
        }
        let source = self.state.get_quantum_square_info(sx, sy);
        let target = self.state.get_quantum_square_info(tx, ty);
        proof {
            assert(forall|j: int|
                0 <= j < pre.len() ==> crate::quantize::occ_contrib(sx as int, sy as int)(
                    #[trigger] pre[j],
                ) >= 0);
            assert(forall|j: int|
                0 <= j < pre.len() ==> crate::quantize::occ_contrib(tx as int, ty as int)(
                    #[trigger] pre[j],
                ) >= 0);
            lemma_sum_nonneg(pre, crate::quantize::occ_contrib(sx as int, sy as int));
            lemma_sum_nonneg(pre, crate::quantize::occ_contrib(tx as int, ty as int));
            assert(source.square == aggregate_at(pre, sx as int, sy as int));
            assert(target.square == aggregate_at(pre, tx as int, ty as int));
        }
        if !source.square.is_occupied() {
            return ChessMoveResult::Failure(
                String::from_str("Source position of the move isn't occupied!"),
            );
        }
        if source.square.piece != mv.piece {
            return ChessMoveResult::Failure(String::from_str("Invalid piece!"));
        }
        if source.square.player != mv.player {
            return ChessMoveResult::Failure(
                String::from_str("Source position of the move is occupied by an enemy piece!"),
            );
        }
        if target.square.piece != mv.target_piece {
            return ChessMoveResult::Failure(String::from_str("Invalid target piece!"));
        }
        if !target.square.is_occupied() {
            let available = self.state.apply_on_matching(mv, source.square);
            proof {
                lemma_ord_rewritten_classes(pre, self.harmonics(), *mv, source.square);
                if !available {
                    assert(self.harmonics() =~= pre);
                }
            }
            if available {
                ChessMoveResult::Success
            } else {
                ChessMoveResult::Failure(
                    String::from_str(
                        "Move is unavailable on all harmonics of the quantum chessboard!",
                    ),
                )
            }
        } else if target.square.player != mv.player {
            if source.numerator == source.denominator {
                let available = self.state.apply_on_matching(mv, source.square);
                proof {
                    lemma_ord_rewritten_classes(pre, self.harmonics(), *mv, source.square);
                    if !available {
                        assert(self.harmonics() =~= pre);
                    }
                }
                if available {
                    ChessMoveResult::Success
                } else {
                    ChessMoveResult::Failure(
                        String::from_str(
                            "Capture is unavailable on all harmonics of the quantum chessboard!",
                        ),
                    )
                }
            } else {
                let available = self.state.any_applies(mv, source.square);
                if !available {
                    return ChessMoveResult::Failure(
                        String::from_str(
                            "Capture is unavailable on all harmonics of the quantum chessboard!",
                        ),
                    );
                }
                let heads = self.coin.flip(source.numerator, source.denominator);
                if heads {
                    self.state.retain_occupancy(sx, sy, true);
                    let ghost filtered = self.harmonics();
                    proof {
                        crate::quantize::lemma_filter_superpose(
                            pre,
                            keeps_occupancy(sx as int, sy as int, true),
                        );
                        crate::quantize::lemma_occ_member(pre, sx as int, sy as int);
                        let w = choose|i: int|
                            0 <= i < pre.len() && (#[trigger] pre[i]).board.at(
                                sx as int,
                                sy as int,
                            ).spec_is_occupied();
                        assert(keeps_occupancy(sx as int, sy as int, true)(pre[w]));
                        pre.lemma_filter_contains(keeps_occupancy(sx as int, sy as int, true), w);
                        assert(filtered.len() >= 1);
                    }
                    let _ = self.state.apply_on_matching(mv, source.square);
                    proof {
                        lemma_ord_rewritten_classes(
                            filtered,
                            self.harmonics(),
                            *mv,
                            source.square,
                        );
                        assert(capture_outcome(pre, self.harmonics(), *mv, source.square, true));
                    }
                    ChessMoveResult::Success
                } else {
                    self.state.retain_occupancy(sx, sy, false);
                    proof {
                        crate::quantize::lemma_filter_superpose(
                            pre,
                            keeps_occupancy(sx as int, sy as int, false),
                        );
                        assert(occ_deg(pre, sx as int, sy as int) < total_deg(pre));
                        crate::quantize::lemma_unocc_member(pre, sx as int, sy as int);
                        let w = choose|i: int|
                            0 <= i < pre.len() && !(#[trigger] pre[i]).board.at(
                                sx as int,
                                sy as int,
                            ).spec_is_occupied();
                        assert(keeps_occupancy(sx as int, sy as int, false)(pre[w]));
                        pre.lemma_filter_contains(keeps_occupancy(sx as int, sy as int, false), w);
                        assert(self.harmonics().len() >= 1);
                        crate::quantize::lemma_consistent_at_most_two(self.harmonics());
                        assert(capture_outcome(pre, self.harmonics(), *mv, source.square, false));
                    }
                    ChessMoveResult::Success
                }
            }
        } else {
            ChessMoveResult::Failure(
                String::from_str(
                    "Target position of the move is occupied by a friendly piece!",
                ),
            )
        }
    }
}

/// The first leg of a quantum move: source to middle, non-capturing.
pub open spec fn q_first(qmv: QuantumMove) -> ChessMove {
    ChessMove {
        player: qmv.player,
        source_position: qmv.source_position,
        target_position: qmv.middle_position,
        piece: qmv.piece,
        target_piece: Piece::EMPTY,
    }
}

/// The second leg of a quantum move: middle to target, non-capturing.
pub open spec fn q_second(qmv: QuantumMove) -> ChessMove {
    ChessMove {
        player: qmv.player,
        source_position: qmv.middle_position,
        target_position: qmv.target_position,
        piece: qmv.piece,
        target_piece: Piece::EMPTY,
    }
}

/// Whether the harmonic `h` admits the split of `qmv`: its source square
/// holds the aggregate source value, each non-trivial leg is allowed by
/// chess geometry on `h`'s board, and the middle square is unoccupied
/// unless one of the legs is trivial.
pub open spec fn q_adm(h: QuantumHarmonic, qmv: QuantumMove, src_sq: Square) -> bool {
    let first = q_first(qmv);
    let second = q_second(qmv);
    &&& h.board.at(qmv.source_position.0 as int, qmv.source_position.1 as int) == src_sq
    &&& (first.spec_is_trivial() || h.board.spec_allowed(first))
    &&& (second.spec_is_trivial() || h.board.spec_allowed(second))
    &&& (first.spec_is_trivial() || second.spec_is_trivial() || !h.board.at(
        qmv.middle_position.0 as int,
        qmv.middle_position.1 as int,
    ).spec_is_occupied())
}

/// The board of the "did move" branch: the non-trivial legs of `qmv`
/// played in order.
pub open spec fn q_moved_v(b: Seq<Square>, qmv: QuantumMove) -> Seq<Square> {
    if q_first(qmv).spec_is_trivial() {
        apply_v(b, q_second(qmv))
    } else if q_second(qmv).spec_is_trivial() {
        apply_v(b, q_first(qmv))
    } else {
        apply_v(apply_v(b, q_first(qmv)), q_second(qmv))
    }
}

/// Whether some harmonic of `s` admits the split of `qmv`.
pub open spec fn q_available(s: Seq<QuantumHarmonic>, qmv: QuantumMove, src_sq: Square) -> bool {
    exists|i: int| 0 <= i < s.len() && q_adm(#[trigger] s[i], qmv, src_sq)
}

/// How many of the first `i` harmonics of `s` admit the split of `qmv`.
pub open spec fn adm_count(s: Seq<QuantumHarmonic>, qmv: QuantumMove, src_sq: Square, i: int) -> int
    decreases i,
{
    if i <= 0 {
        0
    } else {
        adm_count(s, qmv, src_sq, i - 1) + (if q_adm(s[i - 1], qmv, src_sq) {
            1int
        } else {
            0int
        })
    }
}

/// `post` is `pre` with every admitting harmonic split into an unchanged
/// branch and a moved branch (same degeneracy each), and every other
/// harmonic kept with its degeneracy doubled, in order.
pub open spec fn q_rewritten(
    pre: Seq<QuantumHarmonic>,
    post: Seq<QuantumHarmonic>,
    qmv: QuantumMove,
    src_sq: Square,
) -> bool {
    &&& post.len() == pre.len() + adm_count(pre, qmv, src_sq, pre.len() as int)
    &&& forall|i: int|
        0 <= i < pre.len() ==> (if #[trigger] q_adm(pre[i], qmv, src_sq) {
            let p = i + adm_count(pre, qmv, src_sq, i);
            post[p] == pre[i] && post[p + 1].board@ == q_moved_v(pre[i].board@, qmv) && post[p
                + 1].degeneracy == pre[i].degeneracy
        } else {
            let p = i + adm_count(pre, qmv, src_sq, i);
            post[p].board == pre[i].board && post[p].degeneracy == 2 * pre[i].degeneracy
        })
}

/// Every harmonic of `post` descends from one of `pre`: unchanged, moved,
/// or kept with doubled degeneracy.
pub open spec fn q_covered(
    pre: Seq<QuantumHarmonic>,
    post: Seq<QuantumHarmonic>,
    qmv: QuantumMove,
    src_sq: Square,
) -> bool {
    forall|p: int|
        0 <= p < post.len() ==> exists|i: int|
            0 <= i < pre.len() && ((#[trigger] post[p]) == pre[i] || (post[p].board@ == q_moved_v(
                (#[trigger] pre[i]).board@,
                qmv,
            ) && post[p].degeneracy == pre[i].degeneracy) || (post[p].board == pre[i].board
                && post[p].degeneracy == 2 * pre[i].degeneracy))
}

/// The conditions under which a quantum move is rejected: wrong player,
/// empty or mismatched or enemy-held aggregate source, occupied aggregate
/// target, a trivial move, or no harmonic that admits the split.
pub open spec fn q_submit_fails(player: Player, s: Seq<QuantumHarmonic>, qmv: QuantumMove) -> bool {
    let src = aggregate_at(s, qmv.source_position.0 as int, qmv.source_position.1 as int);
    let tgt = aggregate_at(s, qmv.target_position.0 as int, qmv.target_position.1 as int);
    ||| player != qmv.player
    ||| !src.spec_is_occupied()
    ||| src.piece != qmv.piece
    ||| src.player != qmv.player
    ||| tgt.piece != Piece::EMPTY
    ||| qmv.source_position == qmv.target_position
    ||| !q_available(s, qmv, src)
}

/// Where each square of a moved branch ends up: the moved piece on the
/// target, emptiness on the source and on a middle crossed by two real
/// legs, and the old contents everywhere else.
proof fn lemma_q_moved_at(b: Seq<Square>, qmv: QuantumMove, x: int, y: int)
    requires
        b.len() == 64,
        qmv.coords_on_board(),
        on_board(x, y),
        qmv.source_position != qmv.target_position,
    ensures
        q_moved_v(b, qmv).len() == 64,
        q_moved_v(b, qmv)[y * 8 + x] == (if x == qmv.target_position.0 as int && y
            == qmv.target_position.1 as int {
            Square { player: qmv.player, piece: qmv.piece }
        } else if x == qmv.source_position.0 as int && y == qmv.source_position.1 as int {
            spec_empty_square()
        } else if !q_first(qmv).spec_is_trivial() && !q_second(qmv).spec_is_trivial() && x
            == qmv.middle_position.0 as int && y == qmv.middle_position.1 as int {
            spec_empty_square()
        } else {
            b[y * 8 + x]
        }),
{
    let sx = qmv.source_position.0 as int;
    let sy = qmv.source_position.1 as int;
    let mx = qmv.middle_position.0 as int;
    let my = qmv.middle_position.1 as int;
    let tx = qmv.target_position.0 as int;
    let ty = qmv.target_position.1 as int;
    assert(sx != tx || sy != ty);
}

/// Splitting harmonics under an aggregate-empty target keeps every square
/// showing at most one occupant value.
proof fn lemma_q_covered_consistent(
    pre: Seq<QuantumHarmonic>,
    post: Seq<QuantumHarmonic>,
    qmv: QuantumMove,
    src_sq: Square,
)
    requires
        consistent(pre),
        boards_wf(pre),
        positivity(pre),
        qmv.coords_on_board(),
        qmv.source_position != qmv.target_position,
        occ_deg(pre, qmv.target_position.0 as int, qmv.target_position.1 as int) == 0,
        q_covered(pre, post, qmv, src_sq),
    ensures
        consistent(post),
        boards_wf(post),
        positivity(post),
{
    let tx = qmv.target_position.0 as int;
    let ty = qmv.target_position.1 as int;
    let moved = Square { player: qmv.player, piece: qmv.piece };
    assert forall|j: int|
        0 <= j < post.len() implies (#[trigger] post[j]).board.wf() && post[j].degeneracy
        >= 1 by {
        let i = choose|i: int|
            0 <= i < pre.len() && ((post[j]) == pre[i] || (post[j].board@ == q_moved_v(
                (#[trigger] pre[i]).board@,
                qmv,
            ) && post[j].degeneracy == pre[i].degeneracy) || (post[j].board == pre[i].board
                && post[j].degeneracy == 2 * pre[i].degeneracy));
        if post[j].board@ == q_moved_v(pre[i].board@, qmv) && post[j].degeneracy
            == pre[i].degeneracy {
            lemma_q_moved_at(pre[i].board@, qmv, 0, 0);
        }
    }
    assert forall|x: int, y: int| on_board(x, y) implies consistent_at(post, x, y) by {
        assert forall|j: int|
            0 <= j < post.len() && (#[trigger] post[j]).board.at(x, y).spec_is_occupied() implies
            post[j].board.at(x, y) == moved || (exists|i: int|
                0 <= i < pre.len() && (#[trigger] pre[i]).board.at(x, y).spec_is_occupied()
                    && pre[i].board.at(x, y) == post[j].board.at(x, y)) by {
            let i = choose|i: int|
                0 <= i < pre.len() && ((post[j]) == pre[i] || (post[j].board@ == q_moved_v(
                    (#[trigger] pre[i]).board@,
                    qmv,
                ) && post[j].degeneracy == pre[i].degeneracy) || (post[j].board == pre[i].board
                    && post[j].degeneracy == 2 * pre[i].degeneracy));
            if post[j].board == pre[i].board || post[j] == pre[i] {
                assert(pre[i].board.at(x, y) == post[j].board.at(x, y));
            } else {
                lemma_q_moved_at(pre[i].board@, qmv, x, y);
                if x == tx && y == ty {
                    assert(post[j].board.at(x, y) == moved);
                } else if post[j].board.at(x, y).spec_is_occupied() {
                    assert(post[j].board.at(x, y) == pre[i].board.at(x, y));
                }
            }
        }
        assert forall|j1: int, j2: int|
            0 <= j1 < post.len() && 0 <= j2 < post.len() && (#[trigger] post[j1]).board.at(
                x,
                y,
            ).spec_is_occupied() && (#[trigger] post[j2]).board.at(x, y).spec_is_occupied() implies
            post[j1].board.at(x, y) == post[j2].board.at(x, y) by {
            if x == tx && y == ty {
                // No harmonic of `pre` occupies the target square.
                assert forall|i: int|
                    0 <= i < pre.len() implies !(#[trigger] pre[i]).board.at(
                    x,
                    y,
                ).spec_is_occupied() by {
                    if pre[i].board.at(x, y).spec_is_occupied() {
                        lemma_occ_positive(pre, x, y, i);
                    }
                }
                assert(post[j1].board.at(x, y) == moved);
                assert(post[j2].board.at(x, y) == moved);
            } else {
                assert(consistent_at(pre, x, y));
            }
        }
    }
}

/// A harmonic occupying `(x, y)` makes the occupied weight positive.
proof fn lemma_occ_positive(s: Seq<QuantumHarmonic>, x: int, y: int, i: int)
    requires
        0 <= i < s.len(),
        s[i].board.at(x, y).spec_is_occupied(),
        positivity(s),
    ensures
        occ_deg(s, x, y) > 0,
{
    assert(forall|j: int|
        0 <= j < s.len() ==> crate::quantize::occ_contrib(x, y)(#[trigger] s[j]) >= 0);
    lemma_sum_member_le(s, crate::quantize::occ_contrib(x, y), i);
    assert(crate::quantize::occ_contrib(x, y)(s[i]) == s[i].degeneracy as int);
}

/// The admissible-prefix count grows by at most one per harmonic.
proof fn lemma_adm_count_mono(
    s: Seq<QuantumHarmonic>,
    qmv: QuantumMove,
    src_sq: Square,
    a: int,
    b: int,
)
    requires
        0 <= a <= b,
    ensures
        adm_count(s, qmv, src_sq, a) <= adm_count(s, qmv, src_sq, b),
        adm_count(s, qmv, src_sq, b) <= adm_count(s, qmv, src_sq, a) + (b - a),
    decreases b - a,
{
    if a < b {
        lemma_adm_count_mono(s, qmv, src_sq, a, b - 1);
    }
}

/// The per-harmonic split mapping survives appending the next harmonic's
/// branches to the output.
proof fn lemma_q_prefix_extend(
    pre: Seq<QuantumHarmonic>,
    out0: Seq<QuantumHarmonic>,
    out1: Seq<QuantumHarmonic>,
    qmv: QuantumMove,
    src_sq: Square,
    i: int,
)
    requires
        0 <= i < pre.len(),
        out0.len() == i + adm_count(pre, qmv, src_sq, i),
        out1.len() == i + 1 + adm_count(pre, qmv, src_sq, i + 1),
        forall|p: int| 0 <= p < out0.len() ==> (#[trigger] out1[p]) == out0[p],
        forall|k: int|
            0 <= k < i ==> (if #[trigger] q_adm(pre[k], qmv, src_sq) {
                let p = k + adm_count(pre, qmv, src_sq, k);
                out0[p] == pre[k] && out0[p + 1].board@ == q_moved_v(pre[k].board@, qmv) && out0[p
                    + 1].degeneracy == pre[k].degeneracy
            } else {
                let p = k + adm_count(pre, qmv, src_sq, k);
                out0[p].board == pre[k].board && out0[p].degeneracy == 2 * pre[k].degeneracy
            }),
        (if q_adm(pre[i], qmv, src_sq) {
            let p = i + adm_count(pre, qmv, src_sq, i);
            out1[p] == pre[i] && out1[p + 1].board@ == q_moved_v(pre[i].board@, qmv) && out1[p
                + 1].degeneracy == pre[i].degeneracy
        } else {
            let p = i + adm_count(pre, qmv, src_sq, i);
            out1[p].board == pre[i].board && out1[p].degeneracy == 2 * pre[i].degeneracy
        }),
    ensures
        forall|k: int|
            0 <= k < i + 1 ==> (if #[trigger] q_adm(pre[k], qmv, src_sq) {
                let p = k + adm_count(pre, qmv, src_sq, k);
                out1[p] == pre[k] && out1[p + 1].board@ == q_moved_v(pre[k].board@, qmv) && out1[p
                    + 1].degeneracy == pre[k].degeneracy
            } else {
                let p = k + adm_count(pre, qmv, src_sq, k);
                out1[p].board == pre[k].board && out1[p].degeneracy == 2 * pre[k].degeneracy
            }),
{
    assert forall|k: int|
        0 <= k < i + 1 implies (if #[trigger] q_adm(pre[k], qmv, src_sq) {
        let p = k + adm_count(pre, qmv, src_sq, k);
        out1[p] == pre[k] && out1[p + 1].board@ == q_moved_v(pre[k].board@, qmv) && out1[p
            + 1].degeneracy == pre[k].degeneracy
    } else {
        let p = k + adm_count(pre, qmv, src_sq, k);
        out1[p].board == pre[k].board && out1[p].degeneracy == 2 * pre[k].degeneracy
    }) by {
        if k < i {
            let p = k + adm_count(pre, qmv, src_sq, k);
            lemma_adm_count_mono(pre, qmv, src_sq, 0, k);
            lemma_adm_count_mono(pre, qmv, src_sq, k + 1, i);
            assert(adm_count(pre, qmv, src_sq, k + 1) == adm_count(pre, qmv, src_sq, k) + (if
            q_adm(pre[k], qmv, src_sq) {
                1int
            } else {
                0int
            }));
            if q_adm(pre[k], qmv, src_sq) {
                assert(p + 1 < out0.len());
                assert(out1[p] == out0[p] && out1[p + 1] == out0[p + 1]);
            } else {
                assert(p < out0.len());
                assert(out1[p] == out0[p]);
            }
        }
    }
}

impl QuantumChessEngine {
    /// Submits a quantum move: validates it against the aggregate square
    /// information and splits every admitting harmonic into an unchanged
    /// branch and a moved branch, doubling the degeneracy of the others,
    /// without running the post-move pipeline. On rejection the state is
    /// untouched.
    #[verifier::rlimit(80)]
    pub fn submit_quantum_move(&mut self, qmv: &QuantumMove) -> (r: ChessMoveResult)
        requires
            well_formed(old(self).harmonics()),
            consistent(old(self).harmonics()),
            qmv.coords_on_board(),
            2 * total_deg(old(self).harmonics()) <= u64::MAX,
        ensures
            final(self).spec_player() == old(self).spec_player(),
            final(self).spec_coin() == old(self).spec_coin(),
            well_formed(final(self).harmonics()),
            consistent(final(self).harmonics()),
            total_deg(final(self).harmonics()) <= 2 * total_deg(old(self).harmonics()),
            r is Success <==> !q_submit_fails(old(self).spec_player(), old(self).harmonics(), *qmv),
            r is Failure ==> final(self).harmonics() == old(self).harmonics(),
            r is Success ==> q_rewritten(
                old(self).harmonics(),
                final(self).harmonics(),
                *qmv,
                aggregate_at(
                    old(self).harmonics(),
                    qmv.source_position.0 as int,
                    qmv.source_position.1 as int,
                ),
            ) && total_deg(final(self).harmonics()) == 2 * total_deg(old(self).harmonics()),
    {
        let ghost pre = self.harmonics();
        proof {
            assert(forall|j: int| 0 <= j < pre.len() ==> deg_contrib()(#[trigger] pre[j]) >= 0);
            lemma_sum_nonneg(pre, deg_contrib());
        }
        let (sx, sy) = qmv.source_position;
        let (mx, my) = qmv.middle_position;
        let (tx, ty) = qmv.target_position;
        if self.player != qmv.player {
            return ChessMoveResult::Failure(String::from_str("Invalid player!"));
        }
        let source = self.state.get_quantum_square_info(sx, sy);
        let target = self.state.get_quantum_square_info(tx, ty);
        proof {
            assert(forall|j: int|
                0 <= j < pre.len() ==> crate::quantize::occ_contrib(sx as int, sy as int)(
                    #[trigger] pre[j],
                ) >= 0);
            assert(forall|j: int|
                0 <= j < pre.len() ==> crate::quantize::occ_contrib(tx as int, ty as int)(
                    #[trigger] pre[j],
                ) >= 0);
            lemma_sum_nonneg(pre, crate::quantize::occ_contrib(sx as int, sy as int));
            lemma_sum_nonneg(pre, crate::quantize::occ_contrib(tx as int, ty as int));
            assert(source.square == aggregate_at(pre, sx as int, sy as int));
            assert(target.square == aggregate_at(pre, tx as int, ty as int));
        }
        if !source.square.is_occupied() {
            return ChessMoveResult::Failure(
                String::from_str("Source position of the move isn't occupied!"),
            );
        }
        if source.square.piece != qmv.piece {
            return ChessMoveResult::Failure(String::from_str("Invalid piece!"));
        }
        if source.square.player != qmv.player {
            return ChessMoveResult::Failure(
                String::from_str("Source position of the move is occupied by an enemy piece!"),
            );
        }
        if target.square.piece != Piece::EMPTY {
            return ChessMoveResult::Failure(String::from_str("Invalid target piece!"));
        }
        if sx == tx && sy == ty {
            return ChessMoveResult::Failure(
                String::from_str("Trivial quantum moves are forbidden by the rules of the game"),
            );
        }
        let first_move = ChessMove {
            player: qmv.player,
            source_position: qmv.source_position,
            target_position: qmv.middle_position,
            piece: qmv.piece,
            target_piece: Piece::EMPTY,
        };
        let second_move = ChessMove {
            player: qmv.player,
            source_position: qmv.middle_position,
            target_position: qmv.target_position,
            piece: qmv.piece,
            target_piece: Piece::EMPTY,
        };
        proof {
            assert(first_move == q_first(*qmv));
            assert(second_move == q_second(*qmv));
        }
        let ghost src_sq = source.square;
        let n = self.state.harmonics.len();
        let mut out: Vec<QuantumHarmonic> = Vec::new();
        let mut available = false;
        let mut i: usize = 0;
        proof {
            assert(pre.take(0) =~= Seq::<QuantumHarmonic>::empty());
        }
        while i < n
            invariant
                well_formed(pre),
                consistent(pre),
                qmv.coords_on_board(),
                qmv.piece != Piece::EMPTY,
                first_move == q_first(*qmv),
                second_move == q_second(*qmv),
                sx == qmv.source_position.0 && sy == qmv.source_position.1,
                mx == qmv.middle_position.0 && my == qmv.middle_position.1,
                tx == qmv.target_position.0 && ty == qmv.target_position.1,
                src_sq == aggregate_at(pre, sx as int, sy as int),
                source.square == src_sq,
                qmv.source_position != qmv.target_position,
                boards_wf(out@),
                positivity(out@),
                2 * total_deg(pre) <= u64::MAX,
                self.harmonics() == pre,
                n == pre.len(),
                0 <= i <= n,
                out@.len() == i + adm_count(pre, *qmv, src_sq, i as int),
                forall|k: int|
                    0 <= k < i ==> (if #[trigger] q_adm(pre[k], *qmv, src_sq) {
                        let p = k + adm_count(pre, *qmv, src_sq, k);
                        out@[p] == pre[k] && out@[p + 1].board@ == q_moved_v(pre[k].board@, *qmv)
                            && out@[p + 1].degeneracy == pre[k].degeneracy
                    } else {
                        let p = k + adm_count(pre, *qmv, src_sq, k);
                        out@[p].board == pre[k].board && out@[p].degeneracy == 2
                            * pre[k].degeneracy
                    }),
                q_covered(pre, out@, *qmv, src_sq),
                total_deg(out@) == 2 * total_deg(pre.take(i as int)),
                available == q_available(pre.take(i as int), *qmv, src_sq),
            decreases n - i,
        {
            let h = self.state.harmonics[i];
            let ghost out0 = out@;
            proof {
                assert(h == pre[i as int]);
                assert(h.board.wf());
                assert(forall|j: int|
                    0 <= j < pre.len() ==> deg_contrib()(#[trigger] pre[j]) >= 0);
                lemma_sum_take_step(pre, deg_contrib(), i as int);
                lemma_sum_take_le(pre, deg_contrib(), i as int + 1);
                lemma_sum_member_le(pre, deg_contrib(), i as int);
                assert(adm_count(pre, *qmv, src_sq, i as int + 1) == adm_count(
                    pre,
                    *qmv,
                    src_sq,
                    i as int,
                ) + (if q_adm(pre[i as int], *qmv, src_sq) {
                    1int
                } else {
                    0int
                }));
            }
            let first_trivial = first_move.is_trivial();
            let second_trivial = second_move.is_trivial();
            let admissible = h.board.get(sx, sy) == source.square && (first_trivial
                || h.board.allowed(&first_move)) && (second_trivial || h.board.allowed(
                &second_move,
            )) && (first_trivial || second_trivial || !h.board.get(mx, my).is_occupied());
            proof {
                assert(admissible == q_adm(pre[i as int], *qmv, src_sq));
            }
            if admissible {
                out.push(h);
                let mut moved_board = h.board;
                if !first_trivial {
                    moved_board.apply(&first_move);
                }
                if !second_trivial {
                    moved_board.apply(&second_move);
                }
                proof {
                    assert(moved_board@ == q_moved_v(h.board@, *qmv));
                }
                out.push(QuantumHarmonic { board: moved_board, degeneracy: h.degeneracy });
                available = true;
                proof {
                    crate::quantize::lemma_sum_push(out0, h, deg_contrib());
                    crate::quantize::lemma_sum_push(
                        out0.push(h),
                        QuantumHarmonic { board: moved_board, degeneracy: h.degeneracy },
                        deg_contrib(),
                    );
                    assert(q_available(pre.take(i as int + 1), *qmv, src_sq)) by {
                        assert(pre.take(i as int + 1)[i as int] == pre[i as int]);
                    }
                    lemma_q_prefix_extend(pre, out0, out@, *qmv, src_sq, i as int);
                }
            } else {
                out.push(QuantumHarmonic { board: h.board, degeneracy: 2 * h.degeneracy });
                proof {
                    crate::quantize::lemma_sum_push(
                        out0,
                        QuantumHarmonic {
                            board: h.board,
                            degeneracy: (2 * h.degeneracy) as u64,
                        },
                        deg_contrib(),
                    );
                    if q_available(pre.take(i as int + 1), *qmv, src_sq) {
                        let w = choose|w: int|
                            0 <= w < i + 1 && q_adm(
                                #[trigger] pre.take(i as int + 1)[w],
                                *qmv,
                                src_sq,
                            );
                        assert(pre.take(i as int)[w] == pre.take(i as int + 1)[w]);
                        assert(q_available(pre.take(i as int), *qmv, src_sq));
                    }
                    lemma_q_prefix_extend(pre, out0, out@, *qmv, src_sq, i as int);
                }
            }
            i = i + 1;
        }
        proof {
            assert(pre.take(n as int) =~= pre);
        }
        if available {
            self.state.harmonics = out;
            proof {
                lemma_adm_count_mono(pre, *qmv, src_sq, 0, n as int);
                assert(qmv.source_position != qmv.target_position);
                assert(occ_deg(pre, tx as int, ty as int) == 0);
                lemma_q_covered_consistent(pre, self.harmonics(), *qmv, src_sq);
            }
            ChessMoveResult::Success
        } else {
            ChessMoveResult::Failure(
                String::from_str(
                    "Quantum move is unavailable on all harmonics of the quantum chessboard!",
                ),
            )
        }
    }
}

impl QuantumChessEngine {
    /// Submits a move of either kind: dispatches to the ordinary or the
    /// quantum protocol, then unconditionally runs the post-move pipeline
    /// (measurement, regroup, degeneracy normalization). On a rejected
    /// move the pipeline finds the settled superposition unchanged and
    /// gives it back exactly; on an accepted move the state is the settled
    /// form of the rewritten harmonics.
    pub fn submit(&mut self, mv: &QuantumChessMove) -> (r: ChessMoveResult)
        requires
            old(self).inv(),
            (*mv matches QuantumChessMove::Ordinary(m) ==> m.coords_on_board()),
            (*mv matches QuantumChessMove::Quantum(q) ==> q.coords_on_board() && 2 * total_deg(
                old(self).harmonics(),
            ) <= u64::MAX),
        ensures
            final(self).inv(),
            positivity(final(self).harmonics()),
            normalized(final(self).harmonics()),
            sorted_desc(final(self).harmonics()),
            distinct_boards(final(self).harmonics()),
            consistent(final(self).harmonics()),
            final(self).spec_player() == old(self).spec_player(),
            r is Failure ==> final(self).harmonics() == old(self).harmonics(),
            (*mv matches QuantumChessMove::Ordinary(m) ==> (r is Success <==> !ord_submit_fails(
                old(self).spec_player(),
                old(self).harmonics(),
                m,
            ))),
            (*mv matches QuantumChessMove::Quantum(q) ==> (r is Success <==> !q_submit_fails(
                old(self).spec_player(),
                old(self).harmonics(),
                q,
            ))),
            (*mv matches QuantumChessMove::Ordinary(m) ==> (r is Success ==> ({
                let pre = old(self).harmonics();
                let src_sq = aggregate_at(
                    pre,
                    m.source_position.0 as int,
                    m.source_position.1 as int,
                );
                let tgt_sq = aggregate_at(
                    pre,
                    m.target_position.0 as int,
                    m.target_position.1 as int,
                );
                exists|mid: Seq<QuantumHarmonic>|
                    #[trigger] pipeline_shape(mid, final(self).harmonics()) && (if
                    !tgt_sq.spec_is_occupied() || occ_deg(
                        pre,
                        m.source_position.0 as int,
                        m.source_position.1 as int,
                    ) == total_deg(pre) {
                        ord_rewritten(pre, mid, m, src_sq)
                    } else {
                        exists|heads: bool| #[trigger] capture_outcome(pre, mid, m, src_sq, heads)
                    })
            }))),
            (*mv matches QuantumChessMove::Quantum(q) ==> (r is Success ==> ({
                let pre = old(self).harmonics();
                let src_sq = aggregate_at(
                    pre,
                    q.source_position.0 as int,
                    q.source_position.1 as int,
                );
                exists|mid: Seq<QuantumHarmonic>|
                    #[trigger] pipeline_shape(mid, final(self).harmonics()) && q_rewritten(
                        pre,
                        mid,
                        q,
                        src_sq,
                    ) && consistent(mid) && total_deg(mid) == 2 * total_deg(pre)
            }))),
    {
        let ghost pre = self.harmonics();
        let res = match mv {
            QuantumChessMove::Ordinary(ref omv) => self.submit_move(omv),
            QuantumChessMove::Quantum(ref qmv) => self.submit_quantum_move(qmv),
        };
        let ghost mid = self.harmonics();
        proof {
            if *mv matches QuantumChessMove::Quantum(q) {
                lemma_consistent_at_most_two(mid);
            }
        }
        self.state.perform_measurements(&mut self.coin);
        let ghost measured = self.harmonics();
        self.state.regroup();
        let ghost grouped = self.harmonics();
        self.state.normalize_degeneracy();
        let ghost post = self.harmonics();
        proof {
            let keep = choose|keep: spec_fn(QuantumHarmonic) -> bool|
                measured == #[trigger] mid.filter(keep);
            let g = choose|g: int|
                g >= 1 && #[trigger] weights_divided_by(grouped, post, g);
            assert(weights_divided_by(measured, post, g)) by {
                assert forall|b: Seq<Square>|
                    weight(measured, b) == g * #[trigger] weight(post, b) by {
                    assert(weight(grouped, b) == weight(measured, b));
                    assert(weight(grouped, b) == g * weight(post, b));
                }
            }
            assert(pipeline_shape(mid, post));
            // Consistency of the final state: regrouping and normalization
            // only rearrange and rescale boards that the measured,
            // consistent superposition already holds.
            lemma_consistent_boards_members(grouped, measured);
            lemma_consistent_boards_members(post, grouped);
            if res is Failure {
                assert(mid == pre);
                assert(settled(pre));
                lemma_pipeline_idempotent(pre, post);
                assert(post =~= pre);
            }
        }
        res
    }
}

/// Law: an ordinary move played on a superposition of a single harmonic
/// settles to a single harmonic of degeneracy one, holding the rewritten
/// board.
pub proof fn lemma_single_harmonic_move(
    pre: Seq<QuantumHarmonic>,
    mid: Seq<QuantumHarmonic>,
    post: Seq<QuantumHarmonic>,
    mv: ChessMove,
    src_sq: Square,
)
    requires
        pre.len() == 1,
        positivity(pre),
        boards_wf(pre),
        ord_rewritten(pre, mid, mv, src_sq),
        pipeline_shape(mid, post),
    ensures
        post.len() == 1,
        post[0].degeneracy == 1,
        post[0].board@ == mid[0].board@,
{
    assert(mid.len() == 1);
    assert(mid[0].degeneracy == pre[0].degeneracy >= 1);
    assert(consistent(mid));
    let (keep, g): (spec_fn(QuantumHarmonic) -> bool, int) = choose|
        keep: spec_fn(QuantumHarmonic) -> bool,
        g: int,
    |
        consistent(mid.filter(keep)) && (consistent(mid) ==> mid.filter(keep) == mid) && g >= 1
            && #[trigger] weights_divided_by(mid.filter(keep), post, g);
    assert(mid.filter(keep) == mid);
    let b0 = mid[0].board@;
    assert(distinct_boards(mid));
    crate::quantize::lemma_weight_distinct(mid, 0);
    assert(weight(mid, b0) == mid[0].degeneracy as int);
    assert(weight(mid, b0) == g * weight(post, b0));
    crate::quantize::lemma_weight_nonneg(post, b0);
    assert(weight(post, b0) >= 1) by (nonlinear_arith)
        requires
            g >= 1,
            weight(post, b0) >= 0,
            g * weight(post, b0) >= 1,
    ;
    crate::quantize::lemma_weight_member(post, b0);
    // No other board can appear in the settled state.
    assert forall|j: int| 0 <= j < post.len() implies (#[trigger] post[j]).board@ == b0 by {
        if post[j].board@ != b0 {
            crate::quantize::lemma_weight_distinct(post, j);
            crate::quantize::lemma_weight_absent(mid, post[j].board@);
            assert(0 == g * weight(post, post[j].board@));
            assert(g * weight(post, post[j].board@) >= g) by (nonlinear_arith)
                requires
                    g >= 1,
                    weight(post, post[j].board@) >= 1,
            ;
        }
    }
    assert(post.len() >= 1);
    if post.len() >= 2 {
        assert(post[0].board@ == b0 && post[1].board@ == b0);
        assert(false);
    }
    // The sole degeneracy has gcd one with zero, so it is one.
    assert(crate::quantize::seq_gcd(post) == crate::quantize::gcd(
        crate::quantize::seq_gcd(post.drop_last()),
        post.last().degeneracy as nat,
    ));
    assert(post.drop_last() =~= Seq::<QuantumHarmonic>::empty());
    assert(crate::quantize::seq_gcd(Seq::<QuantumHarmonic>::empty()) == 0);
    assert(crate::quantize::gcd(0, post.last().degeneracy as nat) == post.last().degeneracy as nat);
    assert(post[0].degeneracy == 1);
}

/// Law: a quantum move on a superposition of a single admitting harmonic
/// settles to exactly two harmonics, each of degeneracy one: the unmoved
/// board and the moved board.
pub proof fn lemma_quantum_split_pair(
    pre: Seq<QuantumHarmonic>,
    mid: Seq<QuantumHarmonic>,
    post: Seq<QuantumHarmonic>,
    qmv: QuantumMove,
    src_sq: Square,
)
    requires
        pre.len() == 1,
        positivity(pre),
        boards_wf(pre),
        qmv.coords_on_board(),
        qmv.source_position != qmv.target_position,
        occ_deg(pre, qmv.target_position.0 as int, qmv.target_position.1 as int) == 0,
        q_adm(pre[0], qmv, src_sq),
        q_rewritten(pre, mid, qmv, src_sq),
        consistent(mid),
        pipeline_shape(mid, post),
    ensures
        post.len() == 2,
        post[0].degeneracy == 1,
        post[1].degeneracy == 1,
        weight(post, pre[0].board@) == 1,
        weight(post, q_moved_v(pre[0].board@, qmv)) == 1,
{
    let b0 = pre[0].board@;
    let bm = q_moved_v(b0, qmv);
    assert(adm_count(pre, qmv, src_sq, 1) == 1);
    assert(mid.len() == 2);
    assert(mid[0] == pre[0]);
    assert(mid[1].board@ == bm && mid[1].degeneracy == pre[0].degeneracy);
    // The moved board differs from the unmoved one at the target square.
    let tx = qmv.target_position.0 as int;
    let ty = qmv.target_position.1 as int;
    lemma_q_moved_at(b0, qmv, tx, ty);
    assert(bm[ty * 8 + tx] == (Square { player: qmv.player, piece: qmv.piece }));
    assert(!pre[0].board.at(tx, ty).spec_is_occupied()) by {
        if pre[0].board.at(tx, ty).spec_is_occupied() {
            lemma_occ_positive(pre, tx, ty, 0);
        }
    }
    assert(qmv.piece != Piece::EMPTY) by {
        assert(q_first(qmv).spec_is_trivial() || pre[0].board.spec_allowed(q_first(qmv)));
        assert(q_second(qmv).spec_is_trivial() || pre[0].board.spec_allowed(q_second(qmv)));
        if qmv.piece == Piece::EMPTY {
            assert(!(q_first(qmv).spec_is_trivial() && q_second(qmv).spec_is_trivial()));
        }
    }
    assert(b0 != bm) by {
        assert(b0[ty * 8 + tx] == pre[0].board.at(tx, ty));
        assert(!b0[ty * 8 + tx].spec_is_occupied());
        assert(bm[ty * 8 + tx].spec_is_occupied());
    }
    assert(distinct_boards(mid)) by {
        assert(mid[0].board@ == b0);
    }
    let (keep, g): (spec_fn(QuantumHarmonic) -> bool, int) = choose|
        keep: spec_fn(QuantumHarmonic) -> bool,
        g: int,
    |
        consistent(mid.filter(keep)) && (consistent(mid) ==> mid.filter(keep) == mid) && g >= 1
            && #[trigger] weights_divided_by(mid.filter(keep), post, g);
    assert(mid.filter(keep) == mid);
    crate::quantize::lemma_weight_distinct(mid, 0);
    crate::quantize::lemma_weight_distinct(mid, 1);
    assert(weight(mid, b0) == pre[0].degeneracy as int);
    assert(weight(mid, bm) == pre[0].degeneracy as int);
    crate::quantize::lemma_weight_nonneg(post, b0);
    crate::quantize::lemma_weight_nonneg(post, bm);
    assert(weight(mid, b0) == g * weight(post, b0));
    assert(weight(mid, bm) == g * weight(post, bm));
    let w = weight(post, b0);
    assert(w >= 1) by (nonlinear_arith)
        requires
            g >= 1,
            w >= 0,
            g * w >= 1,
    ;
    assert(weight(post, bm) == w) by (nonlinear_arith)
        requires
            g * weight(post, bm) == g * w,
            g >= 1,
    ;
    // Only those two boards appear in the settled state.
    assert forall|j: int|
        0 <= j < post.len() implies (#[trigger] post[j]).board@ == b0 || post[j].board@ == bm by {
        if post[j].board@ != b0 && post[j].board@ != bm {
            crate::quantize::lemma_weight_distinct(post, j);
            crate::quantize::lemma_weight_absent(mid, post[j].board@);
            assert(0 == g * weight(post, post[j].board@));
            assert(g * weight(post, post[j].board@) >= g) by (nonlinear_arith)
                requires
                    g >= 1,
                    weight(post, post[j].board@) >= 1,
            ;
        }
    }
    crate::quantize::lemma_weight_member(post, b0);
    crate::quantize::lemma_weight_member(post, bm);
    let j0 = choose|j: int| 0 <= j < post.len() && (#[trigger] post[j]).board@ == b0;
    let j1 = choose|j: int| 0 <= j < post.len() && (#[trigger] post[j]).board@ == bm;
    assert(j0 != j1);
    assert(post.len() >= 2);
    if post.len() >= 3 {
        let a = 0int;
        let b = 1int;
        let c = 2int;
        assert(post[a].board@ != post[b].board@ && post[a].board@ != post[c].board@
            && post[b].board@ != post[c].board@);
        assert(false);
    }
    assert(post.len() == 2);
    crate::quantize::lemma_weight_distinct(post, j0);
    crate::quantize::lemma_weight_distinct(post, j1);
    assert(post[j0].degeneracy as int == w && post[j1].degeneracy as int == w);
    assert(post[0].degeneracy as int == w && post[1].degeneracy as int == w);
    // Normalization leaves gcd one, and both degeneracies are equal.
    assert(crate::quantize::seq_gcd(post) == crate::quantize::gcd(
        crate::quantize::seq_gcd(post.drop_last()),
        post.last().degeneracy as nat,
    ));
    assert(post.drop_last().drop_last() =~= Seq::<QuantumHarmonic>::empty());
    assert(crate::quantize::seq_gcd(Seq::<QuantumHarmonic>::empty()) == 0);
    assert(post.drop_last().len() == 1);
    assert(crate::quantize::seq_gcd(post.drop_last()) == crate::quantize::gcd(
        crate::quantize::seq_gcd(post.drop_last().drop_last()),
        post.drop_last().last().degeneracy as nat,
    ));
    assert(crate::quantize::seq_gcd(post.drop_last()) == crate::quantize::gcd(
        0,
        post.drop_last().last().degeneracy as nat,
    ));
    assert(post.drop_last().last() == post[0]);
    assert(post.last() == post[1]);
    assert(crate::quantize::gcd(0, w as nat) == w as nat);
    lemma_gcd_self(w as nat);
    assert(w == 1);
}

/// The gcd of a positive number with itself is itself.
proof fn lemma_gcd_self(w: nat)
    requires
        w >= 1,
    ensures
        crate::quantize::gcd(w, w) == w,
{
    assert(w % w == 0) by (nonlinear_arith)
        requires
            w >= 1,
    ;
    assert(crate::quantize::gcd(w, w) == crate::quantize::gcd((w % w) as nat, w));
    assert(crate::quantize::gcd(0, w) == w);
}

impl QuantumChessboard {
    /// Whether some harmonic lets `mv` apply from the aggregate source
    /// square `src_sq`.
    fn any_applies(&self, mv: &ChessMove, src_sq: Square) -> (r: bool)
        requires
            boards_wf(self.harmonics@),
            mv.coords_on_board(),
            mv.piece != Piece::EMPTY,
        ensures
            r == ord_available(self.harmonics@, *mv, src_sq),
    {
        let ghost s = self.harmonics@;
        let n = self.harmonics.len();
        let mut i: usize = 0;
        while i < n
            invariant
                boards_wf(s),
                mv.coords_on_board(),
                mv.piece != Piece::EMPTY,
                self.harmonics@ == s,
                n == s.len(),
                0 <= i <= n,
                forall|k: int| 0 <= k < i ==> !ord_applies(#[trigger] s[k], *mv, src_sq),
            decreases n - i,
        {
            let h = &self.harmonics[i];
            let (sx, sy) = mv.source_position;
            if h.board.get(sx, sy) == src_sq && h.board.allowed(mv) {
                proof {
                    assert(ord_applies(s[i as int], *mv, src_sq));
                }
                return true;
            }
            i = i + 1;
        }
        false
    }

    /// Plays `mv` in place on every harmonic where it applies from the
    /// aggregate source square `src_sq`; reports whether any did.
    fn apply_on_matching(&mut self, mv: &ChessMove, src_sq: Square) -> (avail: bool)
        requires
            boards_wf(old(self).harmonics@),
            mv.coords_on_board(),
            mv.piece != Piece::EMPTY,
        ensures
            ord_rewritten(old(self).harmonics@, final(self).harmonics@, *mv, src_sq),
            avail == ord_available(old(self).harmonics@, *mv, src_sq),
    {
        let ghost pre = self.harmonics@;
        let n = self.harmonics.len();
        let mut available = false;
        let mut i: usize = 0;
        while i < n
            invariant
                boards_wf(pre),
                mv.coords_on_board(),
                mv.piece != Piece::EMPTY,
                n == pre.len(),
                self.harmonics@.len() == n,
                0 <= i <= n,
                forall|k: int| i <= k < n ==> #[trigger] self.harmonics@[k] == pre[k],
                forall|k: int|
                    0 <= k < i ==> (#[trigger] self.harmonics@[k]).degeneracy == pre[k].degeneracy
                        && (if ord_applies(pre[k], *mv, src_sq) {
                        self.harmonics@[k].board@ == apply_v(pre[k].board@, *mv)
                    } else {
                        self.harmonics@[k] == pre[k]
                    }),
                available == ord_available(pre.take(i as int), *mv, src_sq),
            decreases n - i,
        {
            let h = self.harmonics[i];
            let (sx, sy) = mv.source_position;
            let ghost snap = self.harmonics@;
            if h.board.get(sx, sy) == src_sq && h.board.allowed(mv) {
                let mut b = h.board;
                b.apply(mv);
                self.harmonics[i] = QuantumHarmonic { board: b, degeneracy: h.degeneracy };
                proof {
                    assert(ord_applies(pre[i as int], *mv, src_sq));
                    assert(ord_available(pre.take(i as int + 1), *mv, src_sq)) by {
                        assert(pre.take(i as int + 1)[i as int] == pre[i as int]);
                    }
                }
                available = true;
            } else {
                proof {
                    assert(!ord_applies(pre[i as int], *mv, src_sq));
                    if ord_available(pre.take(i as int + 1), *mv, src_sq) {
                        let w = choose|w: int|
                            0 <= w < i + 1 && ord_applies(
                                #[trigger] pre.take(i as int + 1)[w],
                                *mv,
                                src_sq,
                            );
                        assert(pre.take(i as int)[w] == pre.take(i as int + 1)[w]);
                        assert(ord_available(pre.take(i as int), *mv, src_sq));
                    }
                }
            }
            i = i + 1;
        }
        proof {
            assert(pre.take(n as int) =~= pre);
        }
        available
    }
}

} // verus!

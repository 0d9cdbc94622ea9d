//! The quantum chessboard: a weighted bag of classical boards (harmonics)
//! with integer degeneracies, per-square aggregation, measurement,
//! regrouping and degeneracy normalization.
use vstd::prelude::*;

use crate::chess::{
    board_lt, empty_square, lemma_board_lt_asym, lemma_board_lt_connected, lemma_board_lt_trans,
    on_board, spec_empty_square, Chessboard, Square,
};
use crate::rng::CoinSource;

verus! {

/// One classical configuration present in the superposition, together
/// with a positive integer weight (its degeneracy).
#[derive(Copy, Clone)]
pub struct QuantumHarmonic {
    pub board: Chessboard,
    pub degeneracy: u64,
}

/// A superposition of harmonics: the quantum chessboard.
#[derive(Clone)]
pub struct QuantumChessboard {
    pub harmonics: Vec<QuantumHarmonic>,
}

/// The aggregate view of one square across the superposition: the unique
/// piece that may occupy it, and the probability of occupation as the
/// exact rational `numerator / denominator`.
pub struct QuantumSquareInfo {
    pub square: Square,
    pub numerator: u64,
    pub denominator: u64,
}

/// The sum of `f` over the harmonics of `s`.
pub open spec fn sum_of(s: Seq<QuantumHarmonic>, f: spec_fn(QuantumHarmonic) -> int) -> int
    decreases s.len(),
{
    if s.len() == 0 {
        0
    } else {
        sum_of(s.drop_last(), f) + f(s.last())
    }
}

/// The degeneracy of `h`, as a contribution function.
pub open spec fn deg_contrib() -> spec_fn(QuantumHarmonic) -> int {
    |h: QuantumHarmonic| h.degeneracy as int
}

/// The degeneracy of `h` if its board occupies `(x, y)`, else zero.
pub open spec fn occ_contrib(x: int, y: int) -> spec_fn(QuantumHarmonic) -> int {
    |h: QuantumHarmonic|
        if h.board.at(x, y).spec_is_occupied() {
            h.degeneracy as int
        } else {
            0
        }
}

/// The degeneracy of `h` if its board equals `b`, else zero.
pub open spec fn board_contrib(b: Seq<Square>) -> spec_fn(QuantumHarmonic) -> int {
    |h: QuantumHarmonic|
        if h.board@ == b {
            h.degeneracy as int
        } else {
            0
        }
}

/// The total degeneracy of the superposition.
pub open spec fn total_deg(s: Seq<QuantumHarmonic>) -> int {
    sum_of(s, deg_contrib())
}

/// The summed degeneracy of the harmonics whose board occupies `(x, y)`.
pub open spec fn occ_deg(s: Seq<QuantumHarmonic>, x: int, y: int) -> int {
    sum_of(s, occ_contrib(x, y))
}

/// The summed degeneracy of the harmonics whose board equals `b`.
pub open spec fn weight(s: Seq<QuantumHarmonic>, b: Seq<Square>) -> int {
    sum_of(s, board_contrib(b))
}

/// Keeps the harmonics whose square `(x, y)` is not exactly `sq`.
pub open spec fn keeps_square_ne(x: int, y: int, sq: Square) -> spec_fn(QuantumHarmonic) -> bool {
    |h: QuantumHarmonic| h.board.at(x, y) != sq
}

/// Keeps the harmonics whose square `(x, y)` occupancy matches `keep`.
pub open spec fn keeps_occupancy(x: int, y: int, keep: bool) -> spec_fn(QuantumHarmonic) -> bool {
    |h: QuantumHarmonic| h.board.at(x, y).spec_is_occupied() == keep
}

/// Every harmonic has a real 64-square board.
pub open spec fn boards_wf(s: Seq<QuantumHarmonic>) -> bool {
    forall|i: int| 0 <= i < s.len() ==> (#[trigger] s[i]).board.wf()
}

/// Every harmonic has positive degeneracy.
pub open spec fn positivity(s: Seq<QuantumHarmonic>) -> bool {
    forall|i: int| 0 <= i < s.len() ==> (#[trigger] s[i]).degeneracy >= 1
}

/// A well-formed superposition: non-empty, real boards, positive
/// degeneracies, and a total degeneracy a machine word can hold.
pub open spec fn well_formed(s: Seq<QuantumHarmonic>) -> bool {
    &&& s.len() >= 1
    &&& boards_wf(s)
    &&& positivity(s)
    &&& total_deg(s) <= u64::MAX
}

/// No two harmonics of `s` that occupy `(x, y)` disagree on its contents.
pub open spec fn consistent_at(s: Seq<QuantumHarmonic>, x: int, y: int) -> bool {
    forall|i: int, j: int|
        0 <= i < s.len() && 0 <= j < s.len() && (#[trigger] s[i]).board.at(x, y).spec_is_occupied()
            && (#[trigger] s[j]).board.at(x, y).spec_is_occupied() ==> s[i].board.at(x, y)
            == s[j].board.at(x, y)
}

/// Every square shows at most one occupant value across the superposition.
pub open spec fn consistent(s: Seq<QuantumHarmonic>) -> bool {
    forall|x: int, y: int| on_board(x, y) ==> consistent_at(s, x, y)
}

/// At most two distinct occupant values show at `(x, y)` across `s`.
pub open spec fn at_most_two_at(s: Seq<QuantumHarmonic>, x: int, y: int) -> bool {
    forall|i: int, j: int, k: int|
        0 <= i < s.len() && 0 <= j < s.len() && 0 <= k < s.len() && (#[trigger] s[i]).board.at(
            x,
            y,
        ).spec_is_occupied() && (#[trigger] s[j]).board.at(x, y).spec_is_occupied() && (
        #[trigger] s[k]).board.at(x, y).spec_is_occupied() ==> s[i].board.at(x, y) == s[j].board.at(
            x,
            y,
        ) || s[i].board.at(x, y) == s[k].board.at(x, y) || s[j].board.at(x, y) == s[k].board.at(
            x,
            y,
        )
}

/// Every square shows at most two occupant values across the superposition.
pub open spec fn at_most_two(s: Seq<QuantumHarmonic>) -> bool {
    forall|x: int, y: int| on_board(x, y) ==> at_most_two_at(s, x, y)
}

/// No two harmonics hold equal boards.
pub open spec fn distinct_boards(s: Seq<QuantumHarmonic>) -> bool {
    forall|i: int, j: int|
        0 <= i < j < s.len() ==> (#[trigger] s[i]).board@ != (#[trigger] s[j]).board@
}

/// The occupant of `(x, y)` in some harmonic that occupies it.
pub open spec fn occupant(s: Seq<QuantumHarmonic>, x: int, y: int) -> Square {
    let i = choose|i: int| 0 <= i < s.len() && s[i].board.at(x, y).spec_is_occupied();
    s[i].board.at(x, y)
}

/// The aggregate contents of `(x, y)`: the unique occupant, or the empty
/// square when no harmonic occupies it.
pub open spec fn aggregate_at(s: Seq<QuantumHarmonic>, x: int, y: int) -> Square {
    if occ_deg(s, x, y) > 0 {
        occupant(s, x, y)
    } else {
        spec_empty_square()
    }
}

// ------------------------------------------------------------------
// Sum lemmas
// ------------------------------------------------------------------
/// Extending a prefix sum by one element adds that element's contribution.
pub proof fn lemma_sum_take_step(
    s: Seq<QuantumHarmonic>,
    f: spec_fn(QuantumHarmonic) -> int,
    i: int,
)
    requires
        0 <= i < s.len(),
    ensures
        sum_of(s.take(i + 1), f) == sum_of(s.take(i), f) + f(s[i]),
{
    assert(s.take(i + 1).drop_last() =~= s.take(i));
    assert(s.take(i + 1).last() == s[i]);
}

/// The whole sequence is its own full prefix.
pub proof fn lemma_sum_take_all(s: Seq<QuantumHarmonic>, f: spec_fn(QuantumHarmonic) -> int)
    ensures
        sum_of(s.take(s.len() as int), f) == sum_of(s, f),
{
    assert(s.take(s.len() as int) =~= s);
}

/// A sum of pointwise non-negative contributions is non-negative.
pub proof fn lemma_sum_nonneg(s: Seq<QuantumHarmonic>, f: spec_fn(QuantumHarmonic) -> int)
    requires
        forall|i: int| 0 <= i < s.len() ==> f(#[trigger] s[i]) >= 0,
    ensures
        sum_of(s, f) >= 0,
    decreases s.len(),
{
    if s.len() > 0 {
        lemma_sum_nonneg(s.drop_last(), f);
    }
}

/// Pointwise smaller contributions give a smaller sum.
pub proof fn lemma_sum_le(
    s: Seq<QuantumHarmonic>,
    f: spec_fn(QuantumHarmonic) -> int,
    g: spec_fn(QuantumHarmonic) -> int,
)
    requires
        forall|i: int| 0 <= i < s.len() ==> f(#[trigger] s[i]) <= g(s[i]),
    ensures
        sum_of(s, f) <= sum_of(s, g),
    decreases s.len(),
{
    if s.len() > 0 {
        lemma_sum_le(s.drop_last(), f, g);
    }
}

/// A prefix of a sum of non-negative contributions is at most the whole.
pub proof fn lemma_sum_take_le(
    s: Seq<QuantumHarmonic>,
    f: spec_fn(QuantumHarmonic) -> int,
    i: int,
)
    requires
        0 <= i <= s.len(),
        forall|j: int| 0 <= j < s.len() ==> f(#[trigger] s[j]) >= 0,
    ensures
        sum_of(s.take(i), f) <= sum_of(s, f),
    decreases s.len() - i,
{
    if i < s.len() {
        lemma_sum_take_step(s, f, i);
        lemma_sum_take_le(s, f, i + 1);
    } else {
        lemma_sum_take_all(s, f);
    }
}

/// One element's non-negative contribution is at most the whole sum.
pub proof fn lemma_sum_member_le(
    s: Seq<QuantumHarmonic>,
    f: spec_fn(QuantumHarmonic) -> int,
    i: int,
)
    requires
        0 <= i < s.len(),
        forall|j: int| 0 <= j < s.len() ==> f(#[trigger] s[j]) >= 0,
    ensures
        f(s[i]) <= sum_of(s, f),
    decreases s.len(),
{
    if i == s.len() - 1 {
        lemma_sum_nonneg(s.drop_last(), f);
    } else {
        lemma_sum_member_le(s.drop_last(), f, i);
    }
}

/// Summing over a concatenation adds the two sums.
pub proof fn lemma_sum_concat(
    a: Seq<QuantumHarmonic>,
    b: Seq<QuantumHarmonic>,
    f: spec_fn(QuantumHarmonic) -> int,
)
    ensures
        sum_of(a + b, f) == sum_of(a, f) + sum_of(b, f),
    decreases b.len(),
{
    if b.len() == 0 {
        assert(a + b =~= a);
    } else {
        assert((a + b).drop_last() =~= a + b.drop_last());
        assert((a + b).last() == b.last());
        lemma_sum_concat(a, b.drop_last(), f);
    }
}

/// Appending one element adds its contribution.
pub proof fn lemma_sum_push(
    s: Seq<QuantumHarmonic>,
    h: QuantumHarmonic,
    f: spec_fn(QuantumHarmonic) -> int,
)
    ensures
        sum_of(s.push(h), f) == sum_of(s, f) + f(h),
{
    assert(s.push(h).drop_last() =~= s);
    assert(s.push(h).last() == h);
}

/// Inserting one element adds its contribution.
pub proof fn lemma_sum_insert(
    s: Seq<QuantumHarmonic>,
    i: int,
    h: QuantumHarmonic,
    f: spec_fn(QuantumHarmonic) -> int,
)
    requires
        0 <= i <= s.len(),
    ensures
        sum_of(s.insert(i, h), f) == sum_of(s, f) + f(h),
    decreases s.len() - i,
{
    if i == s.len() {
        assert(s.insert(i, h) =~= s.push(h));
        lemma_sum_push(s, h, f);
    } else {
        assert(s.insert(i, h).drop_last() =~= s.drop_last().insert(i, h));
        assert(s.insert(i, h).last() == s.last());
        lemma_sum_insert(s.drop_last(), i, h, f);
    }
}

/// Replacing one element trades its contribution for the new one's.
pub proof fn lemma_sum_update(
    s: Seq<QuantumHarmonic>,
    i: int,
    h: QuantumHarmonic,
    f: spec_fn(QuantumHarmonic) -> int,
)
    requires
        0 <= i < s.len(),
    ensures
        sum_of(s.update(i, h), f) == sum_of(s, f) - f(s[i]) + f(h),
    decreases s.len(),
{
    if i == s.len() - 1 {
        assert(s.update(i, h).drop_last() =~= s.drop_last());
        assert(s.update(i, h).last() == h);
    } else {
        assert(s.update(i, h).drop_last() =~= s.drop_last().update(i, h));
        assert(s.update(i, h).last() == s.last());
        lemma_sum_update(s.drop_last(), i, h, f);
    }
}

/// A positive board weight names a harmonic holding that board.
pub proof fn lemma_weight_member(s: Seq<QuantumHarmonic>, b: Seq<Square>)
    requires
        weight(s, b) > 0,
    ensures
        exists|i: int| 0 <= i < s.len() && (#[trigger] s[i]).board@ == b,
    decreases s.len(),
{
    if s.len() > 0 {
        if s.last().board@ == b {
            assert(s[s.len() - 1].board@ == b);
        } else {
            lemma_weight_member(s.drop_last(), b);
            let i = choose|i: int| 0 <= i < s.drop_last().len() && (#[trigger] s.drop_last()[i]).board@ == b;
            assert(s[i].board@ == b);
        }
    }
}

/// In a superposition with distinct boards, the weight of a present board
/// is exactly the degeneracy of its unique harmonic.
pub proof fn lemma_weight_distinct(s: Seq<QuantumHarmonic>, i: int)
    requires
        distinct_boards(s),
        0 <= i < s.len(),
    ensures
        weight(s, s[i].board@) == s[i].degeneracy as int,
    decreases s.len(),
{
    if s.len() > 0 {
        if i == s.len() - 1 {
            assert(forall|j: int|
                0 <= j < s.drop_last().len() ==> (#[trigger] s.drop_last()[j]).board@
                    != s[i].board@);
            lemma_weight_absent(s.drop_last(), s[i].board@);
        } else {
            assert(s.last().board@ != s[i].board@);
            assert(s.drop_last()[i] == s[i]);
            lemma_weight_distinct(s.drop_last(), i);
        }
    }
}

/// A board held by no harmonic has weight zero.
pub proof fn lemma_weight_absent(s: Seq<QuantumHarmonic>, b: Seq<Square>)
    requires
        forall|i: int| 0 <= i < s.len() ==> (#[trigger] s[i]).board@ != b,
    ensures
        weight(s, b) == 0,
    decreases s.len(),
{
    if s.len() > 0 {
        lemma_weight_absent(s.drop_last(), b);
    }
}

// ------------------------------------------------------------------
// Divisibility and the greatest common divisor
// ------------------------------------------------------------------
/// Whether `d` divides `x`.
pub open spec fn divides(d: int, x: int) -> bool {
    exists|k: int| x == #[trigger] (d * k)
}

/// The greatest common divisor, by the Euclidean algorithm, with
/// `gcd(0, x) == x`.
pub open spec fn gcd(a: nat, b: nat) -> nat
    decreases a,
{
    if a == 0 {
        b
    } else {
        gcd(b % a, a)
    }
}

/// The greatest common divisor of all degeneracies of `s`, folded from 0.
pub open spec fn seq_gcd(s: Seq<QuantumHarmonic>) -> nat
    decreases s.len(),
{
    if s.len() == 0 {
        0
    } else {
        gcd(seq_gcd(s.drop_last()), s.last().degeneracy as nat)
    }
}

/// Everything divides zero.
pub proof fn lemma_divides_zero(d: int)
    ensures
        divides(d, 0),
{
    assert(0 == d * 0) by (nonlinear_arith);
}

/// Every number divides itself.
pub proof fn lemma_divides_refl(x: int)
    ensures
        divides(x, x),
{
    assert(x == x * 1) by (nonlinear_arith);
}

/// Divisibility is transitive.
pub proof fn lemma_divides_trans(a: int, b: int, c: int)
    requires
        divides(a, b),
        divides(b, c),
    ensures
        divides(a, c),
{
    let k1 = choose|k: int| b == #[trigger] (a * k);
    let k2 = choose|k: int| c == #[trigger] (b * k);
    assert(c == a * (k1 * k2)) by (nonlinear_arith)
        requires
            b == a * k1,
            c == b * k2,
    ;
}

/// A positive divisor of a positive number is no larger than it.
pub proof fn lemma_divides_le(d: int, x: int)
    requires
        divides(d, x),
        d > 0,
        x > 0,
    ensures
        d <= x,
{
    let k = choose|k: int| x == #[trigger] (d * k);
    assert(d * k > 0 && d > 0 ==> k >= 1) by (nonlinear_arith);
    assert(k >= 1 && d > 0 ==> d * k >= d) by (nonlinear_arith);
}

/// The gcd divides both of its arguments.
pub proof fn lemma_gcd_divides(a: nat, b: nat)
    ensures
        divides(gcd(a, b) as int, a as int),
        divides(gcd(a, b) as int, b as int),
    decreases a,
{
    if a == 0 {
        lemma_divides_zero(b as int);
        lemma_divides_refl(b as int);
    } else {
        lemma_gcd_divides(b % a, a);
        let g = gcd(b % a, a) as int;
        let k1 = choose|k: int| (b % a) as int == #[trigger] (g * k);
        let k2 = choose|k: int| a as int == #[trigger] (g * k);
        let q = b as int / a as int;
        vstd::arithmetic::div_mod::lemma_fundamental_div_mod(b as int, a as int);
        assert(b as int == a as int * q + (b % a) as int);
        assert(g * k2 * q + g * k1 == g * (k2 * q + k1)) by (nonlinear_arith);
        assert(b as int == g * (k2 * q + k1));
    }
}

/// Every common divisor of `a` and `b` divides their gcd.
pub proof fn lemma_gcd_greatest(c: int, a: nat, b: nat)
    requires
        divides(c, a as int),
        divides(c, b as int),
    ensures
        divides(c, gcd(a, b) as int),
    decreases a,
{
    if a == 0 {
    } else {
        let k1 = choose|k: int| b as int == #[trigger] (c * k);
        let k2 = choose|k: int| a as int == #[trigger] (c * k);
        let q = b as int / a as int;
        vstd::arithmetic::div_mod::lemma_fundamental_div_mod(b as int, a as int);
        assert((b % a) as int == b as int - a as int * q);
        assert(c * k1 - (c * k2) * q == c * (k1 - k2 * q)) by (nonlinear_arith);
        assert((b % a) as int == c * (k1 - k2 * q));
        lemma_gcd_greatest(c, b % a, a);
    }
}

/// The gcd of two numbers, one of them positive, is positive.
pub proof fn lemma_gcd_pos(a: nat, b: nat)
    requires
        a > 0 || b > 0,
    ensures
        gcd(a, b) > 0,
    decreases a,
{
    if a == 0 {
    } else {
        lemma_gcd_pos(b % a, a);
    }
}

/// The fold of the degeneracy gcd divides every degeneracy.
pub proof fn lemma_seq_gcd_divides(s: Seq<QuantumHarmonic>, i: int)
    requires
        0 <= i < s.len(),
    ensures
        divides(seq_gcd(s) as int, s[i].degeneracy as int),
    decreases s.len(),
{
    let g0 = seq_gcd(s.drop_last());
    let d = s.last().degeneracy as nat;
    lemma_gcd_divides(g0, d);
    if i == s.len() - 1 {
    } else {
        lemma_seq_gcd_divides(s.drop_last(), i);
        assert(s.drop_last()[i] == s[i]);
        lemma_divides_trans(
            seq_gcd(s) as int,
            g0 as int,
            s[i].degeneracy as int,
        );
    }
}

/// Every common divisor of all degeneracies divides their gcd fold.
pub proof fn lemma_seq_gcd_greatest(s: Seq<QuantumHarmonic>, c: int)
    requires
        forall|i: int| 0 <= i < s.len() ==> divides(c, (#[trigger] s[i]).degeneracy as int),
    ensures
        divides(c, seq_gcd(s) as int),
    decreases s.len(),
{
    if s.len() == 0 {
        lemma_divides_zero(c);
    } else {
        lemma_seq_gcd_greatest(s.drop_last(), c);
        assert(s[s.len() - 1].degeneracy as int == s.last().degeneracy as int);
        lemma_gcd_greatest(c, seq_gcd(s.drop_last()), s.last().degeneracy as nat);
    }
}

/// The degeneracy gcd of a non-empty positive superposition is positive.
pub proof fn lemma_seq_gcd_pos(s: Seq<QuantumHarmonic>)
    requires
        s.len() >= 1,
        positivity(s),
    ensures
        seq_gcd(s) >= 1,
{
    lemma_gcd_pos(seq_gcd(s.drop_last()), s.last().degeneracy as nat);
    assert(s[s.len() - 1].degeneracy >= 1);
}

/// Two positive superpositions with distinct boards and equal board
/// weights have the same common degeneracy divisors, hence if one has
/// degeneracy gcd 1, so does the other.
pub proof fn lemma_seq_gcd_transfer(s: Seq<QuantumHarmonic>, t: Seq<QuantumHarmonic>)
    requires
        distinct_boards(s),
        distinct_boards(t),
        positivity(s),
        positivity(t),
        forall|b: Seq<Square>| weight(s, b) == weight(t, b),
        seq_gcd(s) == 1,
        s.len() >= 1,
        t.len() >= 1,
    ensures
        seq_gcd(t) == 1,
{
    let gt = seq_gcd(t) as int;
    lemma_seq_gcd_pos(t);
    assert forall|i: int| 0 <= i < s.len() implies divides(
        gt,
        (#[trigger] s[i]).degeneracy as int,
    ) by {
        lemma_weight_distinct(s, i);
        lemma_weight_member(t, s[i].board@);
        let j = choose|j: int| 0 <= j < t.len() && (#[trigger] t[j]).board@ == s[i].board@;
        lemma_weight_distinct(t, j);
        lemma_seq_gcd_divides(t, j);
    }
    lemma_seq_gcd_greatest(s, gt);
    lemma_divides_le(gt, seq_gcd(s) as int);
}

// ------------------------------------------------------------------
// Order on harmonics, and sortedness
// ------------------------------------------------------------------
/// Whether `a` comes strictly before `b` in the presentation order:
/// larger degeneracy first, ties broken by the board order.
pub open spec fn h_before(a: QuantumHarmonic, b: QuantumHarmonic) -> bool {
    a.degeneracy > b.degeneracy || (a.degeneracy == b.degeneracy && board_lt(a.board@, b.board@))
}

/// Degeneracies non-increasing, ties in ascending board order.
pub open spec fn sorted_desc(s: Seq<QuantumHarmonic>) -> bool {
    forall|i: int, j: int| 0 <= i < j < s.len() ==> h_before(#[trigger] s[i], #[trigger] s[j])
}

/// Boards in strictly ascending board order.
pub open spec fn sorted_asc_boards(s: Seq<QuantumHarmonic>) -> bool {
    forall|i: int, j: int|
        0 <= i < j < s.len() ==> board_lt((#[trigger] s[i]).board@, (#[trigger] s[j]).board@)
}

/// The degeneracies have no common divisor above 1.
pub open spec fn normalized(s: Seq<QuantumHarmonic>) -> bool {
    seq_gcd(s) == 1
}

/// A settled superposition: what the post-move pipeline leaves behind.
pub open spec fn settled(s: Seq<QuantumHarmonic>) -> bool {
    &&& well_formed(s)
    &&& consistent(s)
    &&& distinct_boards(s)
    &&& sorted_desc(s)
    &&& normalized(s)
}

/// The presentation order is asymmetric.
pub proof fn lemma_h_before_asym(a: QuantumHarmonic, b: QuantumHarmonic)
    requires
        h_before(a, b),
    ensures
        !h_before(b, a),
{
    if a.degeneracy == b.degeneracy {
        lemma_board_lt_asym(a.board@, b.board@);
    }
}

/// The presentation order is transitive.
pub proof fn lemma_h_before_trans(a: QuantumHarmonic, b: QuantumHarmonic, c: QuantumHarmonic)
    requires
        h_before(a, b),
        h_before(b, c),
    ensures
        h_before(a, c),
{
    if a.degeneracy == b.degeneracy && b.degeneracy == c.degeneracy {
        lemma_board_lt_trans(a.board@, b.board@, c.board@);
    }
}

/// Two harmonics with real boards are ordered one way, the other way, or
/// agree on degeneracy and board.
pub proof fn lemma_h_before_connected(a: QuantumHarmonic, b: QuantumHarmonic)
    requires
        a.board.wf(),
        b.board.wf(),
    ensures
        h_before(a, b) || h_before(b, a) || (a.degeneracy == b.degeneracy && a.board@ == b.board@),
{
    if a.degeneracy == b.degeneracy {
        lemma_board_lt_connected(a.board@, b.board@);
    }
}

/// Removing the first element removes its contribution.
pub proof fn lemma_sum_drop_first(s: Seq<QuantumHarmonic>, f: spec_fn(QuantumHarmonic) -> int)
    requires
        s.len() >= 1,
    ensures
        sum_of(s.drop_first(), f) == sum_of(s, f) - f(s[0]),
{
    let head = seq![s[0]];
    assert(s =~= head + s.drop_first());
    lemma_sum_concat(head, s.drop_first(), f);
    assert(head.drop_last() =~= Seq::<QuantumHarmonic>::empty());
    assert(head.last() == s[0]);
    assert(sum_of(head, f) == sum_of(head.drop_last(), f) + f(s[0]));
    assert(sum_of(head.drop_last(), f) == 0);
}

/// Two sorted superpositions with distinct boards and the same weight on
/// every board are the same sequence.
pub proof fn lemma_sorted_weights_unique(s: Seq<QuantumHarmonic>, t: Seq<QuantumHarmonic>)
    requires
        sorted_desc(s),
        sorted_desc(t),
        distinct_boards(s),
        distinct_boards(t),
        positivity(s),
        positivity(t),
        boards_wf(s),
        boards_wf(t),
        forall|b: Seq<Square>| weight(s, b) == weight(t, b),
    ensures
        s =~= t,
    decreases s.len(),
{
    if s.len() == 0 {
        if t.len() > 0 {
            lemma_weight_distinct(t, 0);
            lemma_weight_absent(s, t[0].board@);
        }
        assert(s =~= t);
    } else if t.len() == 0 {
        lemma_weight_distinct(s, 0);
        lemma_weight_absent(t, s[0].board@);
        assert(false);
    } else {
        // The head of each sequence appears in the other with the same
        // degeneracy; sortedness forces the heads to coincide.
        lemma_weight_distinct(s, 0);
        lemma_weight_member(t, s[0].board@);
        let j = choose|j: int| 0 <= j < t.len() && (#[trigger] t[j]).board@ == s[0].board@;
        lemma_weight_distinct(t, j);
        assert(t[j].degeneracy == s[0].degeneracy);
        lemma_weight_distinct(t, 0);
        lemma_weight_member(s, t[0].board@);
        let i = choose|i: int| 0 <= i < s.len() && (#[trigger] s[i]).board@ == t[0].board@;
        lemma_weight_distinct(s, i);
        assert(s[i].degeneracy == t[0].degeneracy);
        if j > 0 {
            assert(h_before(t[0], t[j]));
            if i > 0 {
                assert(h_before(s[0], s[i]));
                // s[0] ~ t[j] and t[0] ~ s[i] give a cycle in the strict order.
                let s0 = s[0];
                let t0 = t[0];
                assert(h_before(s0, s[i]) && s[i].degeneracy == t0.degeneracy && s[i].board@
                    == t0.board@);
                assert(h_before(s0, t0) || (s0.degeneracy == t0.degeneracy && false)) by {
                    if s0.degeneracy == s[i].degeneracy {
                        assert(board_lt(s0.board@, t0.board@));
                    }
                }
                assert(h_before(s0, t0));
                assert(h_before(t0, t[j]) && t[j].degeneracy == s0.degeneracy && t[j].board@
                    == s0.board@);
                assert(h_before(t0, s0)) by {
                    if t0.degeneracy == t[j].degeneracy {
                        assert(board_lt(t0.board@, s0.board@));
                    }
                }
                lemma_h_before_asym(s0, t0);
                assert(false);
            } else {
                assert(s[0].board@ == t[0].board@);
                assert(t[j].board@ == t[0].board@);
                assert(false);
            }
        }
        // Heads coincide.
        assert(t[0].board@ == s[0].board@);
        crate::chess::lemma_view_determines_board(t[0].board, s[0].board);
        assert(t[0] == s[0]);
        // Tails have equal weights.
        assert forall|b: Seq<Square>|
            weight(s.drop_first(), b) == weight(t.drop_first(), b) by {
            lemma_sum_drop_first(s, board_contrib(b));
            lemma_sum_drop_first(t, board_contrib(b));
            assert(weight(s, b) == weight(t, b));
            assert(board_contrib(b)(s[0]) == board_contrib(b)(t[0]));
            assert(weight(s.drop_first(), b) == sum_of(s.drop_first(), board_contrib(b)));
            assert(weight(t.drop_first(), b) == sum_of(t.drop_first(), board_contrib(b)));
        }
        assert forall|i2: int, j2: int| 0 <= i2 < j2 < s.drop_first().len() implies h_before(
            #[trigger] s.drop_first()[i2],
            #[trigger] s.drop_first()[j2],
        ) by {
            assert(h_before(s[i2 + 1], s[j2 + 1]));
        }
        assert forall|i2: int, j2: int| 0 <= i2 < j2 < t.drop_first().len() implies h_before(
            #[trigger] t.drop_first()[i2],
            #[trigger] t.drop_first()[j2],
        ) by {
            assert(h_before(t[i2 + 1], t[j2 + 1]));
        }
        assert(distinct_boards(s.drop_first())) by {
            assert forall|i2: int, j2: int|
                0 <= i2 < j2 < s.drop_first().len() implies (#[trigger] s.drop_first()[i2]).board@
                != (#[trigger] s.drop_first()[j2]).board@ by {
                assert(s[i2 + 1].board@ != s[j2 + 1].board@);
            }
        }
        assert(distinct_boards(t.drop_first())) by {
            assert forall|i2: int, j2: int|
                0 <= i2 < j2 < t.drop_first().len() implies (#[trigger] t.drop_first()[i2]).board@
                != (#[trigger] t.drop_first()[j2]).board@ by {
                assert(t[i2 + 1].board@ != t[j2 + 1].board@);
            }
        }
        lemma_sorted_weights_unique(s.drop_first(), t.drop_first());
        assert forall|k: int| 0 <= k < s.len() implies s[k] == t[k] by {
            if k > 0 {
                assert(s.drop_first()[k - 1] == t.drop_first()[k - 1]);
            }
        }
        assert(s =~= t);
    }
}

// ------------------------------------------------------------------
// Filter lemmas
// ------------------------------------------------------------------
/// Filtering keeps a prefix-by-prefix shape: one more input element adds
/// itself to the output exactly when it passes.
pub proof fn lemma_filter_take_step(
    s: Seq<QuantumHarmonic>,
    p: spec_fn(QuantumHarmonic) -> bool,
    i: int,
)
    requires
        0 <= i < s.len(),
    ensures
        s.take(i + 1).filter(p) == if p(s[i]) {
            s.take(i).filter(p).push(s[i])
        } else {
            s.take(i).filter(p)
        },
{
    reveal(Seq::filter);
    assert(s.take(i + 1).drop_last() =~= s.take(i));
    assert(s.take(i + 1).last() == s[i]);
}

/// The filter of the full prefix is the filter of the sequence.
pub proof fn lemma_filter_take_all(s: Seq<QuantumHarmonic>, p: spec_fn(QuantumHarmonic) -> bool)
    ensures
        s.take(s.len() as int).filter(p) == s.filter(p),
{
    reveal(Seq::filter);
    assert(s.take(s.len() as int) =~= s);
}

/// A filter that keeps everything returns the sequence.
pub proof fn lemma_filter_all_true(s: Seq<QuantumHarmonic>, p: spec_fn(QuantumHarmonic) -> bool)
    requires
        forall|i: int| 0 <= i < s.len() ==> p(#[trigger] s[i]),
    ensures
        s.filter(p) == s,
    decreases s.len(),
{
    reveal(Seq::filter);
    if s.len() > 0 {
        lemma_filter_all_true(s.drop_last(), p);
        assert(s.drop_last().push(s.last()) =~= s);
    }
}

/// Two filters in a row filter by the conjunction.
pub proof fn lemma_filter_compose(
    s: Seq<QuantumHarmonic>,
    p: spec_fn(QuantumHarmonic) -> bool,
    q: spec_fn(QuantumHarmonic) -> bool,
    pq: spec_fn(QuantumHarmonic) -> bool,
)
    requires
        forall|h: QuantumHarmonic| #[trigger] pq(h) == (p(h) && q(h)),
    ensures
        s.filter(p).filter(q) == s.filter(pq),
    decreases s.len(),
{
    reveal(Seq::filter);
    if s.len() > 0 {
        lemma_filter_compose(s.drop_last(), p, q, pq);
        if p(s.last()) {
            assert(s.drop_last().filter(p).push(s.last()).drop_last() =~= s.drop_last().filter(
                p,
            ));
        }
    }
}

/// Every element of a filtered sequence stands somewhere in the source.
pub proof fn lemma_filter_member(
    s: Seq<QuantumHarmonic>,
    p: spec_fn(QuantumHarmonic) -> bool,
    j: int,
)
    requires
        0 <= j < s.filter(p).len(),
    ensures
        exists|i: int| 0 <= i < s.len() && #[trigger] s[i] == s.filter(p)[j],
    decreases s.len(),
{
    reveal(Seq::filter);
    if s.len() > 0 {
        if p(s.last()) && j == s.filter(p).len() - 1 {
            assert(s[s.len() - 1] == s.filter(p)[j]);
        } else {
            lemma_filter_member(s.drop_last(), p, j);
            let i = choose|i: int|
                0 <= i < s.drop_last().len() && #[trigger] s.drop_last()[i] == s.drop_last().filter(
                    p,
                )[j];
            assert(s[i] == s.filter(p)[j]);
        }
    }
}

/// Filtering does not raise a sum of non-negative contributions.
pub proof fn lemma_sum_filter_le(
    s: Seq<QuantumHarmonic>,
    p: spec_fn(QuantumHarmonic) -> bool,
    f: spec_fn(QuantumHarmonic) -> int,
)
    requires
        forall|i: int| 0 <= i < s.len() ==> f(#[trigger] s[i]) >= 0,
    ensures
        sum_of(s.filter(p), f) <= sum_of(s, f),
    decreases s.len(),
{
    reveal(Seq::filter);
    if s.len() > 0 {
        lemma_sum_filter_le(s.drop_last(), p, f);
        if p(s.last()) {
            lemma_sum_push(s.drop_last().filter(p), s.last(), f);
        } else {
            assert(f(s[s.len() - 1]) >= 0);
        }
    }
}

impl QuantumChessboard {
    /// Gets the aggregate information about square `(x, y)`: the unique
    /// piece that may occupy it across the superposition, and the exact
    /// probability of occupation as the ratio of degeneracy sums. For a
    /// square empty on every harmonic, reports the empty square with
    /// probability one.
    pub fn get_quantum_square_info(&self, x: isize, y: isize) -> (r: QuantumSquareInfo)
        requires
            well_formed(self.harmonics@),
            on_board(x as int, y as int),
            consistent_at(self.harmonics@, x as int, y as int),
        ensures
            r.denominator as int == total_deg(self.harmonics@),
            r.denominator >= 1,
            r.numerator <= r.denominator,
            occ_deg(self.harmonics@, x as int, y as int) == 0 ==> r.square == spec_empty_square()
                && r.numerator == r.denominator,
            occ_deg(self.harmonics@, x as int, y as int) > 0 ==> r.numerator as int == occ_deg(
                self.harmonics@,
                x as int,
                y as int,
            ) && r.square == aggregate_at(self.harmonics@, x as int, y as int)
                && r.square.spec_is_occupied(),
    {
        let ghost s = self.harmonics@;
        let n = self.harmonics.len();
        let mut numerator: u64 = 0;
        let mut denominator: u64 = 0;
        let mut res: Option<Square> = None;
        let mut i: usize = 0;
        proof {
            assert(s.take(0) =~= Seq::<QuantumHarmonic>::empty());
        }
        while i < n
            invariant
                well_formed(s),
                on_board(x as int, y as int),
                consistent_at(s, x as int, y as int),
                self.harmonics@ == s,
                n == s.len(),
                0 <= i <= n,
                denominator as int == total_deg(s.take(i as int)),
                numerator as int == occ_deg(s.take(i as int), x as int, y as int),
                numerator <= denominator,
                occ_deg(s.take(i as int), x as int, y as int) == 0 <==> res is None,
                res matches Some(sq) ==> sq.spec_is_occupied() && (exists|k: int|
                    0 <= k < i && (#[trigger] s[k]).board.at(x as int, y as int) == sq),
            decreases n - i,
        {
            let h = &self.harmonics[i];
            proof {
                assert(forall|j: int|
                    0 <= j < s.len() ==> deg_contrib()(#[trigger] s[j]) >= 0);
                assert(forall|j: int|
                    0 <= j < s.len() ==> occ_contrib(x as int, y as int)(#[trigger] s[j]) >= 0);
                assert(forall|j: int|
                    0 <= j < s.take(i as int + 1).len() ==> occ_contrib(x as int, y as int)(
                        #[trigger] s.take(i as int + 1)[j],
                    ) <= deg_contrib()(s.take(i as int + 1)[j]));
                lemma_sum_take_step(s, deg_contrib(), i as int);
                lemma_sum_take_step(s, occ_contrib(x as int, y as int), i as int);
                lemma_sum_take_le(s, deg_contrib(), i as int + 1);
                lemma_sum_le(
                    s.take(i as int + 1),
                    occ_contrib(x as int, y as int),
                    deg_contrib(),
                );
            }
            denominator = denominator + h.degeneracy;
            let current_sq = h.board.get(x, y);
            if current_sq.is_occupied() {
                numerator = numerator + h.degeneracy;
                res = Some(current_sq);
            }
            i = i + 1;
        }
        proof {
            assert(s.take(n as int) =~= s);
            assert(forall|j: int| 0 <= j < s.len() ==> deg_contrib()(#[trigger] s[j]) >= 0);
            lemma_sum_member_le(s, deg_contrib(), 0);
            if occ_deg(s, x as int, y as int) > 0 {
                let sq = res.unwrap();
                let k = choose|k: int|
                    0 <= k < n && (#[trigger] s[k]).board.at(x as int, y as int) == sq;
                assert(aggregate_at(s, x as int, y as int) == sq);
            }
        }
        match res {
            Some(sq) => QuantumSquareInfo { square: sq, numerator, denominator },
            None => QuantumSquareInfo {
                square: empty_square(),
                numerator: denominator,
                denominator,
            },
        }
    }

    /// Drops every harmonic whose square `(x, y)` holds exactly `sq`,
    /// keeping the rest in order.
    pub(crate) fn retain_square_ne(&mut self, x: isize, y: isize, sq: Square)
        requires
            boards_wf(old(self).harmonics@),
            on_board(x as int, y as int),
        ensures
            final(self).harmonics@ == old(self).harmonics@.filter(
                keeps_square_ne(x as int, y as int, sq),
            ),
    {
        let ghost s = self.harmonics@;
        let n = self.harmonics.len();
        let mut out: Vec<QuantumHarmonic> = Vec::new();
        let mut i: usize = 0;
        proof {
            reveal(Seq::filter);
            assert(s.take(0) =~= Seq::<QuantumHarmonic>::empty());
        }
        while i < n
            invariant
                boards_wf(s),
                on_board(x as int, y as int),
                self.harmonics@ == s,
                n == s.len(),
                0 <= i <= n,
                out@ == s.take(i as int).filter(keeps_square_ne(x as int, y as int, sq)),
            decreases n - i,
        {
            let ghost p = keeps_square_ne(x as int, y as int, sq);
            let h = self.harmonics[i];
            proof {
                lemma_filter_take_step(s, p, i as int);
                assert(s[i as int].board.wf());
                assert(p(s[i as int]) == (h.board.at(x as int, y as int) != sq));
            }
            if !(h.board.get(x, y) == sq) {
                out.push(h);
            }
            i = i + 1;
        }
        proof {
            lemma_filter_take_all(s, keeps_square_ne(x as int, y as int, sq));
        }
        self.harmonics = out;
    }

    /// Keeps exactly the harmonics whose square `(x, y)` occupancy matches
    /// `keep_occupied`, in order.
    pub(crate) fn retain_occupancy(&mut self, x: isize, y: isize, keep_occupied: bool)
        requires
            boards_wf(old(self).harmonics@),
            on_board(x as int, y as int),
        ensures
            final(self).harmonics@ == old(self).harmonics@.filter(
                keeps_occupancy(x as int, y as int, keep_occupied),
            ),
    {
        let ghost s = self.harmonics@;
        let n = self.harmonics.len();
        let mut out: Vec<QuantumHarmonic> = Vec::new();
        let mut i: usize = 0;
        proof {
            reveal(Seq::filter);
            assert(s.take(0) =~= Seq::<QuantumHarmonic>::empty());
        }
        while i < n
            invariant
                boards_wf(s),
                on_board(x as int, y as int),
                self.harmonics@ == s,
                n == s.len(),
                0 <= i <= n,
                out@ == s.take(i as int).filter(
                    keeps_occupancy(x as int, y as int, keep_occupied),
                ),
            decreases n - i,
        {
            let ghost p = keeps_occupancy(x as int, y as int, keep_occupied);
            let h = self.harmonics[i];
            proof {
                lemma_filter_take_step(s, p, i as int);
                assert(s[i as int].board.wf());
                assert(p(s[i as int]) == (h.board.at(
                    x as int,
                    y as int,
                ).spec_is_occupied() == keep_occupied));
            }
            if h.board.get(x, y).is_occupied() == keep_occupied {
                out.push(h);
            }
            i = i + 1;
        }
        proof {
            lemma_filter_take_all(s, keeps_occupancy(x as int, y as int, keep_occupied));
        }
        self.harmonics = out;
    }
}

impl QuantumChessboard {
    /// Groups together harmonics holding the same board, adding their
    /// degeneracies. The result holds each board once, in ascending
    /// board order, and gives every board the same total weight as before.
    pub fn regroup(&mut self)
        requires
            well_formed(old(self).harmonics@),
        ensures
            well_formed(final(self).harmonics@),
            sorted_asc_boards(final(self).harmonics@),
            distinct_boards(final(self).harmonics@),
            forall|b: Seq<Square>|
                weight(final(self).harmonics@, b) == weight(old(self).harmonics@, b),
            total_deg(final(self).harmonics@) == total_deg(old(self).harmonics@),
            forall|j: int|
                0 <= j < final(self).harmonics@.len() ==> exists|i: int|
                    0 <= i < old(self).harmonics@.len() && (#[trigger] final(self).harmonics@[j]).board@
                        == old(self).harmonics@[i].board@,
    {
        let ghost s = self.harmonics@;
        let n = self.harmonics.len();
        let mut out: Vec<QuantumHarmonic> = Vec::new();
        let mut i: usize = 0;
        proof {
            assert(s.take(0) =~= Seq::<QuantumHarmonic>::empty());
        }
        while i < n
            invariant
                well_formed(s),
                self.harmonics@ == s,
                n == s.len(),
                0 <= i <= n,
                i >= 1 ==> out@.len() >= 1,
                boards_wf(out@),
                positivity(out@),
                sorted_asc_boards(out@),
                distinct_boards(out@),
                forall|b: Seq<Square>|
                    weight(out@, b) == weight(s.take(i as int), b),
                total_deg(out@) == total_deg(s.take(i as int)),
                forall|j: int|
                    0 <= j < out@.len() ==> exists|i0: int|
                        0 <= i0 < i && (#[trigger] out@[j]).board@ == s[i0].board@,
            decreases n - i,
        {
            let ghost out0 = out@;
            let h = self.harmonics[i];
            proof {
                assert(h == s[i as int]);
                assert(h.board.wf());
                assert(h.degeneracy >= 1);
            }
            let mut j: usize = 0;
            while j < out.len() && out[j].board.before(&h.board)
                invariant
                    out@ == out0,
                    boards_wf(out0),
                    h.board.wf(),
                    0 <= j <= out0.len(),
                    forall|k: int| 0 <= k < j ==> board_lt((#[trigger] out0[k]).board@, h.board@),
                decreases out0.len() - j,
            {
                j = j + 1;
            }
            proof {
                // totals cannot overflow past the full superposition's total
                assert(forall|k: int|
                    0 <= k < s.len() ==> deg_contrib()(#[trigger] s[k]) >= 0);
                assert(forall|k: int|
                    0 <= k < s.take(i as int + 1).len() ==> board_contrib(h.board@)(
                        #[trigger] s.take(i as int + 1)[k],
                    ) <= deg_contrib()(s.take(i as int + 1)[k]));
                lemma_sum_take_step(s, deg_contrib(), i as int);
                lemma_sum_take_le(s, deg_contrib(), i as int + 1);
                lemma_sum_le(s.take(i as int + 1), board_contrib(h.board@), deg_contrib());
                lemma_sum_take_step(s, board_contrib(h.board@), i as int);
                assert(weight(s.take(i as int + 1), h.board@) == weight(s.take(i as int), h.board@)
                    + h.degeneracy);
                lemma_sum_nonneg(s.take(i as int), board_contrib(h.board@));
            }
            if j < out.len() && out[j].board.same_position(&h.board) {
                let cur = out[j];
                proof {
                    lemma_weight_distinct(out0, j as int);
                    assert(weight(out0, h.board@) == cur.degeneracy as int);
                    assert(cur.degeneracy as int + h.degeneracy as int <= total_deg(s));
                }
                let merged = QuantumHarmonic {
                    board: cur.board,
                    degeneracy: cur.degeneracy + h.degeneracy,
                };
                out[j] = merged;
                proof {
                    let oj = j as int;
                    assert(out@ =~= out0.update(oj, merged));
                    assert forall|b: Seq<Square>|
                        weight(out@, b) == weight(s.take(i as int + 1), b) by {
                        lemma_sum_update(out0, oj, merged, board_contrib(b));
                        lemma_sum_take_step(s, board_contrib(b), i as int);
                        assert(weight(out0, b) == weight(s.take(i as int), b));
                        assert(merged.board@ == out0[oj].board@ && merged.board@ == h.board@);
                        assert(board_contrib(b)(merged) == board_contrib(b)(out0[oj])
                            + board_contrib(b)(h));
                    }
                    lemma_sum_update(out0, oj, merged, deg_contrib());
                    lemma_sum_take_step(s, deg_contrib(), i as int);
                    assert forall|i2: int, j2: int|
                        0 <= i2 < j2 < out@.len() implies board_lt(
                        (#[trigger] out@[i2]).board@,
                        (#[trigger] out@[j2]).board@,
                    ) by {
                        assert(out@[i2].board@ == out0[i2].board@);
                        assert(out@[j2].board@ == out0[j2].board@);
                    }
                    assert forall|i2: int, j2: int|
                        0 <= i2 < j2 < out@.len() implies (#[trigger] out@[i2]).board@ != (
                    #[trigger] out@[j2]).board@ by {
                        assert(out@[i2].board@ == out0[i2].board@);
                        assert(out@[j2].board@ == out0[j2].board@);
                    }
                }
            } else {
                proof {
                    let oj = j as int;
                    if oj < out0.len() {
                        lemma_board_lt_connected(out0[oj].board@, h.board@);
                        assert(board_lt(h.board@, out0[oj].board@));
                    }
                }
                out.insert(j, h);
                proof {
                    let oj = j as int;
                    assert(out@ =~= out0.insert(oj, h));
                    assert forall|b: Seq<Square>|
                        weight(out@, b) == weight(s.take(i as int + 1), b) by {
                        lemma_sum_insert(out0, oj, h, board_contrib(b));
                        lemma_sum_take_step(s, board_contrib(b), i as int);
                        assert(weight(out0, b) == weight(s.take(i as int), b));
                    }
                    lemma_sum_insert(out0, oj, h, deg_contrib());
                    lemma_sum_take_step(s, deg_contrib(), i as int);
                    assert forall|i2: int, j2: int|
                        0 <= i2 < j2 < out@.len() implies board_lt(
                        (#[trigger] out@[i2]).board@,
                        (#[trigger] out@[j2]).board@,
                    ) by {
                        if i2 < oj && j2 < oj {
                            assert(out@[i2] == out0[i2] && out@[j2] == out0[j2]);
                        } else if i2 < oj && j2 == oj {
                            assert(out@[i2] == out0[i2] && out@[j2] == h);
                        } else if i2 < oj && j2 > oj {
                            assert(out@[i2] == out0[i2] && out@[j2] == out0[j2 - 1]);
                            if i2 < oj <= j2 - 1 {
                                assert(board_lt(out0[i2].board@, out0[j2 - 1].board@));
                            } else {
                                assert(oj == j2 - 1 && oj < out0.len());
                                lemma_board_lt_trans(
                                    out0[i2].board@,
                                    h.board@,
                                    out0[oj].board@,
                                );
                                assert(board_lt(out0[i2].board@, out0[j2 - 1].board@));
                            }
                        } else if i2 == oj {
                            assert(out@[i2] == h && out@[j2] == out0[j2 - 1]);
                            assert(oj < out0.len());
                            if j2 - 1 > oj {
                                lemma_board_lt_trans(
                                    h.board@,
                                    out0[oj].board@,
                                    out0[j2 - 1].board@,
                                );
                            }
                        } else {
                            assert(out@[i2] == out0[i2 - 1] && out@[j2] == out0[j2 - 1]);
                        }
                    }
                    assert forall|i2: int, j2: int|
                        0 <= i2 < j2 < out@.len() implies (#[trigger] out@[i2]).board@ != (
                    #[trigger] out@[j2]).board@ by {
                        lemma_board_lt_asym(out@[i2].board@, out@[j2].board@);
                    }
                }
            }
            i = i + 1;
        }
        proof {
            assert(s.take(n as int) =~= s);
        }
        self.harmonics = out;
    }
}

impl QuantumChessboard {
    /// Divides every degeneracy by the greatest common divisor of all
    /// degeneracies, then sorts the harmonics by descending degeneracy
    /// (ties in ascending board order). Afterwards the degeneracies have
    /// no common divisor above one.
    pub fn normalize_degeneracy(&mut self)
        requires
            well_formed(old(self).harmonics@),
            distinct_boards(old(self).harmonics@),
        ensures
            well_formed(final(self).harmonics@),
            final(self).harmonics@.len() == old(self).harmonics@.len(),
            distinct_boards(final(self).harmonics@),
            sorted_desc(final(self).harmonics@),
            normalized(final(self).harmonics@),
            total_deg(final(self).harmonics@) <= total_deg(old(self).harmonics@),
            exists|g: int|
                g >= 1 && #[trigger] weights_divided_by(
                    old(self).harmonics@,
                    final(self).harmonics@,
                    g,
                ),
            forall|j: int|
                0 <= j < final(self).harmonics@.len() ==> exists|i: int|
                    0 <= i < old(self).harmonics@.len() && (#[trigger] final(self).harmonics@[j]).board@
                        == old(self).harmonics@[i].board@,
    {
        let ghost s = self.harmonics@;
        let n = self.harmonics.len();

        // The gcd of all degeneracies.
        let mut g: u64 = 0;
        let mut i: usize = 0;
        proof {
            assert(s.take(0) =~= Seq::<QuantumHarmonic>::empty());
        }
        while i < n
            invariant
                self.harmonics@ == s,
                n == s.len(),
                0 <= i <= n,
                g as nat == seq_gcd(s.take(i as int)),
            decreases n - i,
        {
            let d = self.harmonics[i].degeneracy;
            proof {
                assert(s.take(i as int + 1).drop_last() =~= s.take(i as int));
                assert(s.take(i as int + 1).last() == s[i as int]);
            }
            g = gcd_u64(g, d);
            i = i + 1;
        }
        proof {
            assert(s.take(n as int) =~= s);
            assert(g as nat == seq_gcd(s));
            lemma_seq_gcd_pos(s);
        }

        // Divide every degeneracy by the gcd, exactly.
        let mut out: Vec<QuantumHarmonic> = Vec::new();
        let mut i: usize = 0;
        while i < n
            invariant
                well_formed(s),
                self.harmonics@ == s,
                n == s.len(),
                g as nat == seq_gcd(s),
                g >= 1,
                0 <= i <= n,
                out@.len() == i,
                forall|k: int|
                    0 <= k < i ==> (#[trigger] out@[k]).board == s[k].board && out@[k].degeneracy
                        as int * g as int == s[k].degeneracy as int && out@[k].degeneracy >= 1,
            decreases n - i,
        {
            let h = self.harmonics[i];
            proof {
                lemma_seq_gcd_divides(s, i as int);
                let k = choose|k: int|
                    h.degeneracy as int == #[trigger] (g as int * k);
                assert(k >= 1) by (nonlinear_arith)
                    requires
                        h.degeneracy as int == g as int * k,
                        h.degeneracy >= 1,
                        g >= 1,
                ;
                vstd::arithmetic::div_mod::lemma_div_by_multiple(k, g as int);
                assert((k * g as int) / g as int == k);
                assert(k * g as int == g as int * k) by (nonlinear_arith);
                assert(h.degeneracy as int / g as int == k);
            }
            let nh = QuantumHarmonic { board: h.board, degeneracy: h.degeneracy / g };
            out.push(nh);
            i = i + 1;
        }
        let ghost divided = out@;
        proof {
            // Weights scale down by exactly g.
            assert forall|b: Seq<Square>|
                weight(s, b) == g as int * #[trigger] weight(divided, b) by {
                lemma_sum_scale(s, divided, b, g as int);
            }
            // The divided degeneracies have gcd one.
            let g2 = seq_gcd(divided) as int;
            assert(positivity(divided));
            lemma_seq_gcd_pos(divided);
            assert forall|k: int|
                0 <= k < s.len() implies divides(
                g as int * g2,
                (#[trigger] s[k]).degeneracy as int,
            ) by {
                lemma_seq_gcd_divides(divided, k);
                let m = choose|m: int|
                    divided[k].degeneracy as int == #[trigger] (g2 * m);
                assert(s[k].degeneracy as int == (g as int * g2) * m) by (nonlinear_arith)
                    requires
                        divided[k].degeneracy as int == g2 * m,
                        s[k].degeneracy as int == divided[k].degeneracy as int * g as int,
                ;
            }
            lemma_seq_gcd_greatest(s, g as int * g2);
            assert(g as int * g2 >= 1) by (nonlinear_arith)
                requires
                    g >= 1,
                    g2 >= 1,
            ;
            assert(g2 >= 2 ==> g as int * g2 > g as int) by (nonlinear_arith)
                requires
                    g >= 1,
            ;
            lemma_divides_le(g as int * g2, g as int);
            assert(g2 == 1);
            // Totals do not grow.
            lemma_sum_scale_le(s, divided, g as int);
            // Boards are untouched.
            assert(distinct_boards(divided));
            assert(boards_wf(divided));
        }

        // Sort by descending degeneracy, ties in ascending board order.
        let m = out.len();
        let mut sorted: Vec<QuantumHarmonic> = Vec::new();
        let mut i: usize = 0;
        proof {
            assert(divided.take(0) =~= Seq::<QuantumHarmonic>::empty());
        }
        while i < m
            invariant
                boards_wf(divided),
                positivity(divided),
                distinct_boards(divided),
                out@ == divided,
                m == divided.len(),
                0 <= i <= m,
                sorted@.len() == i,
                boards_wf(sorted@),
                positivity(sorted@),
                sorted_desc(sorted@),
                distinct_boards(sorted@),
                forall|b: Seq<Square>|
                    weight(sorted@, b) == weight(divided.take(i as int), b),
                total_deg(sorted@) == total_deg(divided.take(i as int)),
                forall|j: int|
                    0 <= j < sorted@.len() ==> exists|i0: int|
                        0 <= i0 < i && (#[trigger] sorted@[j]).board@ == divided[i0].board@,
            decreases m - i,
        {
            let ghost sorted0 = sorted@;
            let h = out[i];
            proof {
                assert(h == divided[i as int]);
            }
            let mut j: usize = 0;
            while j < sorted.len() && h_before_exec(&sorted[j], &h)
                invariant
                    sorted@ == sorted0,
                    boards_wf(sorted0),
                    h.board.wf(),
                    0 <= j <= sorted0.len(),
                    forall|k: int| 0 <= k < j ==> h_before(#[trigger] sorted0[k], h),
                decreases sorted0.len() - j,
            {
                j = j + 1;
            }
            proof {
                let oj = j as int;
                // The new harmonic's board is fresh among the sorted ones.
                assert forall|k: int| 0 <= k < sorted0.len() implies (#[trigger] sorted0[k]).board@
                    != h.board@ by {
                    let i0 = choose|i0: int|
                        0 <= i0 < i && (#[trigger] sorted0[k]).board@ == divided[i0].board@;
                    assert(divided[i0].board@ != divided[i as int].board@);
                }
                if oj < sorted0.len() {
                    lemma_h_before_connected(sorted0[oj], h);
                    assert(h_before(h, sorted0[oj]));
                }
            }
            sorted.insert(j, h);
            proof {
                let oj = j as int;
                assert(sorted@ =~= sorted0.insert(oj, h));
                assert forall|b: Seq<Square>|
                    weight(sorted@, b) == weight(divided.take(i as int + 1), b) by {
                    lemma_sum_insert(sorted0, oj, h, board_contrib(b));
                    lemma_sum_take_step(divided, board_contrib(b), i as int);
                    assert(weight(sorted0, b) == weight(divided.take(i as int), b));
                }
                lemma_sum_insert(sorted0, oj, h, deg_contrib());
                lemma_sum_take_step(divided, deg_contrib(), i as int);
                assert forall|i2: int, j2: int|
                    0 <= i2 < j2 < sorted@.len() implies h_before(
                    #[trigger] sorted@[i2],
                    #[trigger] sorted@[j2],
                ) by {
                    if i2 < oj && j2 < oj {
                        assert(sorted@[i2] == sorted0[i2] && sorted@[j2] == sorted0[j2]);
                    } else if i2 < oj && j2 == oj {
                        assert(sorted@[i2] == sorted0[i2] && sorted@[j2] == h);
                    } else if i2 < oj && j2 > oj {
                        assert(sorted@[i2] == sorted0[i2] && sorted@[j2] == sorted0[j2 - 1]);
                        if oj == j2 - 1 {
                            lemma_h_before_trans(sorted0[i2], h, sorted0[oj]);
                        }
                    } else if i2 == oj {
                        assert(sorted@[i2] == h && sorted@[j2] == sorted0[j2 - 1]);
                        if j2 - 1 > oj {
                            lemma_h_before_trans(h, sorted0[oj], sorted0[j2 - 1]);
                        }
                    } else {
                        assert(sorted@[i2] == sorted0[i2 - 1] && sorted@[j2] == sorted0[j2 - 1]);
                    }
                }
                assert forall|i2: int, j2: int|
                    0 <= i2 < j2 < sorted@.len() implies (#[trigger] sorted@[i2]).board@ != (
                #[trigger] sorted@[j2]).board@ by {
                    assert(h_before(sorted@[i2], sorted@[j2]));
                    if sorted@[i2].board@ == sorted@[j2].board@ {
                        lemma_h_before_asym(sorted@[i2], sorted@[j2]);
                        lemma_board_lt_asym(sorted@[i2].board@, sorted@[j2].board@);
                    }
                }
            }
            i = i + 1;
        }
        proof {
            assert(divided.take(m as int) =~= divided);
            // The sorted sequence keeps gcd one.
            lemma_seq_gcd_transfer(divided, sorted@);
            assert(weights_divided_by(s, sorted@, g as int)) by {
                assert forall|b: Seq<Square>|
                    weight(s, b) == g as int * #[trigger] weight(sorted@, b) by {
                    assert(weight(sorted@, b) == weight(divided, b));
                    assert(weight(s, b) == g as int * weight(divided, b));
                }
            }
        }
        self.harmonics = sorted;
    }
}

/// Whether every board weight of `pre` is exactly `g` times its weight
/// in `post`.
pub open spec fn weights_divided_by(
    pre: Seq<QuantumHarmonic>,
    post: Seq<QuantumHarmonic>,
    g: int,
) -> bool {
    forall|b: Seq<Square>| weight(pre, b) == g * #[trigger] weight(post, b)
}

/// Scaling every degeneracy by `g` scales every board weight by `g`.
proof fn lemma_sum_scale(
    s: Seq<QuantumHarmonic>,
    t: Seq<QuantumHarmonic>,
    b: Seq<Square>,
    g: int,
)
    requires
        s.len() == t.len(),
        forall|k: int|
            0 <= k < s.len() ==> (#[trigger] t[k]).board == s[k].board && t[k].degeneracy as int
                * g == s[k].degeneracy as int,
    ensures
        weight(s, b) == g * weight(t, b),
    decreases s.len(),
{
    if s.len() == 0 {
        assert(g * 0 == 0) by (nonlinear_arith);
    } else {
        lemma_sum_scale(s.drop_last(), t.drop_last(), b, g);
        let ls = s.last();
        let lt = t.last();
        assert(ls == s[s.len() - 1] && lt == t[t.len() - 1]);
        assert(t[s.len() - 1].board == s[s.len() - 1].board && t[s.len() - 1].degeneracy as int * g
            == s[s.len() - 1].degeneracy as int);
        assert(board_contrib(b)(ls) == g * board_contrib(b)(lt)) by {
            assert(lt.board == ls.board);
            assert(g * (lt.degeneracy as int) == ls.degeneracy as int) by (nonlinear_arith)
                requires
                    lt.degeneracy as int * g == ls.degeneracy as int,
            ;
            if lt.board@ == b {
                assert(ls.board@ == b);
            } else {
                assert(ls.board@ != b);
                assert(g * 0 == 0) by (nonlinear_arith);
            }
        }
        assert(g * (weight(t.drop_last(), b) + board_contrib(b)(lt)) == g * weight(
            t.drop_last(),
            b,
        ) + g * board_contrib(b)(lt)) by (nonlinear_arith);
    }
}

/// Dividing degeneracies by a positive factor does not raise the total.
proof fn lemma_sum_scale_le(s: Seq<QuantumHarmonic>, t: Seq<QuantumHarmonic>, g: int)
    requires
        s.len() == t.len(),
        g >= 1,
        forall|k: int|
            0 <= k < s.len() ==> (#[trigger] t[k]).degeneracy as int * g == s[k].degeneracy as int,
    ensures
        total_deg(t) <= total_deg(s),
    decreases s.len(),
{
    if s.len() > 0 {
        lemma_sum_scale_le(s.drop_last(), t.drop_last(), g);
        assert(t[s.len() - 1].degeneracy as int <= s[s.len() - 1].degeneracy as int)
            by (nonlinear_arith)
            requires
                t[s.len() - 1].degeneracy as int * g == s[s.len() - 1].degeneracy as int,
                g >= 1,
                t[s.len() - 1].degeneracy >= 0,
        ;
    }
}

/// Whether `a` comes strictly before `b` in the presentation order.
fn h_before_exec(a: &QuantumHarmonic, b: &QuantumHarmonic) -> (r: bool)
    requires
        a.board.wf(),
        b.board.wf(),
    ensures
        r == h_before(*a, *b),
{
    a.degeneracy > b.degeneracy || (a.degeneracy == b.degeneracy && a.board.before(&b.board))
}

/// The degeneracy of `h` if its square `(x, y)` holds exactly `sq`.
pub open spec fn eq_contrib(x: int, y: int, sq: Square) -> spec_fn(QuantumHarmonic) -> int {
    |h: QuantumHarmonic|
        if h.board.at(x, y) == sq {
            h.degeneracy as int
        } else {
            0
        }
}

/// A sum of contributions that all vanish is zero.
proof fn lemma_sum_zero(s: Seq<QuantumHarmonic>, f: spec_fn(QuantumHarmonic) -> int)
    requires
        forall|i: int| 0 <= i < s.len() ==> f(#[trigger] s[i]) == 0,
    ensures
        sum_of(s, f) == 0,
    decreases s.len(),
{
    if s.len() > 0 {
        lemma_sum_zero(s.drop_last(), f);
    }
}

/// Per-square consistency carries over to any selection of the harmonics.
pub proof fn lemma_consistent_at_members(
    a: Seq<QuantumHarmonic>,
    s: Seq<QuantumHarmonic>,
    x: int,
    y: int,
)
    requires
        consistent_at(s, x, y),
        forall|j: int| 0 <= j < a.len() ==> s.contains(#[trigger] a[j]),
    ensures
        consistent_at(a, x, y),
{
    assert forall|j1: int, j2: int|
        0 <= j1 < a.len() && 0 <= j2 < a.len() && (#[trigger] a[j1]).board.at(x, y).spec_is_occupied()
            && (#[trigger] a[j2]).board.at(x, y).spec_is_occupied() implies a[j1].board.at(x, y)
        == a[j2].board.at(x, y) by {
        assert(s.contains(a[j1]) && s.contains(a[j2]));
        let i1 = choose|i: int| 0 <= i < s.len() && s[i] == a[j1];
        let i2 = choose|i: int| 0 <= i < s.len() && s[i] == a[j2];
        assert(s[i1].board.at(x, y) == s[i2].board.at(x, y));
    }
}

/// The two-class bound carries over to any selection of the harmonics.
pub proof fn lemma_at_most_two_at_members(
    a: Seq<QuantumHarmonic>,
    s: Seq<QuantumHarmonic>,
    x: int,
    y: int,
)
    requires
        at_most_two_at(s, x, y),
        forall|j: int| 0 <= j < a.len() ==> s.contains(#[trigger] a[j]),
    ensures
        at_most_two_at(a, x, y),
{
    assert forall|j1: int, j2: int, j3: int|
        0 <= j1 < a.len() && 0 <= j2 < a.len() && 0 <= j3 < a.len() && (#[trigger] a[j1]).board.at(
            x,
            y,
        ).spec_is_occupied() && (#[trigger] a[j2]).board.at(x, y).spec_is_occupied() && (
    #[trigger] a[j3]).board.at(x, y).spec_is_occupied() implies a[j1].board.at(x, y)
        == a[j2].board.at(x, y) || a[j1].board.at(x, y) == a[j3].board.at(x, y) || a[j2].board.at(
        x,
        y,
    ) == a[j3].board.at(x, y) by {
        assert(s.contains(a[j1]) && s.contains(a[j2]) && s.contains(a[j3]));
        let i1 = choose|i: int| 0 <= i < s.len() && s[i] == a[j1];
        let i2 = choose|i: int| 0 <= i < s.len() && s[i] == a[j2];
        let i3 = choose|i: int| 0 <= i < s.len() && s[i] == a[j3];
        assert(s[i1].board.at(x, y) == s[i2].board.at(x, y) || s[i1].board.at(x, y)
            == s[i3].board.at(x, y) || s[i2].board.at(x, y) == s[i3].board.at(x, y));
    }
}

/// Every element of a filtered sequence is an element of the source.
pub proof fn lemma_filter_members_all(s: Seq<QuantumHarmonic>, p: spec_fn(QuantumHarmonic) -> bool)
    ensures
        forall|j: int| 0 <= j < s.filter(p).len() ==> s.contains(#[trigger] s.filter(p)[j]),
{
    assert forall|j: int| 0 <= j < s.filter(p).len() implies s.contains(
        #[trigger] s.filter(p)[j],
    ) by {
        lemma_filter_member(s, p, j);
        let i = choose|i: int| 0 <= i < s.len() && #[trigger] s[i] == s.filter(p)[j];
        assert(s[i] == s.filter(p)[j]);
    }
}

impl QuantumChessboard {
    /// Measures one square: if two distinct occupant values show at
    /// `(x, y)`, draws a coin biased by their degeneracy sums and keeps
    /// only the harmonics where the square holds the winning value or is
    /// empty. Where at most one value shows, nothing changes and no coin
    /// is drawn.
    fn measure_square(&mut self, coin: &mut CoinSource, x: isize, y: isize)
        requires
            well_formed(old(self).harmonics@),
            on_board(x as int, y as int),
            at_most_two_at(old(self).harmonics@, x as int, y as int),
        ensures
            well_formed(final(self).harmonics@),
            consistent_at(final(self).harmonics@, x as int, y as int),
            total_deg(final(self).harmonics@) <= total_deg(old(self).harmonics@),
            exists|p: spec_fn(QuantumHarmonic) -> bool|
                final(self).harmonics@ == #[trigger] old(self).harmonics@.filter(p),
            forall|x2: int, y2: int|
                consistent_at(old(self).harmonics@, x2, y2) ==> consistent_at(
                    final(self).harmonics@,
                    x2,
                    y2,
                ),
            forall|x2: int, y2: int|
                at_most_two_at(old(self).harmonics@, x2, y2) ==> at_most_two_at(
                    final(self).harmonics@,
                    x2,
                    y2,
                ),
            consistent_at(old(self).harmonics@, x as int, y as int) ==> final(self).harmonics@
                == old(self).harmonics@ && *final(coin) == *old(coin),
    {
        let ghost cur = self.harmonics@;
        let n = self.harmonics.len();
        let mut sq1 = empty_square();
        let mut deg1: u64 = 0;
        let mut sq2 = empty_square();
        let mut deg2: u64 = 0;
        let mut k: usize = 0;
        proof {
            assert(cur.take(0) =~= Seq::<QuantumHarmonic>::empty());
        }
        while k < n
            invariant
                well_formed(cur),
                at_most_two_at(cur, x as int, y as int),
                self.harmonics@ == cur,
                on_board(x as int, y as int),
                n == cur.len(),
                0 <= k <= n,
                !sq1.spec_is_occupied() ==> !sq2.spec_is_occupied() && deg1 == 0 && (forall|
                    i: int,
                |
                    0 <= i < k ==> !(#[trigger] cur[i]).board.at(
                        x as int,
                        y as int,
                    ).spec_is_occupied()),
                sq1.spec_is_occupied() ==> deg1 as int == sum_of(
                    cur.take(k as int),
                    eq_contrib(x as int, y as int, sq1),
                ) && deg1 >= 1 && (exists|i: int|
                    0 <= i < k && (#[trigger] cur[i]).board.at(x as int, y as int) == sq1),
                !sq2.spec_is_occupied() ==> deg2 == 0 && (forall|i: int|
                    0 <= i < k && (#[trigger] cur[i]).board.at(
                        x as int,
                        y as int,
                    ).spec_is_occupied() ==> cur[i].board.at(x as int, y as int) == sq1),
                sq2.spec_is_occupied() ==> sq1.spec_is_occupied() && sq2 != sq1 && deg2 as int
                    == sum_of(cur.take(k as int), eq_contrib(x as int, y as int, sq2)) && deg2
                    >= 1 && (exists|i: int|
                    0 <= i < k && (#[trigger] cur[i]).board.at(x as int, y as int) == sq2) && (
                forall|i: int|
                    0 <= i < k && (#[trigger] cur[i]).board.at(
                        x as int,
                        y as int,
                    ).spec_is_occupied() ==> cur[i].board.at(x as int, y as int) == sq1
                        || cur[i].board.at(x as int, y as int) == sq2),
                deg1 as int + deg2 as int <= total_deg(cur.take(k as int)),
            decreases n - k,
        {
            let h = self.harmonics[k];
            proof {
                assert(h == cur[k as int]);
                assert(forall|i: int|
                    0 <= i < cur.len() ==> deg_contrib()(#[trigger] cur[i]) >= 0);
                lemma_sum_take_step(cur, deg_contrib(), k as int);
                lemma_sum_take_le(cur, deg_contrib(), k as int + 1);
            }
            let square = h.board.get(x, y);
            if square.is_occupied() {
                if !sq1.is_occupied() {
                    proof {
                        assert(forall|i: int|
                            0 <= i < cur.take(k as int).len() ==> eq_contrib(
                                x as int,
                                y as int,
                                square,
                            )(#[trigger] cur.take(k as int)[i]) == 0);
                        lemma_sum_zero(cur.take(k as int), eq_contrib(x as int, y as int, square));
                        lemma_sum_take_step(cur, eq_contrib(x as int, y as int, square), k as int);
                    }
                    sq1 = square;
                    deg1 = h.degeneracy;
                } else if square == sq1 {
                    proof {
                        lemma_sum_take_step(cur, eq_contrib(x as int, y as int, sq1), k as int);
                        if sq2.spec_is_occupied() {
                            lemma_sum_take_step(
                                cur,
                                eq_contrib(x as int, y as int, sq2),
                                k as int,
                            );
                        }
                    }
                    deg1 = deg1 + h.degeneracy;
                } else if !sq2.is_occupied() {
                    proof {
                        assert(forall|i: int|
                            0 <= i < cur.take(k as int).len() ==> eq_contrib(
                                x as int,
                                y as int,
                                square,
                            )(#[trigger] cur.take(k as int)[i]) == 0);
                        lemma_sum_zero(cur.take(k as int), eq_contrib(x as int, y as int, square));
                        lemma_sum_take_step(cur, eq_contrib(x as int, y as int, square), k as int);
                        lemma_sum_take_step(cur, eq_contrib(x as int, y as int, sq1), k as int);
                    }
                    sq2 = square;
                    deg2 = h.degeneracy;
                } else {
                    proof {
                        // At most two occupant values show at this square, so
                        // a third occupied value must match the second.
                        let w1 = choose|i: int|
                            0 <= i < k && (#[trigger] cur[i]).board.at(x as int, y as int) == sq1;
                        let w2 = choose|i: int|
                            0 <= i < k && (#[trigger] cur[i]).board.at(x as int, y as int) == sq2;
                        assert(cur[w1].board.at(x as int, y as int) == cur[w2].board.at(
                            x as int,
                            y as int,
                        ) || cur[w1].board.at(x as int, y as int) == cur[k as int].board.at(
                            x as int,
                            y as int,
                        ) || cur[w2].board.at(x as int, y as int) == cur[k as int].board.at(
                            x as int,
                            y as int,
                        ));
                        assert(square == sq2);
                        lemma_sum_take_step(cur, eq_contrib(x as int, y as int, sq2), k as int);
                        lemma_sum_take_step(cur, eq_contrib(x as int, y as int, sq1), k as int);
                    }
                    deg2 = deg2 + h.degeneracy;
                }
            } else {
                proof {
                    if sq1.spec_is_occupied() {
                        lemma_sum_take_step(cur, eq_contrib(x as int, y as int, sq1), k as int);
                    }
                    if sq2.spec_is_occupied() {
                        lemma_sum_take_step(cur, eq_contrib(x as int, y as int, sq2), k as int);
                    }
                }
            }
            k = k + 1;
        }
        proof {
            assert(cur.take(n as int) =~= cur);
        }
        if sq1.is_occupied() && sq2.is_occupied() {
            let den = deg1 + deg2;
            let heads = coin.flip(deg1, den);
            let ghost dropped = if heads {
                sq2
            } else {
                sq1
            };
            let ghost kept_sq = if heads {
                sq1
            } else {
                sq2
            };
            if heads {
                self.retain_square_ne(x, y, sq2);
            } else {
                self.retain_square_ne(x, y, sq1);
            }
            proof {
                let newcur = self.harmonics@;
                let p = keeps_square_ne(x as int, y as int, dropped);
                assert(newcur == cur.filter(p));
                lemma_filter_members_all(cur, p);
                // The winning class's witness survives.
                let w = choose|i: int|
                    0 <= i < n && (#[trigger] cur[i]).board.at(x as int, y as int) == kept_sq;
                assert(p(cur[w]));
                cur.lemma_filter_contains(p, w);
                assert(newcur.contains(cur[w]));
                assert(newcur.len() >= 1);
                // Well-formedness carries over to the survivors.
                assert forall|j: int| 0 <= j < newcur.len() implies (#[trigger] newcur[j]).board.wf()
                    && newcur[j].degeneracy >= 1 by {
                    assert(cur.contains(newcur[j]));
                    let i0 = choose|i0: int| 0 <= i0 < cur.len() && cur[i0] == newcur[j];
                    assert(cur[i0].board.wf() && cur[i0].degeneracy >= 1);
                }
                assert(forall|i: int|
                    0 <= i < cur.len() ==> deg_contrib()(#[trigger] cur[i]) >= 0);
                lemma_sum_filter_le(cur, p, deg_contrib());
                // The collapsed square is now consistent.
                assert forall|j1: int, j2: int|
                    0 <= j1 < newcur.len() && 0 <= j2 < newcur.len() && (#[trigger] newcur[j1]).board.at(
                        x as int,
                        y as int,
                    ).spec_is_occupied() && (#[trigger] newcur[j2]).board.at(
                        x as int,
                        y as int,
                    ).spec_is_occupied() implies newcur[j1].board.at(x as int, y as int)
                    == newcur[j2].board.at(x as int, y as int) by {
                    cur.lemma_filter_pred(p, j1);
                    cur.lemma_filter_pred(p, j2);
                    assert(cur.contains(newcur[j1]) && cur.contains(newcur[j2]));
                    let i1 = choose|i0: int| 0 <= i0 < cur.len() && cur[i0] == newcur[j1];
                    let i2 = choose|i0: int| 0 <= i0 < cur.len() && cur[i0] == newcur[j2];
                    assert(cur[i1].board.at(x as int, y as int) == sq1 || cur[i1].board.at(
                        x as int,
                        y as int,
                    ) == sq2);
                    assert(cur[i2].board.at(x as int, y as int) == sq1 || cur[i2].board.at(
                        x as int,
                        y as int,
                    ) == sq2);
                    assert(newcur[j1].board.at(x as int, y as int) == kept_sq);
                    assert(newcur[j2].board.at(x as int, y as int) == kept_sq);
                }
                // Per-square properties carry over to the survivors.
                assert forall|x2: int, y2: int|
                    consistent_at(cur, x2, y2) implies consistent_at(newcur, x2, y2) by {
                    lemma_consistent_at_members(newcur, cur, x2, y2);
                }
                assert forall|x2: int, y2: int|
                    at_most_two_at(cur, x2, y2) implies at_most_two_at(newcur, x2, y2) by {
                    lemma_at_most_two_at_members(newcur, cur, x2, y2);
                }
                // Two classes coexisted, so this square was not consistent.
                let w1 = choose|i: int|
                    0 <= i < n && (#[trigger] cur[i]).board.at(x as int, y as int) == sq1;
                let w2 = choose|i: int|
                    0 <= i < n && (#[trigger] cur[i]).board.at(x as int, y as int) == sq2;
                assert(!consistent_at(cur, x as int, y as int));
            }
        } else {
            proof {
                assert(consistent_at(cur, x as int, y as int));
                lemma_filter_all_true(cur, keep_all());
                assert(self.harmonics@ == cur.filter(keep_all()));
            }
        }
    }

    /// Performs the measurement pass: visits the 64 squares in `y * 8 + x`
    /// order, and wherever a square currently shows two distinct occupant
    /// values, draws a coin biased by their degeneracy sums and keeps only
    /// the harmonics consistent with the winning value (harmonics where
    /// the square is empty always survive). On an already consistent
    /// superposition nothing changes and no coin is drawn.
    pub fn perform_measurements(&mut self, coin: &mut CoinSource)
        requires
            well_formed(old(self).harmonics@),
            at_most_two(old(self).harmonics@),
        ensures
            well_formed(final(self).harmonics@),
            consistent(final(self).harmonics@),
            total_deg(final(self).harmonics@) <= total_deg(old(self).harmonics@),
            exists|keep: spec_fn(QuantumHarmonic) -> bool|
                final(self).harmonics@ == #[trigger] old(self).harmonics@.filter(keep),
            consistent(old(self).harmonics@) ==> final(self).harmonics@ == old(self).harmonics@
                && *final(coin) == *old(coin),
    {
        let ghost pre = self.harmonics@;
        let ghost coin0 = *coin;
        let ghost mut kept: spec_fn(QuantumHarmonic) -> bool = keep_all();
        proof {
            lemma_filter_all_true(pre, kept);
        }
        let mut ind: usize = 0;
        while ind < 64
            invariant
                well_formed(pre),
                at_most_two(pre),
                consistent(pre) ==> self.harmonics@ == pre && *coin == coin0,
                well_formed(self.harmonics@),
                at_most_two(self.harmonics@),
                total_deg(self.harmonics@) <= total_deg(pre),
                self.harmonics@ == pre.filter(kept),
                0 <= ind <= 64,
                forall|x: int, y: int|
                    on_board(x, y) && y * 8 + x < ind ==> consistent_at(self.harmonics@, x, y),
            decreases 64 - ind,
        {
            let ghost cur = self.harmonics@;
            let ghost coin_in = *coin;
            let (x, y) = Chessboard::unindex(ind);
            self.measure_square(coin, x, y);
            proof {
                let newcur = self.harmonics@;
                let p = choose|p: spec_fn(QuantumHarmonic) -> bool|
                    newcur == #[trigger] cur.filter(p);
                let prev = kept;
                kept = |h: QuantumHarmonic| prev(h) && p(h);
                lemma_filter_compose(pre, prev, p, kept);
                if consistent(pre) {
                    assert(cur == pre);
                    assert(consistent_at(cur, x as int, y as int));
                }
                assert forall|x2: int, y2: int|
                    on_board(x2, y2) && y2 * 8 + x2 < ind + 1 implies consistent_at(
                    newcur,
                    x2,
                    y2,
                ) by {
                    if y2 * 8 + x2 < ind {
                        assert(consistent_at(cur, x2, y2));
                    } else {
                        assert(x2 == x as int && y2 == y as int);
                    }
                }
            }
            ind = ind + 1;
        }
        proof {
            assert forall|x: int, y: int| on_board(x, y) implies consistent_at(
                self.harmonics@,
                x,
                y,
            ) by {
                assert(y * 8 + x < 64);
            }
        }
    }
}

/// A consistent superposition in particular shows at most two occupant
/// values on every square.
pub proof fn lemma_consistent_at_most_two(s: Seq<QuantumHarmonic>)
    requires
        consistent(s),
    ensures
        at_most_two(s),
{
}

/// A positive occupied weight at a square names an occupying harmonic.
pub proof fn lemma_occ_member(s: Seq<QuantumHarmonic>, x: int, y: int)
    requires
        occ_deg(s, x, y) > 0,
    ensures
        exists|i: int|
            0 <= i < s.len() && (#[trigger] s[i]).board.at(x, y).spec_is_occupied(),
    decreases s.len(),
{
    if s.len() > 0 {
        if s.last().board.at(x, y).spec_is_occupied() {
            assert(s[s.len() - 1].board.at(x, y).spec_is_occupied());
        } else {
            lemma_occ_member(s.drop_last(), x, y);
            let i = choose|i: int|
                0 <= i < s.drop_last().len() && (#[trigger] s.drop_last()[i]).board.at(
                    x,
                    y,
                ).spec_is_occupied();
            assert(s[i].board.at(x, y).spec_is_occupied());
        }
    }
}

/// An occupied weight strictly below the total names a harmonic whose
/// square `(x, y)` is empty.
pub proof fn lemma_unocc_member(s: Seq<QuantumHarmonic>, x: int, y: int)
    requires
        occ_deg(s, x, y) < total_deg(s),
    ensures
        exists|i: int|
            0 <= i < s.len() && !(#[trigger] s[i]).board.at(x, y).spec_is_occupied(),
    decreases s.len(),
{
    if s.len() > 0 {
        if !s.last().board.at(x, y).spec_is_occupied() {
            assert(!s[s.len() - 1].board.at(x, y).spec_is_occupied());
        } else {
            lemma_unocc_member(s.drop_last(), x, y);
            let i = choose|i: int|
                0 <= i < s.drop_last().len() && !(#[trigger] s.drop_last()[i]).board.at(
                    x,
                    y,
                ).spec_is_occupied();
            assert(!s[i].board.at(x, y).spec_is_occupied());
        }
    }
}

/// Filtering preserves well-formed boards, positivity, and consistency,
/// and does not raise the total degeneracy.
pub proof fn lemma_filter_superpose(s: Seq<QuantumHarmonic>, p: spec_fn(QuantumHarmonic) -> bool)
    ensures
        boards_wf(s) ==> boards_wf(s.filter(p)),
        positivity(s) ==> positivity(s.filter(p)),
        consistent(s) ==> consistent(s.filter(p)),
        total_deg(s.filter(p)) <= total_deg(s),
{
    let a = s.filter(p);
    lemma_filter_members_all(s, p);
    if boards_wf(s) || positivity(s) {
        assert forall|j: int|
            0 <= j < a.len() implies (boards_wf(s) ==> (#[trigger] a[j]).board.wf()) && (
            positivity(s) ==> a[j].degeneracy >= 1) by {
            assert(s.contains(a[j]));
            let i = choose|i: int| 0 <= i < s.len() && s[i] == a[j];
            assert(boards_wf(s) ==> s[i].board.wf());
            assert(positivity(s) ==> s[i].degeneracy >= 1);
        }
    }
    if consistent(s) {
        assert forall|x: int, y: int| on_board(x, y) implies consistent_at(a, x, y) by {
            lemma_consistent_at_members(a, s, x, y);
        }
    }
    assert(forall|i: int| 0 <= i < s.len() ==> deg_contrib()(#[trigger] s[i]) >= 0);
    lemma_sum_filter_le(s, p, deg_contrib());
}

/// Any board weight is non-negative.
pub proof fn lemma_weight_nonneg(s: Seq<QuantumHarmonic>, b: Seq<Square>)
    ensures
        weight(s, b) >= 0,
{
    assert(forall|i: int| 0 <= i < s.len() ==> board_contrib(b)(#[trigger] s[i]) >= 0);
    lemma_sum_nonneg(s, board_contrib(b));
}

/// Consistency passes to any superposition whose boards all appear in a
/// consistent one.
pub proof fn lemma_consistent_boards_members(a: Seq<QuantumHarmonic>, s: Seq<QuantumHarmonic>)
    requires
        consistent(s),
        forall|j: int|
            0 <= j < a.len() ==> exists|i: int|
                0 <= i < s.len() && (#[trigger] a[j]).board@ == s[i].board@,
    ensures
        consistent(a),
{
    assert forall|x: int, y: int| on_board(x, y) implies consistent_at(a, x, y) by {
        assert forall|j1: int, j2: int|
            0 <= j1 < a.len() && 0 <= j2 < a.len() && (#[trigger] a[j1]).board.at(
                x,
                y,
            ).spec_is_occupied() && (#[trigger] a[j2]).board.at(x, y).spec_is_occupied() implies
            a[j1].board.at(x, y) == a[j2].board.at(x, y) by {
            let i1 = choose|i: int| 0 <= i < s.len() && a[j1].board@ == s[i].board@;
            let i2 = choose|i: int| 0 <= i < s.len() && a[j2].board@ == s[i].board@;
            assert(a[j1].board.at(x, y) == s[i1].board.at(x, y));
            assert(a[j2].board.at(x, y) == s[i2].board.at(x, y));
            assert(consistent_at(s, x, y));
        }
    }
}

/// How the post-move pipeline relates its input to its output: a
/// measurement keeps an order-preserving selection of the harmonics (all
/// of them when the input is already consistent), and regrouping plus
/// normalization divide every board weight by one common positive factor,
/// leaving a sorted, duplicate-free, normalized superposition.
pub open spec fn pipeline_shape(pre: Seq<QuantumHarmonic>, post: Seq<QuantumHarmonic>) -> bool {
    &&& distinct_boards(post)
    &&& sorted_desc(post)
    &&& positivity(post)
    &&& boards_wf(post)
    &&& normalized(post)
    &&& exists|keep: spec_fn(QuantumHarmonic) -> bool, g: int|
        consistent(pre.filter(keep)) && (consistent(pre) ==> pre.filter(keep) == pre) && g >= 1
            && #[trigger] weights_divided_by(pre.filter(keep), post, g)
}

/// Law: the post-move pipeline is idempotent. Running measurement,
/// regrouping and normalization over an already settled superposition
/// gives back the very same superposition: the measurement keeps
/// everything, and the weights are divided by a gcd that is already one.
pub proof fn lemma_pipeline_idempotent(pre: Seq<QuantumHarmonic>, post: Seq<QuantumHarmonic>)
    requires
        settled(pre),
        pipeline_shape(pre, post),
    ensures
        post =~= pre,
{
    let (keep, g): (spec_fn(QuantumHarmonic) -> bool, int) = choose|
        keep: spec_fn(QuantumHarmonic) -> bool,
        g: int,
    |
        consistent(pre.filter(keep)) && (consistent(pre) ==> pre.filter(keep) == pre) && g >= 1
            && #[trigger] weights_divided_by(pre.filter(keep), post, g);
    assert(pre.filter(keep) == pre);
    assert(weights_divided_by(pre, post, g));
    // The factor divides every degeneracy of a settled superposition,
    // whose degeneracies have gcd one; so the factor is one.
    assert forall|i: int| 0 <= i < pre.len() implies divides(
        g,
        (#[trigger] pre[i]).degeneracy as int,
    ) by {
        lemma_weight_distinct(pre, i);
        assert(weight(pre, pre[i].board@) == g * weight(post, pre[i].board@));
        lemma_weight_nonneg(post, pre[i].board@);
        assert(pre[i].degeneracy as int == g * weight(post, pre[i].board@));
    }
    lemma_seq_gcd_greatest(pre, g);
    lemma_divides_le(g, seq_gcd(pre) as int);
    assert(g == 1);
    assert forall|b: Seq<Square>| weight(pre, b) == weight(post, b) by {
        assert(weight(pre, b) == g * weight(post, b));
        assert(1 * weight(post, b) == weight(post, b)) by (nonlinear_arith);
    }
    lemma_sorted_weights_unique(pre, post);
}

/// Keeps every harmonic.
pub open spec fn keep_all() -> spec_fn(QuantumHarmonic) -> bool {
    |h: QuantumHarmonic| true
}

/// Computes the greatest common divisor of `a` and `b`.
pub fn gcd_u64(a: u64, b: u64) -> (r: u64)
    ensures
        r as nat == gcd(a as nat, b as nat),
{
    let mut x = a;
    let mut y = b;
    while x != 0
        invariant
            gcd(x as nat, y as nat) == gcd(a as nat, b as nat),
        decreases x,
    {
        let t = y % x;
        y = x;
        x = t;
    }
    y
}

} // verus!

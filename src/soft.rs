use vstd::prelude::*;
use crate::edit::{edit_distance, lemma_edit_distance_bound, lemma_edit_distance_self, levenstein_distance};
use crate::score::{Score, SoftMatrix, lemma_u32_product_fits, lemma_u32_triple_fits, matrix_wf};

verus! {

/// A sentence: the token ids of its words, in order.
pub type Sent = Vec<usize>;

/// Absolute value of an integer.
pub open spec fn abs(x: int) -> int {
    if x >= 0 { x } else { -x }
}

/// Numerator of the diagonal prior `1 - |pos1 / l1 - pos2 / l2|` over the denominator `l1 * l2`.
pub open spec fn diagonal_num(pos1: int, l1: int, pos2: int, l2: int) -> int {
    l1 * l2 - abs(pos1 * l2 - pos2 * l1)
}

/// The diagonal prior of source position `pos1` of `l1` and target position `pos2` of `l2`.
pub open spec fn diagonal_cell(cell: Score, pos1: int, l1: int, pos2: int, l2: int) -> bool {
    &&& cell.num == diagonal_num(pos1, l1, pos2, l2)
    &&& cell.den == l1 * l2
    &&& cell.wf()
}

/// `m` is a `rows` by `cols` matrix.
pub open spec fn has_shape(m: Seq<Vec<Score>>, rows: int, cols: int) -> bool {
    &&& m.len() == rows
    &&& forall|t: int| 0 <= t < rows ==> (#[trigger] m[t])@.len() == cols
}

/// `m` holds the diagonal prior for a pair of sentences of lengths `l1` (source) and `l2` (target).
pub open spec fn is_diagonal_matrix(m: Seq<Vec<Score>>, l1: int, l2: int) -> bool {
    &&& has_shape(m, l2, l1)
    &&& forall|t: int, s: int|
        0 <= t < l2 && 0 <= s < l1 ==> diagonal_cell(#[trigger] m[t]@[s], s, l1, t, l2)
}

/// Both sentence lengths of the pair multiply to a number that fits a score's denominator.
pub open spec fn diagonal_fits(pair: (Sent, Sent)) -> bool {
    pair.0@.len() * pair.1@.len() <= u32::MAX
}

proof fn lemma_mul_lt(p: int, l: int, k: int)
    requires
        0 <= p < l,
        0 <= k,
    ensures
        0 <= p * k <= l * k,
{
    assert(0 <= p * k <= l * k) by (nonlinear_arith)
        requires
            0 <= p < l,
            0 <= k,
    ;
}

/// The diagonal prior matrix of one sentence pair.
fn diagonal_one(l1: usize, l2: usize) -> (m: SoftMatrix)
    requires
        l1 * l2 <= u32::MAX,
    ensures
        is_diagonal_matrix(m@, l1 as int, l2 as int),
{
    let mut m: SoftMatrix = Vec::new();
    let mut t: usize = 0;
    while t < l2
        invariant
            t <= l2,
            l1 * l2 <= u32::MAX,
            has_shape(m@, t as int, l1 as int),
            forall|t0: int, s: int|
                0 <= t0 < t && 0 <= s < l1 ==> diagonal_cell(
                    #[trigger] m@[t0]@[s],
                    s,
                    l1 as int,
                    t0,
                    l2 as int,
                ),
        decreases l2 - t,
    {
        let mut row: Vec<Score> = Vec::new();
        let mut s: usize = 0;
        while s < l1
            invariant
                s <= l1,
                t < l2,
                l1 * l2 <= u32::MAX,
                row@.len() == s,
                forall|s0: int|
                    0 <= s0 < s ==> diagonal_cell(#[trigger] row@[s0], s0, l1 as int, t as int, l2 as int),
            decreases l1 - s,
        {
            proof {
                lemma_mul_lt(s as int, l1 as int, l2 as int);
                lemma_mul_lt(t as int, l2 as int, l1 as int);
                assert(l1 * l2 == l2 * l1) by (nonlinear_arith);
            }
            assert(l1 * l2 > 0) by (nonlinear_arith)
                requires
                    s < l1,
                    t < l2,
            ;
            let den: u64 = (l1 as u64) * (l2 as u64);
            let a: u64 = (s as u64) * (l2 as u64);
            let b: u64 = (t as u64) * (l1 as u64);
            let diff: u64 = if a >= b { a - b } else { b - a };
            row.push(Score { num: (den - diff) as u32, den: den as u32 });
            s = s + 1;
        }
        m.push(row);
        t = t + 1;
    }
    m
}

/// The positional-diagonal prior of every sentence pair: the score of target position `t` and
/// source position `s` is `1 - |s / l1 - t / l2|`, as the exact fraction
/// `(l1 * l2 - |s * l2 - t * l1|) / (l1 * l2)`.
pub fn diagonal(sents: &[(Sent, Sent)]) -> (scores: Vec<SoftMatrix>)
    requires
        forall|i: int| 0 <= i < sents@.len() ==> diagonal_fits(#[trigger] sents@[i]),
    ensures
        scores@.len() == sents@.len(),
        forall|i: int|
            0 <= i < sents@.len() ==> is_diagonal_matrix(
                #[trigger] scores@[i]@,
                sents@[i].0@.len() as int,
                sents@[i].1@.len() as int,
            ),
{
    let mut scores: Vec<SoftMatrix> = Vec::new();
    let mut i: usize = 0;
    while i < sents.len()
        invariant
            i <= sents@.len(),
            forall|i: int| 0 <= i < sents@.len() ==> diagonal_fits(#[trigger] sents@[i]),
            scores@.len() == i,
            forall|k: int|
                0 <= k < i ==> is_diagonal_matrix(
                    #[trigger] scores@[k]@,
                    sents@[k].0@.len() as int,
                    sents@[k].1@.len() as int,
                ),
        decreases sents@.len() - i,
    {
        assert(diagonal_fits(sents@[i as int]));
        let m = diagonal_one(sents[i].0.len(), sents[i].1.len());
        scores.push(m);
        i = i + 1;
    }
    scores
}

/// In a diagonal prior matrix the first source and first target positions score exactly one,
/// whatever the two sentence lengths.
pub proof fn diagonal_first_cell_is_one(m: Seq<Vec<Score>>, l1: int, l2: int)
    requires
        l1 > 0,
        l2 > 0,
        is_diagonal_matrix(m, l1, l2),
    ensures
        m[0]@[0].is_one(),
{
    assert(diagonal_cell(m[0]@[0], 0, l1, 0, l2));
}

/// In a diagonal prior matrix of two sentences of one length, the last source and last target
/// positions score exactly one.
pub proof fn diagonal_last_cell_is_one(m: Seq<Vec<Score>>, l: int)
    requires
        l > 0,
        is_diagonal_matrix(m, l, l),
    ensures
        m[l - 1]@[l - 1].is_one(),
{
    assert(diagonal_cell(m[l - 1]@[l - 1], l - 1, l, l - 1, l));
}

/// Reversing both sentences of a pair of one length leaves the diagonal prior unchanged: the
/// score of `(s, t)` equals that of the mirrored positions `(l - 1 - s, l - 1 - t)`.
pub proof fn diagonal_reversal_symmetric(m: Seq<Vec<Score>>, l: int, s: int, t: int)
    requires
        is_diagonal_matrix(m, l, l),
        0 <= s < l,
        0 <= t < l,
    ensures
        m[t]@[s] == m[l - 1 - t]@[l - 1 - s],
{
    assert(diagonal_cell(m[t]@[s], s, l, t, l));
    assert(diagonal_cell(m[l - 1 - t]@[l - 1 - s], l - 1 - s, l, l - 1 - t, l));
    assert((l - 1 - s) * l - (l - 1 - t) * l == -(s * l - t * l)) by (nonlinear_arith);
}

/// Numerator of the lexical similarity `1 - d / (|w1| + |w2|)` over the denominator
/// `|w1| + |w2|`, where `d` is the edit distance of the two words.
pub open spec fn lexical_num(w1: Seq<char>, w2: Seq<char>) -> int {
    w1.len() + w2.len() - edit_distance(w1, w2)
}

/// `cell` is the lexical similarity of words `w1` and `w2`.
pub open spec fn lexical_cell(cell: Score, w1: Seq<char>, w2: Seq<char>) -> bool {
    &&& cell.num == lexical_num(w1, w2)
    &&& cell.den == w1.len() + w2.len()
}

/// Two words whose similarity is defined: not both empty, and short enough for a score.
pub open spec fn words_fit(w1: Seq<char>, w2: Seq<char>) -> bool {
    0 < w1.len() + w2.len() < u32::MAX
}

/// Every token of the pair is in its vocabulary, and every word pair has a defined similarity.
pub open spec fn lexical_fits(pair: (Sent, Sent), words1: Seq<Vec<char>>, words2: Seq<Vec<char>>) -> bool {
    &&& forall|s: int| 0 <= s < pair.0@.len() ==> #[trigger] pair.0@[s] < words1.len()
    &&& forall|t: int| 0 <= t < pair.1@.len() ==> #[trigger] pair.1@[t] < words2.len()
    &&& forall|s: int, t: int|
        0 <= s < pair.0@.len() && 0 <= t < pair.1@.len() ==> words_fit(
            words1[#[trigger] pair.0@[s] as int]@,
            words2[#[trigger] pair.1@[t] as int]@,
        )
}

/// `m` holds the lexical similarity of every source and target word of a sentence pair.
pub open spec fn is_lexical_matrix(
    m: Seq<Vec<Score>>,
    pair: (Sent, Sent),
    words1: Seq<Vec<char>>,
    words2: Seq<Vec<char>>,
) -> bool {
    &&& has_shape(m, pair.1@.len() as int, pair.0@.len() as int)
    &&& forall|t: int, s: int|
        0 <= t < pair.1@.len() && 0 <= s < pair.0@.len() ==> lexical_cell(
            #[trigger] m[t]@[s],
            words1[pair.0@[s] as int]@,
            words2[pair.1@[t] as int]@,
        )
}

/// The lexical similarity of two words.
pub fn word_similarity(w1: &Vec<char>, w2: &Vec<char>) -> (r: Score)
    requires
        words_fit(w1@, w2@),
    ensures
        lexical_cell(r, w1@, w2@),
        r.wf(),
{
    let d = levenstein_distance(w1, w2);
    proof {
        lemma_edit_distance_bound(w1@, w2@);
    }
    let den = (w1.len() + w2.len()) as u32;
    Score { num: den - d as u32, den }
}

/// The lexical similarity matrix of one sentence pair.
fn levenstein_one(pair: &(Sent, Sent), words1: &Vec<Vec<char>>, words2: &Vec<Vec<char>>) -> (m: SoftMatrix)
    requires
        lexical_fits(*pair, words1@, words2@),
    ensures
        is_lexical_matrix(m@, *pair, words1@, words2@),
{
    let sent1 = &pair.0;
    let sent2 = &pair.1;
    let mut m: SoftMatrix = Vec::new();
    let mut t: usize = 0;
    while t < sent2.len()
        invariant
            t <= sent2@.len(),
            sent1 == pair.0,
            sent2 == pair.1,
            lexical_fits(*pair, words1@, words2@),
            has_shape(m@, t as int, sent1@.len() as int),
            forall|t0: int, s: int|
                0 <= t0 < t && 0 <= s < sent1@.len() ==> lexical_cell(
                    #[trigger] m@[t0]@[s],
                    words1@[sent1@[s] as int]@,
                    words2@[sent2@[t0] as int]@,
                ),
        decreases sent2@.len() - t,
    {
        let w2 = &words2[sent2[t]];
        let mut row: Vec<Score> = Vec::new();
        let mut s: usize = 0;
        while s < sent1.len()
            invariant
                s <= sent1@.len(),
                t < sent2@.len(),
                sent1 == pair.0,
                sent2 == pair.1,
                *w2 == words2@[sent2@[t as int] as int],
                lexical_fits(*pair, words1@, words2@),
                row@.len() == s,
                forall|s0: int|
                    0 <= s0 < s ==> lexical_cell(#[trigger] row@[s0], words1@[sent1@[s0] as int]@, w2@),
            decreases sent1@.len() - s,
        {
            let w1 = &words1[sent1[s]];
            assert(words_fit(words1@[sent1@[s as int] as int]@, words2@[sent2@[t as int] as int]@));
            row.push(word_similarity(w1, w2));
            s = s + 1;
        }
        m.push(row);
        t = t + 1;
    }
    m
}

/// The lexical-similarity score of every sentence pair: target position `t` and source position
/// `s` score `1 - d / (|w1| + |w2|)`, where `w1` is the source word at `s` (looked up in
/// `words1` by its token id), `w2` the target word at `t` (in `words2`) and `d` their
/// Levenshtein distance.
pub fn levenstein(sents: &[(Sent, Sent)], words1: &Vec<Vec<char>>, words2: &Vec<Vec<char>>) -> (scores: Vec<SoftMatrix>)
    requires
        forall|i: int| 0 <= i < sents@.len() ==> lexical_fits(#[trigger] sents@[i], words1@, words2@),
    ensures
        scores@.len() == sents@.len(),
        forall|i: int|
            0 <= i < sents@.len() ==> is_lexical_matrix(#[trigger] scores@[i]@, sents@[i], words1@, words2@),
{
    let mut scores: Vec<SoftMatrix> = Vec::new();
    let mut i: usize = 0;
    while i < sents.len()
        invariant
            i <= sents@.len(),
            forall|i: int| 0 <= i < sents@.len() ==> lexical_fits(#[trigger] sents@[i], words1@, words2@),
            scores@.len() == i,
            forall|k: int|
                0 <= k < i ==> is_lexical_matrix(#[trigger] scores@[k]@, sents@[k], words1@, words2@),
        decreases sents@.len() - i,
    {
        assert(lexical_fits(sents@[i as int], words1@, words2@));
        let m = levenstein_one(&sents[i], words1, words2);
        scores.push(m);
        i = i + 1;
    }
    scores
}

/// Every row of `m` is as long as the first.
pub open spec fn rectangular(m: Seq<Vec<Score>>) -> bool {
    forall|t: int| 0 <= t < m.len() ==> (#[trigger] m[t])@.len() == m[0]@.len()
}

/// A smoothing weight: `alpha = an / ad` with `0 <= alpha <= 1 / 4`.
pub open spec fn valid_alpha(alpha: Score) -> bool {
    alpha.den > 0 && 4 * alpha.num <= alpha.den
}

/// Position `(t, s)` lies on the first or last row or column of `m`.
pub open spec fn on_border(m: Seq<Vec<Score>>, t: int, s: int) -> bool {
    t == 0 || s == 0 || t == m.len() - 1 || s == m[t]@.len() - 1
}

/// The five-point stencil at interior cell `(t, s)` as one fraction over the product of
/// `alpha`'s denominator and the five cells' denominators: `alpha` times each of the four
/// neighbours plus `1 - 4 * alpha` times the cell itself.
pub open spec fn stencil(m: Seq<Vec<Score>>, t: int, s: int, alpha: Score) -> (int, int) {
    let u = m[t - 1]@[s];
    let w = m[t + 1]@[s];
    let l = m[t]@[s - 1];
    let r = m[t]@[s + 1];
    let c = m[t]@[s];
    let an = alpha.num as int;
    let ad = alpha.den as int;
    let pu = w.den as int * l.den as int * r.den as int * c.den as int;
    let pw = u.den as int * l.den as int * r.den as int * c.den as int;
    let pl = u.den as int * w.den as int * r.den as int * c.den as int;
    let pr = u.den as int * w.den as int * l.den as int * c.den as int;
    let pc = u.den as int * w.den as int * l.den as int * r.den as int;
    (
        an * (u.num as int * pu + w.num as int * pw + l.num as int * pl + r.num as int * pr) + (ad - 4
            * an) * (c.num as int * pc),
        ad * u.den as int * w.den as int * l.den as int * r.den as int * c.den as int,
    )
}

/// The four neighbours of interior cell `(t, s)` share its denominator.
pub open spec fn same_dens(m: Seq<Vec<Score>>, t: int, s: int) -> bool {
    let d = m[t]@[s].den;
    m[t - 1]@[s].den == d && m[t + 1]@[s].den == d && m[t]@[s - 1].den == d && m[t]@[s + 1].den == d
}

/// The smoothed cell `(t, s)` as (numerator, denominator). A border cell, or any cell when
/// `alpha` is zero, is kept as it is. An interior cell is the stencil: over the common
/// denominator times `alpha`'s when its neighbours share its denominator, else over the
/// product of all denominators.
pub open spec fn blur_cell(m: Seq<Vec<Score>>, t: int, s: int, alpha: Score) -> (int, int) {
    let c = m[t]@[s];
    if on_border(m, t, s) || alpha.num == 0 {
        (c.num as int, c.den as int)
    } else if same_dens(m, t, s) {
        let an = alpha.num as int;
        let ad = alpha.den as int;
        (
            an * (m[t - 1]@[s].num + m[t + 1]@[s].num + m[t]@[s - 1].num + m[t]@[s + 1].num) + (ad - 4
                * an) * c.num,
            c.den * ad,
        )
    } else {
        stencil(m, t, s, alpha)
    }
}

/// The matrix can be smoothed by `alpha`: rectangular, every denominator positive, and every
/// smoothed cell small enough for a score.
pub open spec fn blur_fits(m: Seq<Vec<Score>>, alpha: Score) -> bool {
    &&& rectangular(m)
    &&& matrix_wf(m)
    &&& forall|t: int, s: int|
        0 <= t < m.len() && 0 <= s < m[t]@.len() ==> (#[trigger] blur_cell(m, t, s, alpha)).0 <= u32::MAX
            && blur_cell(m, t, s, alpha).1 <= u32::MAX
}

/// `out` is `m` smoothed by `alpha`, cell by cell.
pub open spec fn is_blurred(out: Seq<Vec<Score>>, m: Seq<Vec<Score>>, alpha: Score) -> bool {
    &&& has_shape(out, m.len() as int, if m.len() == 0 { 0 } else { m[0]@.len() as int })
    &&& forall|t: int, s: int|
        0 <= t < m.len() && 0 <= s < m[t]@.len() ==> (#[trigger] out[t]@[s]).num == blur_cell(m, t, s, alpha).0
            && out[t]@[s].den == blur_cell(m, t, s, alpha).1
}

/// `x <= x * k` for a non-negative `x` and `k >= 1`.
proof fn lemma_le_mul(x: int, k: int)
    requires
        0 <= x,
        1 <= k,
    ensures
        x <= x * k,
{
    assert(x <= x * k) by (nonlinear_arith)
        requires
            0 <= x,
            1 <= k,
    ;
}

/// A product of four `u32` values fits in a `u128`.
proof fn lemma_u32_quad_fits(a: int, b: int, c: int, d: int)
    requires
        0 <= a <= u32::MAX,
        0 <= b <= u32::MAX,
        0 <= c <= u32::MAX,
        0 <= d <= u32::MAX,
    ensures
        0 <= a * b <= u64::MAX,
        0 <= a * b * c <= 0x1_0000_0000_0000_0000_0000_0000,
        0 <= a * b * c * d <= u128::MAX,
{
    lemma_u32_product_fits(a, b);
    lemma_u32_triple_fits(a, b, c);
    let x = a * b * c;
    assert(0 <= x * d <= u128::MAX) by (nonlinear_arith)
        requires
            0 <= x <= 0x1_0000_0000_0000_0000_0000_0000,
            0 <= d <= u32::MAX,
    ;
}

/// The product of four denominators, in a `u128`.
fn den_product(a: Score, b: Score, c: Score, d: Score) -> (p: u128)
    ensures
        p == a.den as int * b.den as int * c.den as int * d.den as int,
{
    proof {
        lemma_u32_quad_fits(a.den as int, b.den as int, c.den as int, d.den as int);
    }
    (a.den as u128) * (b.den as u128) * (c.den as u128) * (d.den as u128)
}

/// The smoothed value of an interior cell whose weight `alpha` is not zero.
fn blur_interior(m: &SoftMatrix, t: usize, s: usize, alpha: Score) -> (out: Score)
    requires
        valid_alpha(alpha),
        alpha.num > 0,
        blur_fits(m@, alpha),
        0 < t < m@.len() - 1,
        0 < s < m@[t as int]@.len() - 1,
    ensures
        out.num == blur_cell(m@, t as int, s as int, alpha).0,
        out.den == blur_cell(m@, t as int, s as int, alpha).1,
{
    let ghost mm = m@;
    assert(m@[t - 1]@.len() == m@[0]@.len() && m@[t + 1]@.len() == m@[0]@.len() && m@[t as int]@.len()
        == m@[0]@.len());
    let rows = m.len();
    let cols = m[t].len();
    assert(t + 1 < rows && s + 1 < cols);
    let u = m[t - 1][s];
    let w = m[t + 1][s];
    let l = m[t][s - 1];
    let r = m[t][s + 1];
    let c = m[t][s];
    assert(u.wf() && w.wf() && l.wf() && r.wf() && c.wf()) by {
        assert(mm[t - 1]@[s as int].wf());
        assert(mm[t + 1]@[s as int].wf());
        assert(mm[t as int]@[s - 1].wf());
        assert(mm[t as int]@[s + 1].wf());
        assert(mm[t as int]@[s as int].wf());
    }
    let an = alpha.num as u128;
    let ad = alpha.den as u128;
    let ghost cell = blur_cell(m@, t as int, s as int, alpha);
    assert(cell.0 <= u32::MAX && cell.1 <= u32::MAX);
    assert(!on_border(m@, t as int, s as int));
    if u.den == c.den && w.den == c.den && l.den == c.den && r.den == c.den {
        let sum = (u.num as u128) + (w.num as u128) + (l.num as u128) + (r.num as u128);
        proof {
            lemma_u32_product_fits(c.den as int, ad as int);
            assert(0 <= an * sum <= u32::MAX as int * 0x4_0000_0000) by (nonlinear_arith)
                requires
                    0 <= an <= u32::MAX,
                    0 <= sum <= 0x4_0000_0000,
            ;
            lemma_u32_product_fits((ad - 4 * an) as int, c.num as int);
        }
        let num = an * sum + (ad - 4 * an) * (c.num as u128);
        assert(same_dens(m@, t as int, s as int));
        assert(num == cell.0);
        Score { num: num as u32, den: ((c.den as u128) * ad) as u32 }
    } else {
        let pu = den_product(w, l, r, c);
        let pw = den_product(u, l, r, c);
        let pl = den_product(u, w, r, c);
        let pr = den_product(u, w, l, c);
        let pc = den_product(u, w, l, r);
        let ghost tu = u.num as int * pu;
        let ghost tw = w.num as int * pw;
        let ghost tl = l.num as int * pl;
        let ghost tr = r.num as int * pr;
        let ghost center = (ad - 4 * an) as int * (c.num as int * pc);
        proof {
            assert(0 <= tu && 0 <= tw && 0 <= tl && 0 <= tr) by (nonlinear_arith)
                requires
                    tu == u.num as int * pu,
                    tw == w.num as int * pw,
                    tl == l.num as int * pl,
                    tr == r.num as int * pr,
                    0 <= pu,
                    0 <= pw,
                    0 <= pl,
                    0 <= pr,
            ;
            assert(0 <= center) by (nonlinear_arith)
                requires
                    center == (ad - 4 * an) as int * (c.num as int * pc),
                    0 <= ad - 4 * an,
                    0 <= pc,
            ;
            lemma_le_mul(tu + tw + tl + tr, an as int);
            assert((tu + tw + tl + tr) * an == an * (tu + tw + tl + tr)) by (nonlinear_arith);
            assert(cell.0 == an * (tu + tw + tl + tr) + center);
            assert(tu + tw + tl + tr <= u32::MAX);
        }
        let sum = (u.num as u128) * pu + (w.num as u128) * pw + (l.num as u128) * pl + (r.num as u128) * pr;
        let center_part: u128 = if ad - 4 * an == 0 {
            0
        } else {
            proof {
                lemma_le_mul(c.num as int * pc, (ad - 4 * an) as int);
                assert((c.num as int * pc) * (ad - 4 * an) == center) by (nonlinear_arith)
                    requires
                        center == (ad - 4 * an) as int * (c.num as int * pc),
                ;
                assert(an * (tu + tw + tl + tr) >= 0) by (nonlinear_arith)
                    requires
                        an >= 0,
                        tu + tw + tl + tr >= 0,
                ;
            }
            (ad - 4 * an) * ((c.num as u128) * pc)
        };
        let num = an * sum + center_part;
        assert(center_part == center) by (nonlinear_arith)
            requires
                center == (ad - 4 * an) as int * (c.num as int * pc),
                ad - 4 * an == 0 ==> center_part == 0,
                ad - 4 * an != 0 ==> center_part == (ad - 4 * an) * ((c.num as int) * pc),
        ;
        assert(num == cell.0);
        proof {
            let f1 = ad as int;
            let f2 = f1 * u.den as int;
            let f3 = f2 * w.den as int;
            let f4 = f3 * l.den as int;
            let f5 = f4 * r.den as int;
            lemma_le_mul(f5, c.den as int);
            lemma_le_mul(f4, r.den as int);
            lemma_le_mul(f3, l.den as int);
            lemma_le_mul(f2, w.den as int);
            lemma_le_mul(f1, u.den as int);
        }
        let den = ad * (u.den as u128) * (w.den as u128) * (l.den as u128) * (r.den as u128) * (c.den as u128);
        Score { num: num as u32, den: den as u32 }
    }
}

/// `x * p` when it fits in a `u32`, else nothing.
fn mul_within_u32(x: u128, p: u128) -> (r: Option<u128>)
    requires
        x <= u32::MAX,
    ensures
        r == if x * p <= u32::MAX { Some((x * p) as u128) } else { None::<u128> },
{
    if x == 0 {
        Some(0)
    } else if p > u32::MAX as u128 {
        proof {
            lemma_le_mul(p as int, x as int);
            assert(p * x == x * p) by (nonlinear_arith);
        }
        None
    } else {
        proof {
            lemma_u32_product_fits(x as int, p as int);
        }
        let v = x * p;
        if v <= u32::MAX as u128 { Some(v) } else { None }
    }
}

/// Whether the smoothed interior cell `(t, s)` fits in a score, for a weight that is not zero.
fn interior_fits(m: &SoftMatrix, t: usize, s: usize, alpha: Score) -> (r: bool)
    requires
        valid_alpha(alpha),
        alpha.num > 0,
        rectangular(m@),
        matrix_wf(m@),
        0 < t < m@.len() - 1,
        0 < s < m@[t as int]@.len() - 1,
    ensures
        r == (blur_cell(m@, t as int, s as int, alpha).0 <= u32::MAX && blur_cell(m@, t as int, s as int, alpha).1
            <= u32::MAX),
{
    let ghost mm = m@;
    assert(m@[t - 1]@.len() == m@[0]@.len() && m@[t + 1]@.len() == m@[0]@.len() && m@[t as int]@.len()
        == m@[0]@.len());
    let rows = m.len();
    let cols = m[t].len();
    assert(t + 1 < rows && s + 1 < cols);
    let u = m[t - 1][s];
    let w = m[t + 1][s];
    let l = m[t][s - 1];
    let r = m[t][s + 1];
    let c = m[t][s];
    assert(u.wf() && w.wf() && l.wf() && r.wf() && c.wf()) by {
        assert(mm[t - 1]@[s as int].wf());
        assert(mm[t + 1]@[s as int].wf());
        assert(mm[t as int]@[s - 1].wf());
        assert(mm[t as int]@[s + 1].wf());
        assert(mm[t as int]@[s as int].wf());
    }
    let an = alpha.num as u128;
    let ad = alpha.den as u128;
    let ghost cell = blur_cell(m@, t as int, s as int, alpha);
    assert(!on_border(m@, t as int, s as int));
    if u.den == c.den && w.den == c.den && l.den == c.den && r.den == c.den {
        let sum = (u.num as u128) + (w.num as u128) + (l.num as u128) + (r.num as u128);
        proof {
            lemma_u32_product_fits(c.den as int, ad as int);
            assert(0 <= an * sum <= u32::MAX as int * 0x4_0000_0000) by (nonlinear_arith)
                requires
                    0 <= an <= u32::MAX,
                    0 <= sum <= 0x4_0000_0000,
            ;
            lemma_u32_product_fits((ad - 4 * an) as int, c.num as int);
        }
        let num = an * sum + (ad - 4 * an) * (c.num as u128);
        let den = (c.den as u128) * ad;
        assert(same_dens(m@, t as int, s as int));
        num <= u32::MAX as u128 && den <= u32::MAX as u128
    } else {
        let ghost pu = w.den as int * l.den as int * r.den as int * c.den as int;
        let ghost pw = u.den as int * l.den as int * r.den as int * c.den as int;
        let ghost pl = u.den as int * w.den as int * r.den as int * c.den as int;
        let ghost pr = u.den as int * w.den as int * l.den as int * c.den as int;
        let ghost pc = u.den as int * w.den as int * l.den as int * r.den as int;
        let ghost tu = u.num as int * pu;
        let ghost tw = w.num as int * pw;
        let ghost tl = l.num as int * pl;
        let ghost tr = r.num as int * pr;
        let ghost center = (ad - 4 * an) as int * (c.num as int * pc);
        proof {
            assert(0 <= tu && 0 <= tw && 0 <= tl && 0 <= tr) by (nonlinear_arith)
                requires
                    tu == u.num as int * pu,
                    tw == w.num as int * pw,
                    tl == l.num as int * pl,
                    tr == r.num as int * pr,
                    0 <= pu,
                    0 <= pw,
                    0 <= pl,
                    0 <= pr,
            ;
            assert(0 <= pu && 0 <= pw && 0 <= pl && 0 <= pr && 0 <= pc) by (nonlinear_arith)
                requires
                    pu == w.den as int * l.den as int * r.den as int * c.den as int,
                    pw == u.den as int * l.den as int * r.den as int * c.den as int,
                    pl == u.den as int * w.den as int * r.den as int * c.den as int,
                    pr == u.den as int * w.den as int * l.den as int * c.den as int,
                    pc == u.den as int * w.den as int * l.den as int * r.den as int,
            ;
            assert(0 <= center) by (nonlinear_arith)
                requires
                    center == (ad - 4 * an) as int * (c.num as int * pc),
                    0 <= ad - 4 * an,
                    0 <= pc,
            ;
            lemma_le_mul(tu + tw + tl + tr, an as int);
            assert((tu + tw + tl + tr) * an == an * (tu + tw + tl + tr)) by (nonlinear_arith);
            assert(cell.0 == an * (tu + tw + tl + tr) + center);
        }
        let num_ok = match (
            mul_within_u32(u.num as u128, den_product(w, l, r, c)),
            mul_within_u32(w.num as u128, den_product(u, l, r, c)),
            mul_within_u32(l.num as u128, den_product(u, w, r, c)),
            mul_within_u32(r.num as u128, den_product(u, w, l, c)),
        ) {
            (Some(a1), Some(a2), Some(a3), Some(a4)) => {
                match mul_within_u32(an, a1 + a2 + a3 + a4) {
                    None => false,
                    Some(side) => {
                        if ad - 4 * an == 0 {
                            assert(center == 0) by (nonlinear_arith)
                                requires
                                    center == (ad - 4 * an) as int * (c.num as int * pc),
                                    ad - 4 * an == 0,
                            ;
                            side <= u32::MAX as u128
                        } else {
                            proof {
                                lemma_le_mul(c.num as int * pc, (ad - 4 * an) as int);
                                assert((c.num as int * pc) * (ad - 4 * an) == center) by (nonlinear_arith)
                                    requires
                                        center == (ad - 4 * an) as int * (c.num as int * pc),
                                ;
                            }
                            match mul_within_u32(c.num as u128, den_product(u, w, l, r)) {
                                None => false,
                                Some(x) => match mul_within_u32(ad - 4 * an, x) {
                                    None => false,
                                    Some(y) => side + y <= u32::MAX as u128,
                                },
                            }
                        }
                    },
                }
            },
            _ => false,
        };
        if !num_ok {
            return false;
        }
        let ghost f1 = ad as int;
        let ghost f2 = f1 * u.den as int;
        let ghost f3 = f2 * w.den as int;
        let ghost f4 = f3 * l.den as int;
        let ghost f5 = f4 * r.den as int;
        proof {
            lemma_le_mul(f5, c.den as int);
            lemma_le_mul(f4, r.den as int);
            lemma_le_mul(f3, l.den as int);
            lemma_le_mul(f2, w.den as int);
            lemma_le_mul(f1, u.den as int);
            assert(cell.1 == f5 * c.den as int);
            assert(u.den as int * ad as int == f2) by (nonlinear_arith)
                requires
                    f2 == f1 * u.den as int,
                    f1 == ad as int,
            ;
            assert(w.den as int * f2 == f3) by (nonlinear_arith)
                requires
                    f3 == f2 * w.den as int,
            ;
            assert(l.den as int * f3 == f4) by (nonlinear_arith)
                requires
                    f4 == f3 * l.den as int,
            ;
            assert(r.den as int * f4 == f5) by (nonlinear_arith)
                requires
                    f5 == f4 * r.den as int,
            ;
            assert(c.den as int * f5 == cell.1) by (nonlinear_arith)
                requires
                    cell.1 == f5 * c.den as int,
            ;
        }
        match mul_within_u32(u.den as u128, ad) {
            None => false,
            Some(g2) => match mul_within_u32(w.den as u128, g2) {
                None => false,
                Some(g3) => match mul_within_u32(l.den as u128, g3) {
                    None => false,
                    Some(g4) => match mul_within_u32(r.den as u128, g4) {
                        None => false,
                        Some(g5) => mul_within_u32(c.den as u128, g5).is_some(),
                    },
                },
            },
        }
    }
}

/// Whether `blur` can smooth every matrix of the batch by `alpha`: the weight lies in
/// `[0, 1 / 4]` and each matrix meets `blur_fits`.
pub fn can_blur(alignment_probs: &[SoftMatrix], alpha: Score) -> (r: bool)
    ensures
        r == (valid_alpha(alpha) && forall|i: int|
            0 <= i < alignment_probs@.len() ==> blur_fits(#[trigger] alignment_probs@[i]@, alpha)),
{
    if alpha.den == 0 || alpha.num > alpha.den / 4 {
        return false;
    }
    let mut i: usize = 0;
    while i < alignment_probs.len()
        invariant
            i <= alignment_probs@.len(),
            valid_alpha(alpha),
            forall|k: int| 0 <= k < i ==> blur_fits(#[trigger] alignment_probs@[k]@, alpha),
        decreases alignment_probs@.len() - i,
    {
        if !matrix_fits(&alignment_probs[i], alpha) {
            return false;
        }
        i = i + 1;
    }
    true
}

/// Whether one matrix meets `blur_fits`.
fn matrix_fits(m: &SoftMatrix, alpha: Score) -> (r: bool)
    requires
        valid_alpha(alpha),
    ensures
        r == blur_fits(m@, alpha),
{
    let rows = m.len();
    if rows == 0 {
        return true;
    }
    let cols = m[0].len();
    let mut t: usize = 0;
    while t < rows
        invariant
            rows == m@.len(),
            rows > 0,
            cols == m@[0]@.len(),
            t <= rows,
            forall|t0: int| 0 <= t0 < t ==> (#[trigger] m@[t0])@.len() == cols,
            forall|t0: int, s0: int| 0 <= t0 < t && 0 <= s0 < m@[t0]@.len() ==> (#[trigger] m@[t0]@[s0]).wf(),
        decreases rows - t,
    {
        if m[t].len() != cols {
            return false;
        }
        let mut s: usize = 0;
        while s < cols
            invariant
                rows == m@.len(),
                t < rows,
                cols == m@[t as int]@.len(),
                s <= cols,
                forall|s0: int| 0 <= s0 < s ==> (#[trigger] m@[t as int]@[s0]).wf(),
            decreases cols - s,
        {
            if m[t][s].den == 0 {
                return false;
            }
            s = s + 1;
        }
        t = t + 1;
    }
    assert(rectangular(m@));
    assert(matrix_wf(m@));
    t = 0;
    while t < rows
        invariant
            rows == m@.len(),
            rectangular(m@),
            matrix_wf(m@),
            valid_alpha(alpha),
            cols == m@[0]@.len(),
            t <= rows,
            forall|t0: int, s0: int|
                0 <= t0 < t && 0 <= s0 < m@[t0]@.len() ==> (#[trigger] blur_cell(m@, t0, s0, alpha)).0 <= u32::MAX
                    && blur_cell(m@, t0, s0, alpha).1 <= u32::MAX,
        decreases rows - t,
    {
        assert(m@[t as int]@.len() == cols);
        let mut s: usize = 0;
        while s < cols
            invariant
                rows == m@.len(),
                rectangular(m@),
                matrix_wf(m@),
                valid_alpha(alpha),
                t < rows,
                cols == m@[t as int]@.len(),
                s <= cols,
                forall|t0: int, s0: int|
                    0 <= t0 < t && 0 <= s0 < m@[t0]@.len() ==> (#[trigger] blur_cell(m@, t0, s0, alpha)).0 <= u32::MAX
                        && blur_cell(m@, t0, s0, alpha).1 <= u32::MAX,
                forall|s0: int|
                    0 <= s0 < s ==> (#[trigger] blur_cell(m@, t as int, s0, alpha)).0 <= u32::MAX && blur_cell(
                        m@,
                        t as int,
                        s0,
                        alpha,
                    ).1 <= u32::MAX,
            decreases cols - s,
        {
            if !(t == 0 || s == 0 || t == rows - 1 || s == cols - 1 || alpha.num == 0) {
                if !interior_fits(m, t, s, alpha) {
                    return false;
                }
            } else {
                assert(m@[t as int]@[s as int].wf());
            }
            s = s + 1;
        }
        t = t + 1;
    }
    true
}

/// Smooths one matrix.
fn blur_one(m: &SoftMatrix, alpha: Score) -> (out: SoftMatrix)
    requires
        valid_alpha(alpha),
        blur_fits(m@, alpha),
    ensures
        is_blurred(out@, m@, alpha),
{
    let rows = m.len();
    let mut out: SoftMatrix = Vec::new();
    let mut t: usize = 0;
    while t < rows
        invariant
            rows == m@.len(),
            t <= rows,
            valid_alpha(alpha),
            blur_fits(m@, alpha),
            out@.len() == t,
            forall|t0: int| 0 <= t0 < t ==> (#[trigger] out@[t0])@.len() == m@[0]@.len(),
            forall|t0: int, s: int|
                0 <= t0 < t && 0 <= s < m@[t0]@.len() ==> (#[trigger] out@[t0]@[s]).num == blur_cell(
                    m@,
                    t0,
                    s,
                    alpha,
                ).0 && out@[t0]@[s].den == blur_cell(m@, t0, s, alpha).1,
        decreases rows - t,
    {
        let row = &m[t];
        let cols = row.len();
        assert(cols == m@[0]@.len());
        let mut r: Vec<Score> = Vec::new();
        let mut s: usize = 0;
        while s < cols
            invariant
                rows == m@.len(),
                t < rows,
                *row == m@[t as int],
                cols == row@.len(),
                s <= cols,
                valid_alpha(alpha),
                blur_fits(m@, alpha),
                r@.len() == s,
                forall|s0: int|
                    0 <= s0 < s ==> (#[trigger] r@[s0]).num == blur_cell(m@, t as int, s0, alpha).0
                        && r@[s0].den == blur_cell(m@, t as int, s0, alpha).1,
            decreases cols - s,
        {
            if t == 0 || s == 0 || t == rows - 1 || s == cols - 1 || alpha.num == 0 {
                r.push(row[s]);
            } else {
                r.push(blur_interior(m, t, s, alpha));
            }
            s = s + 1;
        }
        out.push(r);
        t = t + 1;
    }
    out
}

/// Smooths every matrix of the batch by `alpha` with a single five-point pass: each interior
/// cell becomes `alpha` times each of its four neighbours plus `1 - 4 * alpha` times itself,
/// all read from the input; border cells are kept as they are.
pub fn blur(alignment_probs: &[SoftMatrix], alpha: Score) -> (scores: Vec<SoftMatrix>)
    requires
        valid_alpha(alpha),
        forall|i: int| 0 <= i < alignment_probs@.len() ==> blur_fits(#[trigger] alignment_probs@[i]@, alpha),
    ensures
        scores@.len() == alignment_probs@.len(),
        forall|i: int|
            0 <= i < alignment_probs@.len() ==> is_blurred(#[trigger] scores@[i]@, alignment_probs@[i]@, alpha),
{
    let mut scores: Vec<SoftMatrix> = Vec::new();
    let mut i: usize = 0;
    while i < alignment_probs.len()
        invariant
            i <= alignment_probs@.len(),
            valid_alpha(alpha),
            forall|i: int| 0 <= i < alignment_probs@.len() ==> blur_fits(#[trigger] alignment_probs@[i]@, alpha),
            scores@.len() == i,
            forall|k: int| 0 <= k < i ==> is_blurred(#[trigger] scores@[k]@, alignment_probs@[k]@, alpha),
        decreases alignment_probs@.len() - i,
    {
        assert(blur_fits(alignment_probs@[i as int]@, alpha));
        let out = blur_one(&alignment_probs[i], alpha);
        scores.push(out);
        i = i + 1;
    }
    scores
}

/// Every smoothed interior cell has the value of the stencil: `alpha` times each of the four
/// neighbours plus `1 - 4 * alpha` times the cell, all read from the input.
pub proof fn blur_interior_is_stencil(out: Seq<Vec<Score>>, m: Seq<Vec<Score>>, alpha: Score, t: int, s: int)
    requires
        valid_alpha(alpha),
        blur_fits(m, alpha),
        is_blurred(out, m, alpha),
        0 <= t < m.len(),
        0 <= s < m[t]@.len(),
        !on_border(m, t, s),
    ensures
        out[t]@[s].num * stencil(m, t, s, alpha).1 == stencil(m, t, s, alpha).0 * out[t]@[s].den,
{
    assert(m[t - 1]@.len() == m[0]@.len() && m[t + 1]@.len() == m[0]@.len() && m[t]@.len() == m[0]@.len());
    let u = m[t - 1]@[s];
    let w = m[t + 1]@[s];
    let l = m[t]@[s - 1];
    let r = m[t]@[s + 1];
    let c = m[t]@[s];
    let (un, ud, wn, wd, ln, ld, rn, rd, cn, cd) = (
        u.num as int,
        u.den as int,
        w.num as int,
        w.den as int,
        l.num as int,
        l.den as int,
        r.num as int,
        r.den as int,
        c.num as int,
        c.den as int,
    );
    let (an, ad) = (alpha.num as int, alpha.den as int);
    assert(out[t]@[s].num == blur_cell(m, t, s, alpha).0 && out[t]@[s].den == blur_cell(m, t, s, alpha).1);
    let pc = ud * wd * ld * rd;
    let den = ad * ud * wd * ld * rd * cd;
    assert(den == ad * pc * cd) by (nonlinear_arith)
        requires
            pc == ud * wd * ld * rd,
            den == ad * ud * wd * ld * rd * cd,
    ;
    if an == 0 {
        let x = un * (wd * ld * rd * cd) + wn * (ud * ld * rd * cd) + ln * (ud * wd * rd * cd) + rn * (ud * wd
            * ld * cd);
        assert(an * x == 0);
        assert(stencil(m, t, s, alpha).0 == ad * (cn * pc));
        assert(cn * den == ad * (cn * pc) * cd) by (nonlinear_arith)
            requires
                den == ad * pc * cd,
        ;
    } else if same_dens(m, t, s) {
        let q = cd * cd * cd * cd;
        assert(wd * ld * rd * cd == q && ud * ld * rd * cd == q && ud * wd * rd * cd == q && ud * wd * ld * cd == q
            && pc == q);
        let sum = un + wn + ln + rn;
        let k = ad - 4 * an;
        let n = an * sum + k * cn;
        assert(stencil(m, t, s, alpha).0 == an * (un * q + wn * q + ln * q + rn * q) + k * (cn * q));
        assert(un * q + wn * q + ln * q + rn * q == sum * q) by (nonlinear_arith)
            requires
                sum == un + wn + ln + rn,
        ;
        assert(an * (sum * q) == (an * sum) * q) by (nonlinear_arith);
        assert(k * (cn * q) == (k * cn) * q) by (nonlinear_arith);
        assert((an * sum) * q + (k * cn) * q == q * n) by (nonlinear_arith)
            requires
                n == an * sum + k * cn,
        ;
        assert(den == ad * q * cd);
        assert(n * (ad * q * cd) == (q * n) * (cd * ad)) by (nonlinear_arith);
    }
}

/// `x * p <= d * p` when `x <= d` and `p >= 0`.
proof fn lemma_mul_le(x: int, d: int, p: int)
    requires
        0 <= x <= d,
        0 <= p,
    ensures
        x * p <= d * p,
{
    assert(x * p <= d * p) by (nonlinear_arith)
        requires
            0 <= x <= d,
            0 <= p,
    ;
}

/// The stencil stays within `[0, 1]` when its five cells do.
proof fn lemma_stencil_unit(m: Seq<Vec<Score>>, t: int, s: int, alpha: Score)
    requires
        valid_alpha(alpha),
        m[t - 1]@[s].num <= m[t - 1]@[s].den,
        m[t + 1]@[s].num <= m[t + 1]@[s].den,
        m[t]@[s - 1].num <= m[t]@[s - 1].den,
        m[t]@[s + 1].num <= m[t]@[s + 1].den,
        m[t]@[s].num <= m[t]@[s].den,
    ensures
        0 <= stencil(m, t, s, alpha).0 <= stencil(m, t, s, alpha).1,
{
    let (un, ud) = (m[t - 1]@[s].num as int, m[t - 1]@[s].den as int);
    let (wn, wd) = (m[t + 1]@[s].num as int, m[t + 1]@[s].den as int);
    let (ln, ld) = (m[t]@[s - 1].num as int, m[t]@[s - 1].den as int);
    let (rn, rd) = (m[t]@[s + 1].num as int, m[t]@[s + 1].den as int);
    let (cn, cd) = (m[t]@[s].num as int, m[t]@[s].den as int);
    let (an, ad) = (alpha.num as int, alpha.den as int);
    let pu = wd * ld * rd * cd;
    let pw = ud * ld * rd * cd;
    let pl = ud * wd * rd * cd;
    let pr = ud * wd * ld * cd;
    let pc = ud * wd * ld * rd;
    let all = ud * wd * ld * rd * cd;
    assert(0 <= pu && 0 <= pw && 0 <= pl && 0 <= pr && 0 <= pc) by (nonlinear_arith)
        requires
            pu == wd * ld * rd * cd,
            pw == ud * ld * rd * cd,
            pl == ud * wd * rd * cd,
            pr == ud * wd * ld * cd,
            pc == ud * wd * ld * rd,
            0 <= ud,
            0 <= wd,
            0 <= ld,
            0 <= rd,
            0 <= cd,
    ;
    assert(ud * pu == all) by (nonlinear_arith)
        requires
            pu == wd * ld * rd * cd,
            all == ud * wd * ld * rd * cd,
    ;
    assert(wd * pw == all) by (nonlinear_arith)
        requires
            pw == ud * ld * rd * cd,
            all == ud * wd * ld * rd * cd,
    ;
    assert(ld * pl == all) by (nonlinear_arith)
        requires
            pl == ud * wd * rd * cd,
            all == ud * wd * ld * rd * cd,
    ;
    assert(rd * pr == all) by (nonlinear_arith)
        requires
            pr == ud * wd * ld * cd,
            all == ud * wd * ld * rd * cd,
    ;
    assert(cd * pc == all) by (nonlinear_arith)
        requires
            pc == ud * wd * ld * rd,
            all == ud * wd * ld * rd * cd,
    ;
    lemma_mul_le(un, ud, pu);
    lemma_mul_le(wn, wd, pw);
    lemma_mul_le(ln, ld, pl);
    lemma_mul_le(rn, rd, pr);
    lemma_mul_le(cn, cd, pc);
    assert(ud * pu == pu * ud && wd * pw == pw * wd && ld * pl == pl * ld && rd * pr == pr * rd && cd * pc == pc * cd);
    let sum = un * pu + wn * pw + ln * pl + rn * pr;
    assert(0 <= un * pu && 0 <= wn * pw && 0 <= ln * pl && 0 <= rn * pr && 0 <= cn * pc) by (nonlinear_arith)
        requires
            0 <= un,
            0 <= wn,
            0 <= ln,
            0 <= rn,
            0 <= cn,
            0 <= pu,
            0 <= pw,
            0 <= pl,
            0 <= pr,
            0 <= pc,
    ;
    assert(an * sum <= an * (4 * all) && 0 <= an * sum) by (nonlinear_arith)
        requires
            0 <= an,
            0 <= sum <= 4 * all,
    ;
    assert((ad - 4 * an) * (cn * pc) <= (ad - 4 * an) * all && 0 <= (ad - 4 * an) * (cn * pc)) by (nonlinear_arith)
        requires
            0 <= ad - 4 * an,
            0 <= cn * pc <= all,
    ;
    assert(an * (4 * all) + (ad - 4 * an) * all == ad * all) by (nonlinear_arith);
    assert(ad * all == ad * ud * wd * ld * rd * cd) by (nonlinear_arith)
        requires
            all == ud * wd * ld * rd * cd,
    ;
}

/// Smoothing keeps scores within `[0, 1]`: when every cell of the input is at most one, so is
/// every cell of the output.
pub proof fn blur_keeps_unit_range(out: Seq<Vec<Score>>, m: Seq<Vec<Score>>, alpha: Score, t: int, s: int)
    requires
        valid_alpha(alpha),
        blur_fits(m, alpha),
        is_blurred(out, m, alpha),
        forall|t0: int, s0: int| 0 <= t0 < m.len() && 0 <= s0 < m[t0]@.len() ==> (#[trigger] m[t0]@[s0]).num <= m[t0]@[s0].den,
        0 <= t < m.len(),
        0 <= s < m[t]@.len(),
    ensures
        out[t]@[s].num <= out[t]@[s].den,
{
    assert(out[t]@[s].num == blur_cell(m, t, s, alpha).0 && out[t]@[s].den == blur_cell(m, t, s, alpha).1);
    assert(m[t]@[s].num <= m[t]@[s].den);
    if !on_border(m, t, s) && alpha.num != 0 {
        assert(m[t - 1]@.len() == m[0]@.len() && m[t + 1]@.len() == m[0]@.len() && m[t]@.len() == m[0]@.len());
        assert(m[t - 1]@[s].num <= m[t - 1]@[s].den);
        assert(m[t + 1]@[s].num <= m[t + 1]@[s].den);
        assert(m[t]@[s - 1].num <= m[t]@[s - 1].den);
        assert(m[t]@[s + 1].num <= m[t]@[s + 1].den);
        assert(m[t]@[s].wf() && m[t - 1]@[s].wf() && m[t + 1]@[s].wf() && m[t]@[s - 1].wf() && m[t]@[s + 1].wf());
        lemma_stencil_unit(m, t, s, alpha);
        blur_interior_is_stencil(out, m, alpha, t, s);
        let st = stencil(m, t, s, alpha);
        let (on, od) = (out[t]@[s].num as int, out[t]@[s].den as int);
        assert(st.1 > 0) by (nonlinear_arith)
            requires
                st.1 == alpha.den as int * m[t - 1]@[s].den as int * m[t + 1]@[s].den as int * m[t]@[s - 1].den as int
                    * m[t]@[s + 1].den as int * m[t]@[s].den as int,
                alpha.den > 0,
                m[t - 1]@[s].den > 0,
                m[t + 1]@[s].den > 0,
                m[t]@[s - 1].den > 0,
                m[t]@[s + 1].den > 0,
                m[t]@[s].den > 0,
        ;
        assert(on <= od) by (nonlinear_arith)
            requires
                on * st.1 == st.0 * od,
                0 <= st.0 <= st.1,
                st.1 > 0,
                0 <= od,
        ;
    }
}

/// Smoothing is a function of the matrix and the weight: two results for the same input hold
/// the same cells.
pub proof fn blur_is_deterministic(out1: Seq<Vec<Score>>, out2: Seq<Vec<Score>>, m: Seq<Vec<Score>>, alpha: Score)
    requires
        rectangular(m),
        is_blurred(out1, m, alpha),
        is_blurred(out2, m, alpha),
    ensures
        out1.len() == out2.len(),
        forall|t: int| 0 <= t < out1.len() ==> (#[trigger] out1[t])@ == out2[t]@,
{
    assert forall|t: int| 0 <= t < out1.len() implies (#[trigger] out1[t])@ == out2[t]@ by {
        assert(out1[t]@.len() == m[0]@.len() && out2[t]@.len() == m[0]@.len() && m[t]@.len() == m[0]@.len());
        assert forall|s: int| 0 <= s < out1[t]@.len() implies out1[t]@[s] == out2[t]@[s] by {
            assert(out1[t]@[s].num == blur_cell(m, t, s, alpha).0 && out1[t]@[s].den == blur_cell(m, t, s, alpha).1);
            assert(out2[t]@[s].num == blur_cell(m, t, s, alpha).0 && out2[t]@[s].den == blur_cell(m, t, s, alpha).1);
        }
        assert(out1[t]@ =~= out2[t]@);
    }
}

/// Smoothing a matrix whose cells all hold one score `c` leaves every interior cell equal to
/// `c` in value, since the weights sum to one.
pub proof fn blur_uniform_interior(out: Seq<Vec<Score>>, m: Seq<Vec<Score>>, alpha: Score, c: Score, t: int, s: int)
    requires
        valid_alpha(alpha),
        blur_fits(m, alpha),
        is_blurred(out, m, alpha),
        forall|t0: int, s0: int| 0 <= t0 < m.len() && 0 <= s0 < m[t0]@.len() ==> #[trigger] m[t0]@[s0] == c,
        0 <= t < m.len(),
        0 <= s < m[t]@.len(),
        !on_border(m, t, s),
    ensures
        out[t]@[s].same_value(c),
{
    assert(m[t - 1]@.len() == m[0]@.len() && m[t + 1]@.len() == m[0]@.len() && m[t]@.len() == m[0]@.len());
    assert(m[t - 1]@[s] == c && m[t + 1]@[s] == c && m[t]@[s - 1] == c && m[t]@[s + 1] == c && m[t]@[s] == c);
    assert(out[t]@[s].num == blur_cell(m, t, s, alpha).0 && out[t]@[s].den == blur_cell(m, t, s, alpha).1);
    let (an, ad, cn, cd) = (alpha.num as int, alpha.den as int, c.num as int, c.den as int);
    if an != 0 {
        assert((an * (cn + cn + cn + cn) + (ad - 4 * an) * cn) * cd == cn * (cd * ad)) by (nonlinear_arith);
    }
}

/// Smoothing keeps every border cell as it is, whatever `alpha` is.
pub proof fn blur_keeps_border(out: Seq<Vec<Score>>, m: Seq<Vec<Score>>, alpha: Score, t: int, s: int)
    requires
        is_blurred(out, m, alpha),
        0 <= t < m.len(),
        0 <= s < m[t]@.len(),
        on_border(m, t, s),
    ensures
        out[t]@[s] == m[t]@[s],
{
    assert(out[t]@[s].num == blur_cell(m, t, s, alpha).0 && out[t]@[s].den == blur_cell(m, t, s, alpha).1);
}

/// Smoothing with weight zero gives the matrix back.
pub proof fn blur_zero_alpha_identity(out: Seq<Vec<Score>>, m: Seq<Vec<Score>>, alpha: Score)
    requires
        alpha.num == 0,
        rectangular(m),
        is_blurred(out, m, alpha),
    ensures
        out.len() == m.len(),
        forall|t: int| 0 <= t < m.len() ==> (#[trigger] out[t])@ == m[t]@,
{
    assert forall|t: int| 0 <= t < m.len() implies (#[trigger] out[t])@ == m[t]@ by {
        assert(out[t]@.len() == m[0]@.len() && m[t]@.len() == m[0]@.len());
        assert forall|s: int| 0 <= s < m[t]@.len() implies out[t]@[s] == m[t]@[s] by {
            assert(out[t]@[s].num == blur_cell(m, t, s, alpha).0 && out[t]@[s].den == blur_cell(m, t, s, alpha).1);
        }
        assert(out[t]@ =~= m[t]@);
    }
}

/// Whether `diagonal` accepts the batch: every pair meets `diagonal_fits`.
pub fn can_diagonal(sents: &[(Sent, Sent)]) -> (r: bool)
    ensures
        r == forall|i: int| 0 <= i < sents@.len() ==> diagonal_fits(#[trigger] sents@[i]),
{
    let mut i: usize = 0;
    while i < sents.len()
        invariant
            i <= sents@.len(),
            forall|k: int| 0 <= k < i ==> diagonal_fits(#[trigger] sents@[k]),
        decreases sents@.len() - i,
    {
        let l1 = sents[i].0.len();
        let l2 = sents[i].1.len();
        let fits = if l1 == 0 || l2 == 0 {
            assert(l1 as int * l2 as int == 0) by (nonlinear_arith)
                requires
                    l1 == 0 || l2 == 0,
            ;
            true
        } else if l1 > u32::MAX as usize || l2 > u32::MAX as usize {
            proof {
                lemma_le_mul(l1 as int, l2 as int);
                lemma_le_mul(l2 as int, l1 as int);
                assert(l2 as int * l1 as int == l1 as int * l2 as int) by (nonlinear_arith);
            }
            false
        } else {
            proof {
                lemma_u32_product_fits(l1 as int, l2 as int);
            }
            (l1 as u64) * (l2 as u64) <= u32::MAX as u64
        };
        if !fits {
            assert(!diagonal_fits(sents@[i as int]));
            return false;
        }
        i = i + 1;
    }
    true
}

/// Whether one sentence pair meets `lexical_fits`.
fn pair_lexical_fits(pair: &(Sent, Sent), words1: &Vec<Vec<char>>, words2: &Vec<Vec<char>>) -> (r: bool)
    ensures
        r == lexical_fits(*pair, words1@, words2@),
{
    let sent1 = &pair.0;
    let sent2 = &pair.1;
    let mut s: usize = 0;
    while s < sent1.len()
        invariant
            *sent1 == pair.0,
            s <= sent1@.len(),
            forall|k: int| 0 <= k < s ==> #[trigger] sent1@[k] < words1@.len(),
        decreases sent1@.len() - s,
    {
        if sent1[s] >= words1.len() {
            return false;
        }
        s = s + 1;
    }
    let mut t: usize = 0;
    while t < sent2.len()
        invariant
            *sent2 == pair.1,
            t <= sent2@.len(),
            forall|k: int| 0 <= k < t ==> #[trigger] sent2@[k] < words2@.len(),
        decreases sent2@.len() - t,
    {
        if sent2[t] >= words2.len() {
            return false;
        }
        t = t + 1;
    }
    s = 0;
    while s < sent1.len()
        invariant
            *sent1 == pair.0,
            *sent2 == pair.1,
            s <= sent1@.len(),
            forall|k: int| 0 <= k < sent1@.len() ==> #[trigger] sent1@[k] < words1@.len(),
            forall|k: int| 0 <= k < sent2@.len() ==> #[trigger] sent2@[k] < words2@.len(),
            forall|s0: int, t0: int|
                0 <= s0 < s && 0 <= t0 < sent2@.len() ==> words_fit(
                    words1@[#[trigger] sent1@[s0] as int]@,
                    words2@[#[trigger] sent2@[t0] as int]@,
                ),
        decreases sent1@.len() - s,
    {
        let n1 = words1[sent1[s]].len() as u128;
        t = 0;
        while t < sent2.len()
            invariant
                *sent1 == pair.0,
                *sent2 == pair.1,
                s < sent1@.len(),
                t <= sent2@.len(),
                n1 == words1@[sent1@[s as int] as int]@.len(),
                n1 <= usize::MAX,
                forall|k: int| 0 <= k < sent1@.len() ==> #[trigger] sent1@[k] < words1@.len(),
                forall|k: int| 0 <= k < sent2@.len() ==> #[trigger] sent2@[k] < words2@.len(),
                forall|s0: int, t0: int|
                    0 <= s0 < s && 0 <= t0 < sent2@.len() ==> words_fit(
                        words1@[#[trigger] sent1@[s0] as int]@,
                        words2@[#[trigger] sent2@[t0] as int]@,
                    ),
                forall|t0: int|
                    0 <= t0 < t ==> words_fit(
                        words1@[sent1@[s as int] as int]@,
                        words2@[#[trigger] sent2@[t0] as int]@,
                    ),
            decreases sent2@.len() - t,
        {
            let n2 = words2[sent2[t]].len();
            assert(n2 <= usize::MAX);
            let n = n1 + n2 as u128;
            if n == 0 || n >= u32::MAX as u128 {
                assert(!words_fit(words1@[sent1@[s as int] as int]@, words2@[sent2@[t as int] as int]@));
                return false;
            }
            t = t + 1;
        }
        s = s + 1;
    }
    true
}

/// Whether `levenstein` accepts the batch with these vocabularies: every pair meets
/// `lexical_fits`.
pub fn can_levenstein(sents: &[(Sent, Sent)], words1: &Vec<Vec<char>>, words2: &Vec<Vec<char>>) -> (r: bool)
    ensures
        r == forall|i: int| 0 <= i < sents@.len() ==> lexical_fits(#[trigger] sents@[i], words1@, words2@),
{
    let mut i: usize = 0;
    while i < sents.len()
        invariant
            i <= sents@.len(),
            forall|k: int| 0 <= k < i ==> lexical_fits(#[trigger] sents@[k], words1@, words2@),
        decreases sents@.len() - i,
    {
        if !pair_lexical_fits(&sents[i], words1, words2) {
            return false;
        }
        i = i + 1;
    }
    true
}

/// Identical words have lexical similarity exactly one.
pub proof fn lexical_identical_is_one(cell: Score, w: Seq<char>)
    requires
        lexical_cell(cell, w, w),
    ensures
        cell.is_one(),
{
    lemma_edit_distance_self(w);
}

/// The lexical similarity of any two words lies between zero and one.
pub proof fn lexical_in_unit_range(w1: Seq<char>, w2: Seq<char>)
    ensures
        0 <= lexical_num(w1, w2) <= w1.len() + w2.len(),
{
    lemma_edit_distance_bound(w1, w2);
}

} // verus!

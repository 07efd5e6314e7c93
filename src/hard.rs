use vstd::prelude::*;
use crate::merge::{AlgnMergeAction, Alignment, Link, links, merge_batches};
use crate::score::{Score, SoftMatrix, lemma_gt_trans, lemma_u32_product_fits, lemma_u32_triple_fits, matrix_wf};

verus! {

/// `j` is the position of the first maximum of `row`: every earlier score is strictly lower and
/// no score is higher.
pub open spec fn is_first_max(row: Seq<Score>, j: int) -> bool {
    &&& 0 <= j < row.len()
    &&& forall|k: int| 0 <= k < j ==> row[j].spec_gt(#[trigger] row[k])
    &&& forall|k: int| 0 <= k < row.len() ==> !(#[trigger] row[k]).spec_gt(row[j])
}

/// The links of the global-maximum rule: for each target position with a non-empty row, the
/// source position of the row's first maximum.
pub open spec fn argmax_links(m: Seq<Vec<Score>>) -> Set<Link> {
    Set::new(|l: Link| 0 <= l.1 < m.len() && is_first_max(m[l.1 as int]@, l.0 as int))
}

/// The links of the fixed-threshold rule: every position pair whose score strictly exceeds
/// `threshold`.
pub open spec fn threshold_links(m: Seq<Vec<Score>>, threshold: Score) -> Set<Link> {
    Set::new(
        |l: Link|
            0 <= l.1 < m.len() && 0 <= l.0 < m[l.1 as int]@.len() && m[l.1 as int]@[l.0 as int].spec_gt(
                threshold,
            ),
    )
}

/// The position of the first maximum of a non-empty row.
pub fn row_argmax(row: &Vec<Score>) -> (j: usize)
    requires
        row@.len() > 0,
        forall|k: int| 0 <= k < row@.len() ==> (#[trigger] row@[k]).wf(),
    ensures
        is_first_max(row@, j as int),
{
    let mut best: usize = 0;
    let mut i: usize = 1;
    while i < row.len()
        invariant
            best < i <= row@.len(),
            forall|k: int| 0 <= k < row@.len() ==> (#[trigger] row@[k]).wf(),
            forall|k: int| 0 <= k < best ==> row@[best as int].spec_gt(#[trigger] row@[k]),
            forall|k: int| 0 <= k < i ==> !(#[trigger] row@[k]).spec_gt(row@[best as int]),
        decreases row@.len() - i,
    {
        if row[i].gt(&row[best]) {
            assert forall|k: int| 0 <= k < i implies row@[i as int].spec_gt(#[trigger] row@[k])
                && !row@[k].spec_gt(row@[i as int]) by {
                lemma_gt_trans(row@[i as int], row@[best as int], row@[k]);
            }
            best = i;
        }
        i = i + 1;
    }
    best
}

/// The global-maximum rule on one matrix.
fn argmax_one(m: &SoftMatrix) -> (r: Alignment)
    requires
        matrix_wf(m@),
    ensures
        links(r@) == argmax_links(m@),
        r@.no_duplicates(),
{
    let mut r: Alignment = Vec::new();
    let mut t: usize = 0;
    while t < m.len()
        invariant
            t <= m@.len(),
            matrix_wf(m@),
            forall|l: Link| #[trigger] r@.contains(l) <==> l.1 < t && is_first_max(m@[l.1 as int]@, l.0 as int),
            r@.no_duplicates(),
        decreases m@.len() - t,
    {
        let row = &m[t];
        if row.len() > 0 {
            assert forall|k: int| 0 <= k < row@.len() implies (#[trigger] row@[k]).wf() by {
                assert(m@[t as int]@[k].wf());
            }
            let j = row_argmax(row);
            let ghost r0 = r@;
            assert(!r@.contains((j, t)));
            r.push((j, t));
            assert forall|l: Link| #[trigger] r@.contains(l) <==> l.1 < t + 1 && is_first_max(
                m@[l.1 as int]@,
                l.0 as int,
            ) by {
                if r0.contains(l) {
                    let k = choose|k: int| 0 <= k < r0.len() && r0[k] == l;
                    assert(r@[k] == l);
                }
                if l == (j, t) {
                    assert(r@[r0.len() as int] == l);
                }
                if r@.contains(l) && l != (j, t) {
                    let k = choose|k: int| 0 <= k < r@.len() && r@[k] == l;
                    assert(r0[k] == l);
                }
                if l.1 == t && is_first_max(m@[l.1 as int]@, l.0 as int) && l.0 != j {
                    let row_s = m@[t as int]@;
                    if l.0 < j {
                        assert(row_s[j as int].spec_gt(row_s[l.0 as int]));
                    } else {
                        assert(row_s[l.0 as int].spec_gt(row_s[j as int]));
                    }
                }
            }
        }
        t = t + 1;
    }
    assert(links(r@) =~= argmax_links(m@));
    r
}

/// The fixed-threshold rule on one matrix, links listed row by row.
fn threshold_one(m: &SoftMatrix, threshold: Score) -> (r: Alignment)
    ensures
        links(r@) == threshold_links(m@, threshold),
        r@.no_duplicates(),
{
    let mut r: Alignment = Vec::new();
    let mut t: usize = 0;
    while t < m.len()
        invariant
            t <= m@.len(),
            forall|l: Link| #[trigger] r@.contains(l) <==> l.1 < t && l.0 < m@[l.1 as int]@.len()
                && m@[l.1 as int]@[l.0 as int].spec_gt(threshold),
            r@.no_duplicates(),
        decreases m@.len() - t,
    {
        let row = &m[t];
        let mut s: usize = 0;
        while s < row.len()
            invariant
                t < m@.len(),
                *row == m@[t as int],
                s <= row@.len(),
                forall|l: Link| #[trigger] r@.contains(l) <==> (l.1 < t && l.0 < m@[l.1 as int]@.len()
                    && m@[l.1 as int]@[l.0 as int].spec_gt(threshold)) || (l.1 == t && l.0 < s
                    && row@[l.0 as int].spec_gt(threshold)),
                r@.no_duplicates(),
            decreases row@.len() - s,
        {
            if row[s].gt(&threshold) {
                let ghost r0 = r@;
                assert(!r@.contains((s, t)));
                r.push((s, t));
                assert forall|l: Link| #[trigger] r@.contains(l) <==> (l.1 < t && l.0 < m@[l.1 as int]@.len()
                    && m@[l.1 as int]@[l.0 as int].spec_gt(threshold)) || (l.1 == t && l.0 < s + 1
                    && row@[l.0 as int].spec_gt(threshold)) by {
                    if r0.contains(l) {
                        let k = choose|k: int| 0 <= k < r0.len() && r0[k] == l;
                        assert(r@[k] == l);
                    }
                    if l == (s, t) {
                        assert(r@[r0.len() as int] == l);
                    }
                    if r@.contains(l) && l != (s, t) {
                        let k = choose|k: int| 0 <= k < r@.len() && r@[k] == l;
                        assert(r0[k] == l);
                    }
                }
            }
            s = s + 1;
        }
        t = t + 1;
    }
    assert(links(r@) =~= threshold_links(m@, threshold));
    r
}

/// The global-maximum rule: for each target position, the source position of the highest
/// score, the first one on ties.
pub fn a1_argmax(alignment_probs: &[SoftMatrix]) -> (r: Vec<Alignment>)
    requires
        forall|i: int| 0 <= i < alignment_probs@.len() ==> matrix_wf(#[trigger] alignment_probs@[i]@),
    ensures
        r@.len() == alignment_probs@.len(),
        forall|i: int|
            0 <= i < r@.len() ==> links((#[trigger] r@[i])@) == argmax_links(alignment_probs@[i]@)
                && r@[i]@.no_duplicates(),
{
    let mut r: Vec<Alignment> = Vec::new();
    let mut i: usize = 0;
    while i < alignment_probs.len()
        invariant
            i <= alignment_probs@.len(),
            forall|i: int| 0 <= i < alignment_probs@.len() ==> matrix_wf(#[trigger] alignment_probs@[i]@),
            r@.len() == i,
            forall|k: int|
                0 <= k < i ==> links((#[trigger] r@[k])@) == argmax_links(alignment_probs@[k]@)
                    && r@[k]@.no_duplicates(),
        decreases alignment_probs@.len() - i,
    {
        assert(matrix_wf(alignment_probs@[i as int]@));
        r.push(argmax_one(&alignment_probs[i]));
        i = i + 1;
    }
    r
}

/// The fixed-threshold rule: every link whose score strictly exceeds `threshold`.
pub fn a2_threshold(alignment_probs: &[SoftMatrix], threshold: Score) -> (r: Vec<Alignment>)
    ensures
        r@.len() == alignment_probs@.len(),
        forall|i: int|
            0 <= i < r@.len() ==> links((#[trigger] r@[i])@) == threshold_links(alignment_probs@[i]@, threshold)
                && r@[i]@.no_duplicates(),
{
    let mut r: Vec<Alignment> = Vec::new();
    let mut i: usize = 0;
    while i < alignment_probs.len()
        invariant
            i <= alignment_probs@.len(),
            r@.len() == i,
            forall|k: int|
                0 <= k < i ==> links((#[trigger] r@[k])@) == threshold_links(alignment_probs@[k]@, threshold)
                    && r@[k]@.no_duplicates(),
        decreases alignment_probs@.len() - i,
    {
        r.push(threshold_one(&alignment_probs[i], threshold));
        i = i + 1;
    }
    r
}

/// `x >= p * y`, as rational numbers.
pub open spec fn at_least_scaled(x: Score, p: Score, y: Score) -> bool {
    x.num as int * p.den as int * y.den as int >= p.num as int * y.num as int * x.den as int
}

/// `x + p >= y`, as rational numbers.
pub open spec fn at_least_offset(x: Score, p: Score, y: Score) -> bool {
    x.num as int * p.den as int * y.den as int + p.num as int * x.den as int * y.den as int
        >= y.num as int * x.den as int * p.den as int
}

/// Whether a dynamic rule keeps a score `x` of a row whose maximum is `y`: the scaled rule
/// keeps `x >= p * y`, the offset rule keeps `x + p >= y`.
pub open spec fn dynamic_keeps(x: Score, p: Score, y: Score, offset: bool) -> bool {
    if offset { at_least_offset(x, p, y) } else { at_least_scaled(x, p, y) }
}

/// The links of a dynamic-threshold rule: the positions whose score the rule keeps against the
/// maximum of their row.
pub open spec fn dynamic_links(m: Seq<Vec<Score>>, p: Score, offset: bool) -> Set<Link> {
    Set::new(
        |l: Link|
            0 <= l.1 < m.len() && exists|j: int|
                is_first_max(m[l.1 as int]@, j) && 0 <= l.0 < m[l.1 as int]@.len() && dynamic_keeps(
                    m[l.1 as int]@[l.0 as int],
                    p,
                    m[l.1 as int]@[j],
                    offset,
                ),
    )
}

/// A row has one first maximum.
proof fn lemma_first_max_unique(row: Seq<Score>, i: int, j: int)
    requires
        is_first_max(row, i),
        is_first_max(row, j),
    ensures
        i == j,
{
    if i < j {
        assert(row[j].spec_gt(row[i]));
    } else if j < i {
        assert(row[i].spec_gt(row[j]));
    }
}

/// Whether a dynamic rule keeps score `x` against the row maximum `y`.
fn keeps(x: Score, p: Score, y: Score, offset: bool) -> (r: bool)
    ensures
        r == dynamic_keeps(x, p, y, offset),
{
    proof {
        lemma_u32_triple_fits(x.num as int, p.den as int, y.den as int);
        lemma_u32_triple_fits(p.num as int, y.num as int, x.den as int);
        lemma_u32_triple_fits(p.num as int, x.den as int, y.den as int);
        lemma_u32_triple_fits(y.num as int, x.den as int, p.den as int);
        lemma_u32_product_fits(x.num as int, p.den as int);
        lemma_u32_product_fits(p.num as int, x.den as int);
        lemma_u32_product_fits(y.num as int, x.den as int);
        lemma_u32_product_fits(p.num as int, y.num as int);
    }
    let a = (x.num as u128) * (p.den as u128) * (y.den as u128);
    if offset {
        let b = (p.num as u128) * (x.den as u128) * (y.den as u128);
        let c = (y.num as u128) * (x.den as u128) * (p.den as u128);
        a + b >= c
    } else {
        let c = (p.num as u128) * (y.num as u128) * (x.den as u128);
        a >= c
    }
}

/// A dynamic-threshold rule on one matrix, links listed row by row.
fn dynamic_one(m: &SoftMatrix, p: Score, offset: bool) -> (r: Alignment)
    requires
        matrix_wf(m@),
    ensures
        links(r@) == dynamic_links(m@, p, offset),
        r@.no_duplicates(),
{
    let mut r: Alignment = Vec::new();
    let mut t: usize = 0;
    while t < m.len()
        invariant
            t <= m@.len(),
            matrix_wf(m@),
            forall|l: Link| #[trigger] r@.contains(l) <==> l.1 < t && dynamic_links(m@, p, offset).contains(l),
            r@.no_duplicates(),
        decreases m@.len() - t,
    {
        let row = &m[t];
        if row.len() > 0 {
            assert forall|k: int| 0 <= k < row@.len() implies (#[trigger] row@[k]).wf() by {
                assert(m@[t as int]@[k].wf());
            }
            let j = row_argmax(row);
            let top = row[j];
            let mut s: usize = 0;
            while s < row.len()
                invariant
                    t < m@.len(),
                    *row == m@[t as int],
                    s <= row@.len(),
                    is_first_max(row@, j as int),
                    top == row@[j as int],
                    forall|l: Link| #[trigger] r@.contains(l) <==> (l.1 < t && dynamic_links(m@, p, offset).contains(l))
                        || (l.1 == t && l.0 < s && dynamic_keeps(row@[l.0 as int], p, top, offset)),
                    r@.no_duplicates(),
                decreases row@.len() - s,
            {
                if keeps(row[s], p, top, offset) {
                    let ghost r0 = r@;
                    assert(!r@.contains((s, t)));
                    r.push((s, t));
                    assert forall|l: Link| #[trigger] r@.contains(l) <==> (l.1 < t && dynamic_links(m@, p, offset).contains(l))
                        || (l.1 == t && l.0 < s + 1 && dynamic_keeps(row@[l.0 as int], p, top, offset)) by {
                        if r0.contains(l) {
                            let k = choose|k: int| 0 <= k < r0.len() && r0[k] == l;
                            assert(r@[k] == l);
                        }
                        if l == (s, t) {
                            assert(r@[r0.len() as int] == l);
                        }
                        if r@.contains(l) && l != (s, t) {
                            let k = choose|k: int| 0 <= k < r@.len() && r@[k] == l;
                            assert(r0[k] == l);
                        }
                    }
                }
                s = s + 1;
            }
            assert forall|l: Link| l.1 == t implies (dynamic_links(m@, p, offset).contains(l) <==> l.0 < row@.len()
                && dynamic_keeps(row@[l.0 as int], p, top, offset)) by {
                if dynamic_links(m@, p, offset).contains(l) {
                    let j2 = choose|j2: int| is_first_max(m@[l.1 as int]@, j2) && 0 <= l.0 < m@[l.1 as int]@.len()
                        && dynamic_keeps(m@[l.1 as int]@[l.0 as int], p, m@[l.1 as int]@[j2], offset);
                    lemma_first_max_unique(row@, j as int, j2);
                }
                if l.0 < row@.len() && dynamic_keeps(row@[l.0 as int], p, top, offset) {
                    assert(is_first_max(m@[l.1 as int]@, j as int) && dynamic_keeps(
                        m@[l.1 as int]@[l.0 as int],
                        p,
                        m@[l.1 as int]@[j as int],
                        offset,
                    ));
                }
            }
        } else {
            assert forall|l: Link| l.1 == t implies !dynamic_links(m@, p, offset).contains(l) by {}
        }
        t = t + 1;
    }
    assert(links(r@) =~= dynamic_links(m@, p, offset));
    r
}

/// The dynamic rule of one kind over a batch.
fn dynamic_batch(alignment_probs: &[SoftMatrix], p: Score, offset: bool) -> (r: Vec<Alignment>)
    requires
        forall|i: int| 0 <= i < alignment_probs@.len() ==> matrix_wf(#[trigger] alignment_probs@[i]@),
    ensures
        r@.len() == alignment_probs@.len(),
        forall|i: int|
            0 <= i < r@.len() ==> links((#[trigger] r@[i])@) == dynamic_links(alignment_probs@[i]@, p, offset)
                && r@[i]@.no_duplicates(),
{
    let mut r: Vec<Alignment> = Vec::new();
    let mut i: usize = 0;
    while i < alignment_probs.len()
        invariant
            i <= alignment_probs@.len(),
            forall|i: int| 0 <= i < alignment_probs@.len() ==> matrix_wf(#[trigger] alignment_probs@[i]@),
            r@.len() == i,
            forall|k: int|
                0 <= k < i ==> links((#[trigger] r@[k])@) == dynamic_links(alignment_probs@[k]@, p, offset)
                    && r@[k]@.no_duplicates(),
        decreases alignment_probs@.len() - i,
    {
        assert(matrix_wf(alignment_probs@[i as int]@));
        r.push(dynamic_one(&alignment_probs[i], p, offset));
        i = i + 1;
    }
    r
}

/// The offset dynamic-threshold rule: keeps every link whose score plus `p` reaches the maximum
/// of its row.
pub fn a3_threshold_dynamic(alignment_probs: &[SoftMatrix], p: Score) -> (r: Vec<Alignment>)
    requires
        forall|i: int| 0 <= i < alignment_probs@.len() ==> matrix_wf(#[trigger] alignment_probs@[i]@),
    ensures
        r@.len() == alignment_probs@.len(),
        forall|i: int|
            0 <= i < r@.len() ==> links((#[trigger] r@[i])@) == dynamic_links(alignment_probs@[i]@, p, true)
                && r@[i]@.no_duplicates(),
{
    dynamic_batch(alignment_probs, p, true)
}

/// The scaled dynamic-threshold rule: keeps every link whose score reaches `p` times the maximum
/// of its row.
pub fn a4_threshold_dynamic(alignment_probs: &[SoftMatrix], p: Score) -> (r: Vec<Alignment>)
    requires
        forall|i: int| 0 <= i < alignment_probs@.len() ==> matrix_wf(#[trigger] alignment_probs@[i]@),
    ensures
        r@.len() == alignment_probs@.len(),
        forall|i: int|
            0 <= i < r@.len() ==> links((#[trigger] r@[i])@) == dynamic_links(alignment_probs@[i]@, p, false)
                && r@[i]@.no_duplicates(),
{
    dynamic_batch(alignment_probs, p, false)
}

/// With threshold zero the fixed-threshold rule keeps every position of a matrix whose scores
/// are all positive: the whole product of source and target positions.
pub proof fn threshold_zero_keeps_positive(m: Seq<Vec<Score>>)
    requires
        matrix_wf(m),
        forall|t: int, s: int| 0 <= t < m.len() && 0 <= s < m[t]@.len() ==> (#[trigger] m[t]@[s]).num > 0,
    ensures
        threshold_links(m, Score { num: 0, den: 1 }) == Set::new(
            |l: Link| 0 <= l.1 < m.len() && 0 <= l.0 < m[l.1 as int]@.len(),
        ),
{
    let zero = Score { num: 0, den: 1 };
    assert forall|l: Link| 0 <= l.1 < m.len() && 0 <= l.0 < m[l.1 as int]@.len() implies m[l.1 as int]@[l.0 as int].spec_gt(zero) by {
        assert(m[l.1 as int]@[l.0 as int].num > 0);
    }
    assert(threshold_links(m, zero) =~= Set::new(|l: Link| 0 <= l.1 < m.len() && 0 <= l.0 < m[l.1 as int]@.len()));
}

/// The threshold of the basic pipeline: one hundredth.
pub open spec fn basic_threshold() -> Score {
    Score { num: 1, den: 100 }
}

/// The basic pipeline: the links that both the global-maximum rule and the fixed threshold of
/// one hundredth choose.
pub fn basic_alignment(alignment_probs: &[SoftMatrix]) -> (r: Vec<Alignment>)
    requires
        forall|i: int| 0 <= i < alignment_probs@.len() ==> matrix_wf(#[trigger] alignment_probs@[i]@),
    ensures
        r@.len() == alignment_probs@.len(),
        forall|i: int|
            0 <= i < r@.len() ==> links((#[trigger] r@[i])@) == argmax_links(alignment_probs@[i]@).intersect(
                threshold_links(alignment_probs@[i]@, basic_threshold()),
            ) && r@[i]@.no_duplicates(),
{
    let by_max = a1_argmax(alignment_probs);
    let by_threshold = a2_threshold(alignment_probs, Score { num: 1, den: 100 });
    let r = merge_batches(&by_max, &by_threshold, AlgnMergeAction::INTERSECT);
    assert forall|i: int| 0 <= i < r@.len() implies links((#[trigger] r@[i])@) == argmax_links(
        alignment_probs@[i]@,
    ).intersect(threshold_links(alignment_probs@[i]@, basic_threshold())) && r@[i]@.no_duplicates() by {
        assert(links(by_max@[i]@) == argmax_links(alignment_probs@[i]@));
        assert(links(by_threshold@[i]@) == threshold_links(alignment_probs@[i]@, basic_threshold()));
    }
    r
}

} // verus!

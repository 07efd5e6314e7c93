use vstd::prelude::*;

verus! {

/// An exact non-negative rational score `num / den`.
#[derive(Clone, Copy, Debug, PartialEq, Eq, Structural)]
pub struct Score {
    pub num: u32,
    pub den: u32,
}

/// A soft alignment of one sentence pair, indexed `[target position][source position]`.
pub type SoftMatrix = Vec<Vec<Score>>;

impl Score {
    /// A score is well formed when its denominator is positive.
    pub open spec fn wf(self) -> bool {
        self.den > 0
    }

    /// The score equals one.
    pub open spec fn is_one(self) -> bool {
        self.num == self.den
    }

    /// `self` and `other` are equal as rational numbers.
    pub open spec fn same_value(self, other: Score) -> bool {
        self.num as int * other.den as int == other.num as int * self.den as int
    }

    /// `self` is strictly greater than `other` as rational numbers.
    pub open spec fn spec_gt(self, other: Score) -> bool {
        self.num as int * other.den as int > other.num as int * self.den as int
    }

    /// Compares two scores exactly, by cross multiplication.
    pub fn gt(&self, other: &Score) -> (r: bool)
        ensures
            r == self.spec_gt(*other),
    {
        let a = self.num as u64;
        let b = other.den as u64;
        let c = other.num as u64;
        let d = self.den as u64;
        proof {
            lemma_u32_product_fits(a as int, b as int);
            lemma_u32_product_fits(c as int, d as int);
        }
        a * b > c * d
    }
}

/// The product of two `u32` values fits in a `u64`.
pub proof fn lemma_u32_product_fits(a: int, b: int)
    requires
        0 <= a <= u32::MAX,
        0 <= b <= u32::MAX,
    ensures
        0 <= a * b <= u64::MAX,
{
    assert(0 <= a * b <= u32::MAX as int * u32::MAX as int) by (nonlinear_arith)
        requires
            0 <= a <= u32::MAX,
            0 <= b <= u32::MAX,
    ;
}

/// The product of three `u32` values fits in 96 bits.
pub proof fn lemma_u32_triple_fits(a: int, b: int, c: int)
    requires
        0 <= a <= u32::MAX,
        0 <= b <= u32::MAX,
        0 <= c <= u32::MAX,
    ensures
        0 <= a * b * c <= 0x1_0000_0000_0000_0000_0000_0000,
{
    assert(0 <= a * b * c <= u32::MAX as int * u32::MAX as int * u32::MAX as int) by (nonlinear_arith)
        requires
            0 <= a <= u32::MAX,
            0 <= b <= u32::MAX,
            0 <= c <= u32::MAX,
    ;
}

/// Every cell of a soft matrix has a positive denominator.
pub open spec fn matrix_wf(m: Seq<Vec<Score>>) -> bool {
    forall|t: int, s: int| 0 <= t < m.len() && 0 <= s < m[t]@.len() ==> (#[trigger] m[t]@[s]).wf()
}

/// "Greater than" between well-formed scores is transitive through a score that is not less.
pub proof fn lemma_gt_trans(a: Score, b: Score, c: Score)
    requires
        a.wf(),
        b.wf(),
        c.wf(),
        a.spec_gt(b),
        !c.spec_gt(b),
    ensures
        a.spec_gt(c),
        !c.spec_gt(a),
{
    let (an, ad, bn, bd, cn, cd) = (a.num as int, a.den as int, b.num as int, b.den as int, c.num as int, c.den as int);
    assert(an * cd > cn * ad) by (nonlinear_arith)
        requires
            ad > 0,
            bd > 0,
            cd > 0,
            an * bd > bn * ad,
            cn * bd <= bn * cd,
            cn >= 0,
    {
        assert(an * bd * cd > bn * ad * cd);
        assert(cn * bd * ad <= bn * cd * ad);
    }
}

} // verus!

use vstd::prelude::*;

verus! {

/// An exact rational number `num / den`.
///
/// It denotes a number only when `den > 0`; see [`Ratio::wf`].
#[derive(Clone, Copy, Debug, PartialEq, Eq)]
pub struct Ratio {
    pub num: i64,
    pub den: i64,
}

impl Ratio {
    /// The ratio denotes a number.
    pub open spec fn wf(self) -> bool {
        self.den > 0
    }

    /// `self <= other` as rational numbers (for well-formed ratios).
    pub open spec fn spec_le(self, other: Ratio) -> bool {
        self.num * other.den <= other.num * self.den
    }

    /// `self` and `other` denote the same number (for well-formed ratios).
    pub open spec fn same_value(self, other: Ratio) -> bool {
        self.num * other.den == other.num * self.den
    }

    /// Builds `num / den`.
    pub fn new(num: i64, den: i64) -> (r: Ratio)
        ensures
            r.num == num,
            r.den == den,
    {
        Ratio { num, den }
    }

    /// Compares two ratios by value, exactly.
    pub fn le(&self, other: &Ratio) -> (r: bool)
        ensures
            r == self.spec_le(*other),
    {
        let a: i128 = self.num as i128;
        let b: i128 = other.den as i128;
        let c: i128 = other.num as i128;
        let d: i128 = self.den as i128;
        assert(-0x4000_0000_0000_0000_0000_0000_0000_0000 <= a * b
            <= 0x4000_0000_0000_0000_0000_0000_0000_0000) by (nonlinear_arith)
            requires
                -0x8000_0000_0000_0000 <= a < 0x8000_0000_0000_0000,
                -0x8000_0000_0000_0000 <= b < 0x8000_0000_0000_0000,
        ;
        assert(-0x4000_0000_0000_0000_0000_0000_0000_0000 <= c * d
            <= 0x4000_0000_0000_0000_0000_0000_0000_0000) by (nonlinear_arith)
            requires
                -0x8000_0000_0000_0000 <= c < 0x8000_0000_0000_0000,
                -0x8000_0000_0000_0000 <= d < 0x8000_0000_0000_0000,
        ;
        a * b <= c * d
    }
}

/// The order on ratios is transitive.
pub proof fn lemma_le_trans(a: Ratio, b: Ratio, c: Ratio)
    requires
        a.wf(),
        b.wf(),
        c.wf(),
        a.spec_le(b),
        b.spec_le(c),
    ensures
        a.spec_le(c),
{
    let (an, ad, bn, bd, cn, cd) = (a.num as int, a.den as int, b.num as int, b.den as int,
        c.num as int, c.den as int);
    assert(an * bd * cd <= bn * ad * cd) by (nonlinear_arith)
        requires
            an * bd <= bn * ad,
            cd > 0,
    ;
    assert(bn * cd * ad <= cn * bd * ad) by (nonlinear_arith)
        requires
            bn * cd <= cn * bd,
            ad > 0,
    ;
    assert(an * cd <= cn * ad) by (nonlinear_arith)
        requires
            an * bd * cd <= bn * ad * cd,
            bn * cd * ad <= cn * bd * ad,
            bd > 0,
    ;
}

/// Any two ratios are comparable.
pub proof fn lemma_le_total(a: Ratio, b: Ratio)
    ensures
        a.spec_le(b) || b.spec_le(a),
{
}

} // verus!

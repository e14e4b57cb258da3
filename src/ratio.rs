use vstd::prelude::*;

verus! {

/// An exact rational number `num / den`; well-formed when `den > 0`.
#[derive(Clone, Copy, Debug, PartialEq, Eq, Structural)]
pub struct Ratio {
    pub num: i64,
    pub den: i64,
}

/// Whether an integer fits in an `i64`.
pub open spec fn fits(x: int) -> bool {
    i64::MIN <= x <= i64::MAX
}

/// The ratio with the given numerator and denominator, if both fit in `i64`.
pub open spec fn make(n: int, d: int) -> Option<Ratio> {
    if fits(n) && fits(d) {
        Some(Ratio { num: n as i64, den: d as i64 })
    } else {
        None
    }
}

/// The four elementwise operations of the engine.
#[derive(Clone, Copy, Debug, PartialEq, Eq, Structural)]
pub enum BinOp {
    Add,
    Sub,
    Mul,
    Div,
}

impl Ratio {
    pub open spec fn wf(self) -> bool {
        self.den > 0
    }

    pub open spec fn is_zero(self) -> bool {
        self.num == 0
    }

    /// The rational value as a pair of integers compared by cross-multiplication.
    pub open spec fn same_value(self, o: Ratio) -> bool {
        self.num * o.den == o.num * self.den
    }

    pub open spec fn neg_spec(self) -> Option<Ratio> {
        make(-self.num, self.den as int)
    }

    pub open spec fn add_spec(self, o: Ratio) -> Option<Ratio> {
        make(self.num * o.den + o.num * self.den, self.den * o.den)
    }

    pub open spec fn sub_spec(self, o: Ratio) -> Option<Ratio> {
        make(self.num * o.den - o.num * self.den, self.den * o.den)
    }

    pub open spec fn mul_spec(self, o: Ratio) -> Option<Ratio> {
        make(self.num * o.num, self.den * o.den)
    }

    /// Quotient, with the sign moved to the numerator; none for a zero divisor.
    pub open spec fn div_spec(self, o: Ratio) -> Option<Ratio> {
        if o.num == 0 {
            None
        } else if o.num > 0 {
            make(self.num * o.den, self.den * o.num)
        } else {
            make(-(self.num * o.den), -(self.den * o.num))
        }
    }

    pub open spec fn op_spec(self, op: BinOp, o: Ratio) -> Option<Ratio> {
        match op {
            BinOp::Add => self.add_spec(o),
            BinOp::Sub => self.sub_spec(o),
            BinOp::Mul => self.mul_spec(o),
            BinOp::Div => self.div_spec(o),
        }
    }

    pub fn new(num: i64, den: i64) -> (r: Ratio)
        requires
            den > 0,
        ensures
            r == (Ratio { num, den }),
    {
        Ratio { num, den }
    }

    pub fn from_int(n: i64) -> (r: Ratio)
        ensures
            r == (Ratio { num: n, den: 1 }),
    {
        Ratio { num: n, den: 1 }
    }

    pub fn zero() -> (r: Ratio)
        ensures
            r == (Ratio { num: 0, den: 1 }),
    {
        Ratio { num: 0, den: 1 }
    }

    pub fn one() -> (r: Ratio)
        ensures
            r == (Ratio { num: 1, den: 1 }),
    {
        Ratio { num: 1, den: 1 }
    }

    pub fn is_zero_exec(&self) -> (r: bool)
        ensures
            r == self.is_zero(),
    {
        self.num == 0
    }

    pub fn neg(&self) -> (r: Option<Ratio>)
        requires
            self.wf(),
        ensures
            r == self.neg_spec(),
            r matches Some(x) ==> x.wf(),
    {
        if self.num == i64::MIN {
            None
        } else {
            Some(Ratio { num: -self.num, den: self.den })
        }
    }

    /// Applies `op` to `self` and `o`; none when the divisor is zero or a part
    /// of the result does not fit in `i64`.
    pub fn apply(&self, op: BinOp, o: &Ratio) -> (r: Option<Ratio>)
        requires
            self.wf(),
            o.wf(),
        ensures
            r == self.op_spec(op, *o),
            r matches Some(x) ==> x.wf(),
    {
        let a = self.num as i128;
        let b = self.den as i128;
        let c = o.num as i128;
        let d = o.den as i128;
        proof {
            assert(-0x8000_0000_0000_0000 * 0x7fff_ffff_ffff_ffff <= a * d
                <= 0x8000_0000_0000_0000 * 0x7fff_ffff_ffff_ffff) by (nonlinear_arith)
                requires
                    i64::MIN <= a <= i64::MAX,
                    0 < d <= i64::MAX,
            ;
            assert(-0x8000_0000_0000_0000 * 0x7fff_ffff_ffff_ffff <= c * b
                <= 0x8000_0000_0000_0000 * 0x7fff_ffff_ffff_ffff) by (nonlinear_arith)
                requires
                    i64::MIN <= c <= i64::MAX,
                    0 < b <= i64::MAX,
            ;
            assert(-0x8000_0000_0000_0000 * 0x8000_0000_0000_0000 <= a * c
                <= 0x8000_0000_0000_0000 * 0x8000_0000_0000_0000) by (nonlinear_arith)
                requires
                    i64::MIN <= a <= i64::MAX,
                    i64::MIN <= c <= i64::MAX,
            ;
            assert(0 < b * d <= 0x8000_0000_0000_0000 * 0x8000_0000_0000_0000) by (nonlinear_arith)
                requires
                    0 < b <= i64::MAX,
                    0 < d <= i64::MAX,
            ;
            assert(-0x8000_0000_0000_0000 * 0x8000_0000_0000_0000 <= b * c
                <= 0x8000_0000_0000_0000 * 0x8000_0000_0000_0000) by (nonlinear_arith)
                requires
                    i64::MIN <= c <= i64::MAX,
                    0 < b <= i64::MAX,
            ;
        }
        let (n, m): (i128, i128) = match op {
            BinOp::Add => (a * d + c * b, b * d),
            BinOp::Sub => (a * d - c * b, b * d),
            BinOp::Mul => (a * c, b * d),
            BinOp::Div => {
                if c == 0 {
                    return None;
                } else if c > 0 {
                    (a * d, b * c)
                } else {
                    (-(a * d), -(b * c))
                }
            },
        };
        if n < i64::MIN as i128 || n > i64::MAX as i128 || m < i64::MIN as i128 || m
            > i64::MAX as i128 {
            None
        } else {
            proof {
                if op == BinOp::Div && c != 0 {
                    if c > 0 {
                        assert(b * c > 0) by (nonlinear_arith)
                            requires
                                b > 0,
                                c > 0,
                        ;
                    } else {
                        assert(b * c < 0) by (nonlinear_arith)
                            requires
                                b > 0,
                                c < 0,
                        ;
                    }
                }
            }
            Some(Ratio { num: n as i64, den: m as i64 })
        }
    }
}

} // verus!

use vstd::prelude::*;

verus! {

/// An exact non-negative rational number `num / den`, used for upvote shares
/// and cumulative expected upvotes.  All arithmetic on it is exact; callers
/// receive `None` when a result would not fit in the underlying machine words.
#[derive(Clone, Copy, Debug, PartialEq, Eq, Structural)]
pub struct Frac {
    pub num: u64,
    pub den: u64,
}

impl Frac {
    /// A fraction is well formed when its denominator is positive.
    pub open spec fn wf(self) -> bool {
        self.den > 0
    }

    /// `self` and `other` denote the same rational number.
    pub open spec fn same_value(self, other: Frac) -> bool {
        self.num * other.den == other.num * self.den
    }

    /// `self <= other` as rational numbers (cross multiplication).
    pub open spec fn le(self, other: Frac) -> bool {
        self.num * other.den <= other.num * self.den
    }

    pub open spec fn spec_zero() -> Frac {
        Frac { num: 0, den: 1 }
    }

    pub fn zero() -> (r: Frac)
        ensures
            r == Frac::spec_zero(),
    {
        Frac { num: 0, den: 1 }
    }

    pub fn new(num: u64, den: u64) -> (r: Frac)
        requires
            den > 0,
        ensures
            r == (Frac { num, den }),
            r.wf(),
    {
        Frac { num, den }
    }

    /// The exact value that `add` returns when it succeeds: the common
    /// denominator is reused when both sides already share it.
    pub open spec fn spec_add(a: Frac, b: Frac) -> Frac {
        if a.den == b.den {
            Frac { num: (a.num + b.num) as u64, den: a.den }
        } else {
            Frac { num: (a.num * b.den + b.num * a.den) as u64, den: (a.den * b.den) as u64 }
        }
    }

    /// Whether the exact sum of `a` and `b` fits in the machine words.
    pub open spec fn spec_add_ok(a: Frac, b: Frac) -> bool {
        if a.den == b.den {
            a.num + b.num <= u64::MAX
        } else {
            a.num * b.den <= u64::MAX && b.num * a.den <= u64::MAX && a.num * b.den + b.num
                * a.den <= u64::MAX && a.den * b.den <= u64::MAX
        }
    }

    /// Exact addition; `None` exactly when the result does not fit.
    pub fn add(self, other: Frac) -> (r: Option<Frac>)
        requires
            self.wf(),
            other.wf(),
        ensures
            r is Some <==> Frac::spec_add_ok(self, other),
            r is Some ==> r->0 == Frac::spec_add(self, other) && r->0.wf(),
    {
        if self.den == other.den {
            match self.num.checked_add(other.num) {
                Some(n) => Some(Frac { num: n, den: self.den }),
                None => None,
            }
        } else {
            let l = match self.num.checked_mul(other.den) {
                Some(v) => v,
                None => {
                    return None;
                },
            };
            let rgt = match other.num.checked_mul(self.den) {
                Some(v) => v,
                None => {
                    return None;
                },
            };
            let n = match l.checked_add(rgt) {
                Some(v) => v,
                None => {
                    return None;
                },
            };
            let d = match self.den.checked_mul(other.den) {
                Some(v) => v,
                None => {
                    return None;
                },
            };
            proof {
                assert(self.den * other.den > 0) by (nonlinear_arith)
                    requires
                        self.den > 0,
                        other.den > 0,
                ;
            }
            Some(Frac { num: n, den: d })
        }
    }
}

/// A successful addition denotes exactly the rational sum:
/// `spec_add(a, b) == (a.num * b.den + b.num * a.den) / (a.den * b.den)`.
pub proof fn lemma_add_exact(a: Frac, b: Frac)
    requires
        a.wf(),
        b.wf(),
        Frac::spec_add_ok(a, b),
    ensures
        Frac::spec_add(a, b).wf(),
        Frac::spec_add(a, b).num * (a.den * b.den) == (a.num * b.den + b.num * a.den) * Frac::spec_add(
            a,
            b,
        ).den,
{
    let s = Frac::spec_add(a, b);
    assert(a.den * b.den > 0) by (nonlinear_arith)
        requires
            a.den > 0,
            b.den > 0,
    ;
    if a.den == b.den {
        assert(s.num * (a.den * b.den) == (a.num * b.den + b.num * a.den) * s.den)
            by (nonlinear_arith)
            requires
                s.num == a.num + b.num,
                s.den == a.den,
                a.den == b.den,
        ;
    }
}

} // verus!

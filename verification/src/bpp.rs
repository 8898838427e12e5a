//! Average bits per parameter.
use vstd::prelude::*;

verus! {

/// A target for the average bits per parameter: `bits` for every `params` parameters.
#[derive(Debug, Clone, Copy)]
pub struct TargetBpp {
    pub bits: u64,
    pub params: u64,
}

/// Average bits per parameter of an assignment: `bits` for `params` parameters. Layers without a
/// single parameter have no average, and `params` is zero.
#[derive(Debug, Clone, Copy)]
pub struct AchievedBpp {
    pub bits: u128,
    pub params: usize,
}

impl TargetBpp {
    /// Whether the target is a number.
    pub open spec fn wf(self) -> bool {
        self.params > 0
    }

    /// Whether `total` bits for `n` parameters reach the target.
    pub open spec fn met(self, n: int, total: int) -> bool {
        total * self.params >= n * self.bits
    }

    /// The most whole bits that `n` parameters may take without passing the target.
    pub open spec fn budget(self, n: int) -> int {
        (n * self.bits) / self.params as int
    }

    /// The least whole bits with which `n` parameters reach the target.
    pub fn bits_to_meet(&self, n: usize) -> (r: u128)
        requires
            self.wf(),
        ensures
            forall|total: int| #[trigger] self.met(n as int, total) <==> total >= r,
            r * self.params >= n * self.bits,
            r > 0 ==> (r - 1) * self.params < n * self.bits,
    {
        let per: u128 = self.params as u128;
        assert(0 <= n * self.bits <= 0xffff_ffff_ffff_ffff * 0xffff_ffff_ffff_ffff)
            by (nonlinear_arith)
            requires
                0 <= n <= 0xffff_ffff_ffff_ffff,
                0 <= self.bits <= 0xffff_ffff_ffff_ffff,
        ;
        let wanted: u128 = n as u128 * self.bits as u128;
        let whole: u128 = wanted / per;
        let rest: u128 = wanted % per;
        let r: u128 = if rest > 0 {
            whole + 1
        } else {
            whole
        };
        assert(wanted == per * whole + rest) by (nonlinear_arith)
            requires
                per > 0,
                whole == wanted / per,
                rest == wanted % per,
        ;
        assert forall|total: int| #[trigger] self.met(n as int, total) <==> total >= r by {
            assert(total * per >= wanted <==> total >= r) by (nonlinear_arith)
                requires
                    per > 0,
                    0 <= rest < per,
                    wanted == per * whole + rest,
                    r == (if rest > 0 {
                        whole + 1
                    } else {
                        whole as int
                    }),
            ;
        }
        assert(self.met(n as int, r as int));
        assert(!self.met(n as int, r - 1));
        r
    }

    /// The most whole bits that `n` parameters may take without passing the target.
    pub fn bit_budget(&self, n: usize) -> (r: u128)
        requires
            self.wf(),
        ensures
            r == self.budget(n as int),
            r * self.params <= n * self.bits < (r + 1) * self.params,
    {
        assert(0 <= n * self.bits <= 0xffff_ffff_ffff_ffff * 0xffff_ffff_ffff_ffff)
            by (nonlinear_arith)
            requires
                0 <= n <= 0xffff_ffff_ffff_ffff,
                0 <= self.bits <= 0xffff_ffff_ffff_ffff,
        ;
        let r: u128 = (n as u128 * self.bits as u128) / self.params as u128;
        proof {
            budget_is_the_limit(*self, n as int, r as int);
            budget_is_the_limit(*self, n as int, r + 1);
        }
        r
    }
}

/// Staying within the budget is not to pass the target.
pub proof fn budget_is_the_limit(target: TargetBpp, n: int, total: int)
    requires
        target.wf(),
        n >= 0,
    ensures
        total <= target.budget(n) <==> total * target.params <= n * target.bits,
{
    let per = target.params as int;
    let wanted = n * target.bits;
    let whole = wanted / per;
    let rest = wanted % per;
    assert(wanted == per * whole + rest && 0 <= rest < per) by (nonlinear_arith)
        requires
            per > 0,
            whole == wanted / per,
            rest == wanted % per,
    ;
    assert(total <= whole <==> total * per <= wanted) by (nonlinear_arith)
        requires
            per > 0,
            0 <= rest < per,
            wanted == per * whole + rest,
    ;
}

/// A target is met by an average no lower than it.
pub proof fn targets_are_met_from_below(target: TargetBpp, n: int, total: int)
    ensures
        target.met(n, total) <==> !(total * target.params < n * target.bits),
{
}

} // verus!

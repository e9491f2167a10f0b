use vstd::prelude::*;
use vstd::arithmetic::div_mod::lemma_div_is_ordered;
use vstd::arithmetic::div_mod::lemma_div_multiples_vanish;
use vstd::arithmetic::div_mod::lemma_div_pos_is_pos;
use vstd::arithmetic::mul::lemma_mul_inequality;

verus! {

/// Number of fixed-point units that stand for 1.0. All rates, rewards and
/// stored action values are integers in units of 1/SCALE.
pub const SCALE: i64 = 1_000_000;

/// Largest magnitude an action value may take; the Bellman update clamps to
/// this range so that every intermediate product fits in an i64.
pub const Q_MAX: i64 = 1_000_000_000_000;

/// Clamp a value into [-Q_MAX, Q_MAX].
pub open spec fn spec_clamp_q(v: int) -> int {
    if v > Q_MAX as int {
        Q_MAX as int
    } else if v < -(Q_MAX as int) {
        -(Q_MAX as int)
    } else {
        v
    }
}

/// Truncating division by SCALE (rounds toward zero, as the executable
/// arithmetic does).
pub open spec fn spec_div_scale(v: int) -> int {
    if v >= 0 {
        v / (SCALE as int)
    } else {
        -((-v) / (SCALE as int))
    }
}

/// Product of a rate (in units of 1/SCALE) and a value, scaled back down:
/// trunc(rate * v / SCALE).
pub open spec fn spec_scale_mul(rate: int, v: int) -> int {
    spec_div_scale(rate * v)
}

/// The Bellman action-value update, in fixed point: move the old value q
/// toward (reward + gamma * m) by the fraction alpha, where m is the best
/// next-state value, and clamp the result into the stored range.
pub open spec fn bellman(q: int, m: int, reward: int, alpha: int, gamma: int) -> int {
    spec_clamp_q(q + spec_scale_mul(alpha, reward + spec_scale_mul(gamma, m) - q))
}

/// Scaling a value by a rate of at most SCALE never grows its magnitude or
/// flips its sign.
pub proof fn lemma_scale_mul_magnitude(rate: int, v: int)
    requires
        0 <= rate <= SCALE,
    ensures
        v >= 0 ==> 0 <= spec_scale_mul(rate, v) <= v,
        v < 0 ==> v <= spec_scale_mul(rate, v) <= 0,
{
    let s = SCALE as int;
    if v >= 0 {
        lemma_mul_inequality(rate, s, v);
        assert(rate * v >= 0) by (nonlinear_arith)
            requires
                rate >= 0,
                v >= 0,
        ;
        lemma_div_pos_is_pos(rate * v, s);
        lemma_div_is_ordered(rate * v, s * v, s);
        lemma_div_multiples_vanish(v, s);
    } else {
        let m = -v;
        lemma_mul_inequality(rate, s, m);
        assert(rate * m >= 0) by (nonlinear_arith)
            requires
                rate >= 0,
                m >= 0,
        ;
        lemma_div_pos_is_pos(rate * m, s);
        lemma_div_is_ordered(rate * m, s * m, s);
        lemma_div_multiples_vanish(m, s);
        assert(rate * v == -(rate * m)) by (nonlinear_arith)
            requires
                m == -v,
        ;
    }
}

/// rate * v / SCALE, truncated toward zero.
///
/// The bounds keep |rate * v| within i64 range; the callers pass rates in
/// [0, SCALE] and values within a few multiples of Q_MAX.
pub fn scale_mul(rate: i64, v: i64) -> (r: i64)
    requires
        0 <= rate <= SCALE,
        -3 * (Q_MAX as int) - (SCALE as int) <= v <= 3 * (Q_MAX as int) + (SCALE as int),
    ensures
        r == spec_scale_mul(rate as int, v as int),
{
    if v >= 0 {
        proof {
            assert(0 <= (rate as int) * (v as int) <= 3_000_001_000_000_000_000int)
                by (nonlinear_arith)
                requires
                    0 <= rate as int <= 1_000_000,
                    0 <= v as int <= 3_000_001_000_000,
            ;
        }
        let p: u64 = (rate as u64) * (v as u64);
        let q: u64 = p / 1_000_000;
        proof {
            assert(q as int <= p as int) by (nonlinear_arith)
                requires
                    q as int == p as int / 1_000_000,
                    p as int >= 0,
            ;
        }
        q as i64
    } else {
        let m: i64 = -v;
        proof {
            assert(0 <= (rate as int) * (m as int) <= 3_000_001_000_000_000_000int)
                by (nonlinear_arith)
                requires
                    0 <= rate as int <= 1_000_000,
                    0 <= m as int <= 3_000_001_000_000,
            ;
            assert((rate as int) * (v as int) == -((rate as int) * (m as int)))
                by (nonlinear_arith)
                requires
                    m as int == -(v as int),
            ;
        }
        let p: u64 = (rate as u64) * (m as u64);
        let q: u64 = p / 1_000_000;
        proof {
            assert(q as int <= p as int) by (nonlinear_arith)
                requires
                    q as int == p as int / 1_000_000,
                    p as int >= 0,
            ;
        }
        -(q as i64)
    }
}

} // verus!

use crate::arc4::{gen_value, init_state, step_emit, step_state, steps, Arc4, Arc4Model};
use crate::error::BingoError;
use vstd::arithmetic::div_mod::{
    lemma_basic_div, lemma_div_by_multiple, lemma_div_is_ordered, lemma_fundamental_div_mod,
};
use vstd::arithmetic::mul::{
    lemma_mul_inequality, lemma_mul_is_associative, lemma_mul_is_commutative,
    lemma_mul_strict_inequality, lemma_mul_upper_bound,
};
use vstd::arithmetic::power::pow;
use vstd::arithmetic::power2::{
    lemma2_to64, lemma2_to64_rest, lemma_pow2_adds, lemma_pow2_pos, lemma_pow2_strictly_increases,
    lemma_pow2_unfold, pow2,
};
use vstd::prelude::*;

verus! {

/// 2^52: once the accumulated integer reaches this threshold, a double's
/// 52-bit mantissa is fully populated.
pub const SIGNIFICANCE: u64 = 0x10_0000_0000_0000;

/// 2^53: one bit past full significance; an accumulated integer at or above
/// this no longer fits a double exactly and must be trimmed.
pub const CARRY_LIMIT: u64 = 0x20_0000_0000_0000;

/// Defensive bound on precision-extension rounds. Each round appends one
/// generated digit, and any nonzero digit reaches full significance within
/// seven further rounds, so exhausting this bound would take over a hundred
/// consecutive zero digits from the generator. The bound also keeps the
/// denominator exponent at or below 968, inside the range where every
/// completed draw is a finite, exactly representable double.
pub const MAX_EXTEND_ROUNDS: u32 = 115;

/// One draw of the float source: the exact dyadic rational `num / 2^exp`,
/// which is precisely the value held by the IEEE-754 double that the
/// reference algorithm computes for the same digit stream.
pub struct RandomUnit {
    pub num: u64,
    pub exp: u32,
}

impl RandomUnit {
    /// The represented value lies in [0, 1): the numerator stays strictly
    /// below the denominator `2^exp`.
    pub open spec fn wf(&self) -> bool {
        (self.num as nat) < pow2(self.exp as nat)
    }
}

/// The precision-extension phase: while the accumulated numerator is below
/// full significance, shift in one freshly generated digit and widen the
/// denominator, up to `fuel` rounds. Returns the engine state, numerator,
/// pending digit and denominator exponent, or nothing if fuel runs out.
pub open spec fn extend_rounds(m: Arc4Model, n: nat, x: nat, exp: nat, fuel: nat) -> Option<
    (Arc4Model, nat, nat, nat),
>
    decreases fuel,
{
    if n >= SIGNIFICANCE {
        Some((m, n, x, exp))
    } else if fuel == 0 {
        None
    } else {
        extend_rounds(
            step_state(m),
            (n + x) * 256,
            step_emit(m) as nat,
            exp + 8,
            (fuel - 1) as nat,
        )
    }
}

/// The precision-trimming phase: while the numerator has overflowed a
/// double's exact range, halve the numerator, the pending digit (by
/// truncating shift) and the denominator.
pub open spec fn trim_rounds(n: nat, x: nat, exp: nat) -> (nat, nat, nat)
    decreases n,
{
    if n >= CARRY_LIMIT {
        trim_rounds(n / 2, x / 2, (exp - 1) as nat)
    } else {
        (n, x, exp)
    }
}

/// How far an integer must be shifted right for its leading bit to fall
/// within a double's 53-bit significand: 0 for values below 2^53, and one
/// more for each further doubling.
pub open spec fn ulp_shift(v: nat) -> nat
    decreases v,
{
    if v < CARRY_LIMIT {
        0
    } else {
        1 + ulp_shift(v / 2)
    }
}

/// The integer an IEEE-754 double (binary64) holds after rounding `v` to
/// nearest, ties to even, at 53 bits of significance.
pub open spec fn round_to_double(v: nat) -> nat {
    let u = pow2(ulp_shift(v));
    let q = v / u;
    let r = v % u;
    if 2 * r < u {
        q * u
    } else if 2 * r > u {
        (q + 1) * u
    } else if q % 2 == 0 {
        q * u
    } else {
        (q + 1) * u
    }
}

/// The full float-source draw from engine state `m`: a six-digit base-256
/// numerator over 2^48, extended to full significance, trimmed of overflow,
/// and the numerator-plus-pending-digit sum rounded to double precision.
/// Returns the engine state after the draw and the numerator and
/// denominator exponent of the drawn value.
#[verifier::opaque]
pub open spec fn spec_next(m: Arc4Model) -> Option<(Arc4Model, nat, nat)> {
    let n0 = gen_value(m, 6);
    let m6 = steps(m, 6);
    match extend_rounds(m6, n0, 0, 48, MAX_EXTEND_ROUNDS as nat) {
        None => None,
        Some((m1, n1, x1, e1)) => {
            let (n2, x2, e2) = trim_rounds(n1, x1, e1);
            Some((m1, round_to_double(n2 + x2), e2))
        },
    }
}

/// The cell-offset a drawn value selects from a pool of `len` candidates:
/// the double product `len * value`, rounded as a double multiplication
/// rounds, then truncated to an integer. May equal `len` itself when the
/// product rounds up; callers reduce it modulo the pool size.
#[verifier::opaque]
pub open spec fn spec_random_index(len: nat, num: nat, exp: nat) -> nat {
    round_to_double(len * num) / pow2(exp)
}

/// Bounds that pin down `ulp_shift`: `v` lies below `2^53` shifted left by
/// the ulp exponent, and (unless the exponent is zero) `2v` reaches it.
pub proof fn lemma_ulp_shift_bounds(v: nat)
    ensures
        v < (CARRY_LIMIT as nat) * pow2(ulp_shift(v)),
        ulp_shift(v) > 0 ==> 2 * v >= (CARRY_LIMIT as nat) * pow2(ulp_shift(v)),
    decreases v,
{
    lemma2_to64();
    if v < CARRY_LIMIT {
        assert(pow2(0) == 1);
    } else {
        lemma_ulp_shift_bounds(v / 2);
        let k2 = ulp_shift(v / 2);
        lemma_pow2_unfold((k2 + 1) as nat);
        assert(pow2(k2 + 1) == 2 * pow2(k2));
        assert(v < (CARRY_LIMIT as nat) * pow2(k2 + 1)) by {
            assert(v / 2 <= (CARRY_LIMIT as nat) * pow2(k2) - 1);
            assert(v <= 2 * (v / 2) + 1);
        }
        if k2 == 0 {
            assert(2 * v >= (CARRY_LIMIT as nat) * pow2(1));
        } else {
            assert(2 * (v / 2) >= (CARRY_LIMIT as nat) * pow2(k2));
            assert(v >= 2 * (v / 2));
            assert(2 * v >= 2 * ((CARRY_LIMIT as nat) * pow2(k2)));
        }
    }
}

/// Rounding a product that stays below `len * 2^exp` cannot escape that
/// bound, for any pool size up to 2^52: the rounding grid divides the bound,
/// so rounding up lands at or below it.
pub proof fn lemma_round_le(v: nat, len: nat, exp: nat)
    requires
        v < len * pow2(exp),
        len <= pow2(52),
    ensures
        round_to_double(v) <= len * pow2(exp),
{
    lemma2_to64();
    lemma2_to64_rest();
    let k = ulp_shift(v);
    let u = pow2(k);
    lemma_pow2_pos(k);
    lemma_pow2_pos(exp);
    lemma_ulp_shift_bounds(v);
    if k == 0 {
        assert(u == 1);
        assert(v / 1 == v && v % 1 == 0);
        assert(round_to_double(v) == v);
    } else {
        // 2^53 * 2^k <= 2v < 2 * len * 2^exp <= 2^53 * 2^exp, so k < exp.
        assert(2 * v >= (CARRY_LIMIT as nat) * u);
        assert(v < pow2(52) * pow2(exp)) by {
            if len < pow2(52) {
                lemma_mul_strict_inequality(len as int, pow2(52) as int, pow2(exp) as int);
            }
        }
        lemma_pow2_adds(52, exp);
        lemma_pow2_adds(53, k);
        lemma_pow2_adds(53, exp);
        assert((CARRY_LIMIT as nat) * u == pow2(53 + k));
        assert(2 * v < 2 * pow2(52 + exp));
        lemma_pow2_unfold((53 + exp) as nat);
        assert(pow2(53 + k) < pow2(53 + exp));
        assert(k < exp) by {
            if k >= exp {
                if k > exp {
                    lemma_pow2_strictly_increases((53 + exp) as nat, (53 + k) as nat);
                }
                assert(false);
            }
        }
        // The bound len * 2^exp is a multiple of the grid u = 2^k.
        let q = v / u;
        let r = v % u;
        lemma_fundamental_div_mod(v as int, u as int);
        lemma_pow2_adds(k, (exp - k) as nat);
        let big = len * pow2((exp - k) as nat);
        assert(len * pow2(exp) == big * u) by {
            assert(pow2(exp) == pow2(k) * pow2((exp - k) as nat));
            lemma_mul_is_commutative(pow2(k) as int, pow2((exp - k) as nat) as int);
            lemma_mul_is_associative(len as int, pow2((exp - k) as nat) as int, u as int);
        }
        assert(q * u <= v) by {
            assert(v == u * q + r);
        }
        assert(q < big) by {
            if q >= big {
                lemma_mul_inequality(big as int, q as int, u as int);
                assert(big * u <= q * u);
                assert(false);
            }
        }
        assert((q + 1) * u <= big * u) by {
            lemma_mul_inequality((q + 1) as int, big as int, u as int);
        }
        assert(q * u <= (q + 1) * u) by {
            lemma_mul_inequality(q as int, (q + 1) as int, u as int);
        }
        assert(round_to_double(v) <= (q + 1) * u);
    }
}

/// The seeded float source: an engine keyed by the decimal digits of the
/// seed, whose draws reproduce the reference double-precision values.
pub struct SeedRandom(Arc4);

impl View for SeedRandom {
    type V = Arc4Model;

    closed spec fn view(&self) -> Arc4Model {
        self.0@
    }
}

impl SeedRandom {
    /// Structural validity of the underlying engine.
    pub closed spec fn wf(&self) -> bool {
        self.0.wf()
    }

    /// Build the source from the seed's decimal digit bytes, used directly
    /// as the engine key.
    pub fn new(seed: Vec<u8>) -> (r: SeedRandom)
        ensures
            r.wf(),
            r@ == init_state(seed@),
    {
        SeedRandom(Arc4::new(seed.as_slice(), 256))
    }

    /// Draw the next value in [0, 1) with a fully populated double-precision
    /// mantissa: start from a six-digit base-256 numerator, extend it digit
    /// by digit until the mantissa is fully significant, trim any
    /// overflowing precision by truncating halving, and round the final sum
    /// exactly as the reference double arithmetic rounds it. Fails only if
    /// the generator yields so many consecutive zero digits that the
    /// defensive extension bound is exhausted.
    pub fn next(&mut self) -> (r: Result<RandomUnit, BingoError>)
        requires
            old(self).wf(),
        ensures
            final(self).wf(),
            match r {
                Ok(u) => {
                    &&& spec_next(old(self)@) == Some((final(self)@, u.num as nat, u.exp as nat))
                    &&& u.wf()
                },
                Err(e) => {
                    &&& e == BingoError::RandomnessStalled
                    &&& spec_next(old(self)@) is None
                },
            },
    {
        proof {
            reveal(spec_next);
            lemma2_to64();
            lemma2_to64_rest();
        }
        let ghost m0 = self@;
        let mut n: u64 = self.0.generate(6);
        proof {
            assert(pow(256, 6) == 0x1_0000_0000_0000) by {
                reveal_with_fuel(pow, 7);
            }
            assert((n as nat) + 0 < pow2(48));
        }
        let ghost m6 = self@;
        let ghost n0 = n as nat;
        let mut x: u64 = 0;
        let mut exp: u32 = 48;
        let mut rounds: u32 = 0;

        while n < SIGNIFICANCE
            invariant
                self.wf(),
                x < 256,
                n < 0x2000_0000_0000_0000u64,
                (n as nat) + (x as nat) < pow2(exp as nat),
                exp == 48 + 8 * rounds,
                rounds <= MAX_EXTEND_ROUNDS,
                m0 == old(self)@,
                m6 == steps(m0, 6),
                n0 == gen_value(m0, 6),
                extend_rounds(m6, n0, 0, 48, MAX_EXTEND_ROUNDS as nat) == extend_rounds(
                    self@,
                    n as nat,
                    x as nat,
                    exp as nat,
                    (MAX_EXTEND_ROUNDS - rounds) as nat,
                ),
            decreases MAX_EXTEND_ROUNDS - rounds,
        {
            if rounds == MAX_EXTEND_ROUNDS {
                proof {
                    reveal(spec_next);
                    assert(extend_rounds(self@, n as nat, x as nat, exp as nat, 0) is None);
                    assert(spec_next(m0) is None);
                }
                return Err(BingoError::RandomnessStalled);
            }
            let ghost m_pre = self@;
            let nx = (n + x) * 256;
            let xe = self.0.generate(1);
            proof {
                lemma2_to64();
                assert(gen_value(m_pre, 0) == 0);
                assert(gen_value(m_pre, 1) == step_emit(m_pre));
                assert(steps(step_state(m_pre), 0) == step_state(m_pre));
                assert(steps(m_pre, 1) == step_state(m_pre));
                assert((nx as nat) + (xe as nat) < pow2((exp + 8) as nat)) by {
                    lemma_pow2_adds(exp as nat, 8);
                    assert((n as nat) + (x as nat) <= pow2(exp as nat) - 1);
                    assert(pow2(8) == 256);
                }
            }
            n = nx;
            x = xe;
            exp = exp + 8;
            rounds = rounds + 1;
        }

        proof {
            assert(extend_rounds(
                self@,
                n as nat,
                x as nat,
                exp as nat,
                (MAX_EXTEND_ROUNDS - rounds) as nat,
            ) == Some((self@, n as nat, x as nat, exp as nat)));
        }
        let ghost m_ext = self@;
        let ghost trim_entry = (n as nat, x as nat, exp as nat);

        while n >= CARRY_LIMIT
            invariant
                self.wf(),
                self@ == m_ext,
                x < 256,
                n >= SIGNIFICANCE,
                (n as nat) + (x as nat) < pow2(exp as nat),
                trim_rounds(trim_entry.0, trim_entry.1, trim_entry.2) == trim_rounds(
                    n as nat,
                    x as nat,
                    exp as nat,
                ),
            decreases n,
        {
            proof {
                lemma2_to64();
                lemma2_to64_rest();
                assert(exp >= 54) by {
                    if exp < 54 {
                        if exp < 53 {
                            lemma_pow2_strictly_increases(exp as nat, 53);
                        }
                        assert(pow2(exp as nat) <= pow2(53));
                        assert(false);
                    }
                }
                lemma_pow2_unfold(exp as nat);
                assert((n as nat) / 2 + (x as nat) / 2 < pow2((exp - 1) as nat));
            }
            n = n / 2;
            x = x / 2;
            exp = exp - 1;
        }

        // The numerator plus the pending digit, rounded as the final double
        // addition rounds: exactly at 53 bits, ties to even.
        let s: u64 = n + x;
        proof {
            lemma2_to64();
            lemma2_to64_rest();
        }
        let num: u64;
        if s < CARRY_LIMIT {
            proof {
                assert(ulp_shift(s as nat) == 0);
                assert(pow2(0) == 1);
                assert((s as nat) / 1 == s as nat && (s as nat) % 1 == 0);
                assert(round_to_double(s as nat) == s as nat);
            }
            num = s;
        } else {
            proof {
                assert((s as nat) / 2 < CARRY_LIMIT as nat);
                assert(ulp_shift((s as nat) / 2) == 0);
                assert(ulp_shift(s as nat) == 1);
                assert(pow2(1) == 2);
                lemma_fundamental_div_mod(s as int, 2);
            }
            if s % 2 == 0 {
                num = s;
            } else if (s / 2) % 2 == 0 {
                num = s - 1;
            } else {
                num = s + 1;
            }
            proof {
                let q = (s as nat) / 2;
                let r = (s as nat) % 2;
                if r == 0 {
                    assert(round_to_double(s as nat) == q * 2);
                } else {
                    assert(2 * r == 2);
                    if q % 2 == 0 {
                        assert(round_to_double(s as nat) == q * 2);
                    } else {
                        assert(round_to_double(s as nat) == (q + 1) * 2);
                    }
                }
                assert(num as nat == round_to_double(s as nat));
            }
        }

        proof {
            // The rounded numerator stays strictly below 2^exp: the value is
            // in [0, 1), never exactly 1.
            assert((num as nat) < pow2(exp as nat)) by {
                if s >= CARRY_LIMIT {
                    assert(exp >= 54) by {
                        if exp < 54 {
                            if exp < 53 {
                                lemma_pow2_strictly_increases(exp as nat, 53);
                            }
                            assert(pow2(exp as nat) <= pow2(53));
                            assert(false);
                        }
                    }
                    assert((num as nat) <= (s as nat) + 1);
                    assert((s as nat) + 1 < pow2(54));
                    if exp > 54 {
                        lemma_pow2_strictly_increases(54, exp as nat);
                    }
                }
            }
            // Chain the two phases and the rounding into the draw spec.
            reveal(spec_next);
            assert(trim_rounds(n as nat, x as nat, exp as nat) == (
                n as nat,
                x as nat,
                exp as nat,
            ));
            assert(spec_next(m0) == Some((m_ext, num as nat, exp as nat)));
        }

        Ok(RandomUnit { num, exp })
    }
}

/// The starting offset a drawn value selects in a pool of `len` candidates:
/// `len * value` computed and truncated exactly as the reference double
/// arithmetic computes it. The result can equal `len` itself when the
/// product rounds up to it; callers wrap indices modulo the pool size.
pub fn random_index(len: usize, u: &RandomUnit) -> (r: usize)
    requires
        u.wf(),
        len as nat <= pow2(52),
    ensures
        r as nat == spec_random_index(len as nat, u.num as nat, u.exp as nat),
        r <= len,
{
    proof {
        reveal(spec_random_index);
        lemma2_to64();
        lemma2_to64_rest();
        lemma_pow2_pos(u.exp as nat);
    }
    if len == 0 {
        proof {
            assert(ulp_shift(0) == 0);
            assert(pow2(0) == 1);
            assert((0 as nat) / 1 == 0 as nat && (0 as nat) % 1 == 0);
            assert(round_to_double(0) == 0);
            lemma_basic_div(0, pow2(u.exp as nat) as int);
            assert(spec_random_index(0, u.num as nat, u.exp as nat) == 0);
        }
        return 0;
    }

    // len <= 2^52 and num < 2^64, so the product is below 2^116.
    proof {
        assert((u.num as nat) < pow2(64));
        lemma_mul_upper_bound(len as int, pow2(52) as int, u.num as int, (pow2(64) - 1) as int);
        assert((len as nat) * (u.num as nat) < pow2(52) * pow2(64));
        lemma_pow2_adds(52, 64);
    }
    let p: u128 = (len as u128) * (u.num as u128);
    proof {
        assert((p as nat) < pow2(116));
    }

    // Find the ulp exponent of the product.
    proof {
        lemma_ulp_shift_bounds(p as nat);
        assert(ulp_shift(p as nat) <= 63) by {
            let kk = ulp_shift(p as nat);
            if kk > 63 {
                assert(2 * (p as nat) >= (CARRY_LIMIT as nat) * pow2(kk));
                lemma_pow2_adds(53, kk);
                assert((CARRY_LIMIT as nat) * pow2(kk) == pow2(53 + kk));
                if 53 + kk > 117 {
                    lemma_pow2_strictly_increases(117, (53 + kk) as nat);
                }
                assert(pow2(117) <= pow2(53 + kk));
                assert(2 * (p as nat) < pow2(117)) by {
                    lemma_pow2_unfold(117);
                    assert(pow2(117) == 2 * pow2(116));
                }
                assert(false);
            }
        }
    }
    let mut k: u32 = 0;
    let mut w: u128 = p;
    while w >= CARRY_LIMIT as u128
        invariant
            ulp_shift(p as nat) == k + ulp_shift(w as nat),
            ulp_shift(p as nat) <= 63,
            w <= p,
        decreases w,
    {
        w = w / 2;
        k = k + 1;
    }
    proof {
        assert(ulp_shift(w as nat) == 0);
        assert(k == ulp_shift(p as nat));
        assert(k <= 63);
    }

    // The ulp itself.
    let mut ulp: u128 = 1;
    let mut t: u32 = 0;
    while t < k
        invariant
            t <= k <= 63,
            ulp == pow2(t as nat),
        decreases k - t,
    {
        proof {
            lemma2_to64();
            lemma2_to64_rest();
            lemma_pow2_unfold((t + 1) as nat);
            if t + 1 < 63 {
                lemma_pow2_strictly_increases((t + 1) as nat, 63);
            }
            assert(pow2((t + 1) as nat) <= pow2(63));
        }
        ulp = ulp * 2;
        t = t + 1;
    }
    proof {
        assert(ulp == pow2(ulp_shift(p as nat)));
        lemma_pow2_pos(k as nat);
    }

    // Round to nearest, ties to even, at 53 bits.
    let q: u128 = p / ulp;
    let rem: u128 = p % ulp;
    proof {
        lemma_fundamental_div_mod(p as int, ulp as int);
        lemma_mul_is_commutative(q as int, ulp as int);
        assert(q * ulp <= p);
        assert((q + 1) * ulp == q * ulp + ulp) by (nonlinear_arith);
        assert((q + 1) * ulp <= p + ulp);
        assert((ulp as nat) <= pow2(63)) by {
            if k < 63 {
                lemma_pow2_strictly_increases(k as nat, 63);
            }
        }
    }
    let rounded: u128;
    if 2 * rem < ulp {
        rounded = q * ulp;
    } else if 2 * rem > ulp {
        rounded = (q + 1) * ulp;
    } else if q % 2 == 0 {
        rounded = q * ulp;
    } else {
        rounded = (q + 1) * ulp;
    }
    proof {
        assert(rounded as nat == round_to_double(p as nat));
        assert((len as nat) * (u.num as nat) < (len as nat) * pow2(u.exp as nat)) by {
            lemma_mul_strict_inequality(u.num as int, pow2(u.exp as nat) as int, len as int);
            lemma_mul_is_commutative(u.num as int, len as int);
            lemma_mul_is_commutative(pow2(u.exp as nat) as int, len as int);
        }
        lemma_round_le(p as nat, len as nat, u.exp as nat);
        assert(rounded as nat <= (len as nat) * pow2(u.exp as nat));
    }

    // Truncate: divide by 2^exp.
    let exp = u.exp;
    if exp >= 117 {
        proof {
            assert((rounded as nat) < pow2(117)) by {
                assert((rounded as nat) <= (p as nat) + (ulp as nat));
                assert((ulp as nat) <= pow2(63)) by {
                    if k < 63 {
                        lemma_pow2_strictly_increases(k as nat, 63);
                    }
                }
                lemma_pow2_unfold(117);
            }
            if exp > 117 {
                lemma_pow2_strictly_increases(117, exp as nat);
            }
            assert((rounded as nat) < pow2(exp as nat));
            lemma_basic_div(rounded as int, pow2(exp as nat) as int);
            assert(round_to_double(p as nat) / pow2(exp as nat) == 0);
            reveal(spec_random_index);
        }
        return 0;
    }

    let mut divisor: u128 = 1;
    let mut e: u32 = 0;
    while e < exp
        invariant
            e <= exp <= 116,
            divisor == pow2(e as nat),
        decreases exp - e,
    {
        proof {
            lemma2_to64();
            lemma2_to64_rest();
            lemma_pow2_adds(53, 64);
            lemma_pow2_unfold((e + 1) as nat);
            if e + 1 < 117 {
                lemma_pow2_strictly_increases((e + 1) as nat, 117);
            }
            assert(pow2((e + 1) as nat) <= pow2(117));
            assert(pow2(117) == pow2(53) * pow2(64));
        }
        divisor = divisor * 2;
        e = e + 1;
    }

    let res: u128 = rounded / divisor;
    proof {
        reveal(spec_random_index);
        assert(res as nat == spec_random_index(len as nat, u.num as nat, u.exp as nat));
        assert(res as nat <= len as nat) by {
            lemma_div_is_ordered(
                rounded as int,
                ((len as nat) * pow2(exp as nat)) as int,
                divisor as int,
            );
            lemma_div_by_multiple(len as int, divisor as int);
        }
    }
    res as usize
}

} // verus!

use vstd::prelude::*;
use crate::noise::NoiseSource;
use crate::noise::MaxNoise;
use vstd::arithmetic::power2::pow2;
use vstd::math::abs;

verus! {

/// Per-level decay of the displacement magnitude, as the exact rational
/// `num / den`. Each recursion level multiplies the current displacement by
/// this factor (rounding down); `num <= den` keeps the magnitude from
/// growing, so a profile's roughness shrinks level by level.
#[derive(Clone, Copy)]
pub struct Decay {
    pub num: u64,
    pub den: u64,
}

impl Decay {
    pub open spec fn wf(self) -> bool {
        1 <= self.den && self.num <= self.den
    }
}

/// What one decay step leaves of a displacement magnitude.
pub open spec fn decayed(d: int, dec: Decay) -> int {
    (d * dec.num as int) / (dec.den as int)
}

/// The displacement magnitude in force at recursion level `k`: the initial
/// magnitude with the decay applied `k` times.
pub open spec fn disp_at(d: int, dec: Decay, k: nat) -> int
    decreases k,
{
    if k == 0 {
        d
    } else {
        decayed(disp_at(d, dec, (k - 1) as nat), dec)
    }
}

/// Apply one decay step to a displacement magnitude.
pub fn decay_apply(d: i64, dec: Decay) -> (r: i64)
    requires
        0 <= d,
        dec.wf(),
    ensures
        r as int == decayed(d as int, dec),
        0 <= r <= d,
{
    proof {
        assert((d as int) * (dec.num as int) <= (d as int) * (dec.den as int))
            by (nonlinear_arith)
            requires 0 <= d, dec.num <= dec.den;
        assert((d as int) * (dec.den as int) < 0x1_0000_0000_0000_0000_0000_0000_0000_0000)
            by (nonlinear_arith)
            requires 0 <= d < 0x8000_0000_0000_0000, 0 <= dec.den < 0x1_0000_0000_0000_0000;
        assert(0 <= (d as int) * (dec.num as int)) by (nonlinear_arith)
            requires 0 <= d, 0 <= dec.num;
        vstd::arithmetic::div_mod::lemma_div_is_ordered(
            (d as int) * (dec.num as int),
            (d as int) * (dec.den as int),
            dec.den as int,
        );
        vstd::arithmetic::div_mod::lemma_div_by_multiple(d as int, dec.den as int);
        assert((d as int) * (dec.den as int) / (dec.den as int) == d as int);
        assert(0 <= (d as int) * (dec.num as int) / (dec.den as int)) by {
            vstd::arithmetic::div_mod::lemma_div_is_ordered(
                0,
                (d as int) * (dec.num as int),
                dec.den as int,
            );
        };
    }
    let prod: u128 = (d as u128) * (dec.num as u128);
    let q: u128 = prod / (dec.den as u128);
    q as i64
}

/// Midpoint of the index range `[i, j]`, rounding down.
pub open spec fn mid_spec(i: int, j: int) -> int {
    i + (j - i) / 2
}

/// Midpoint of the index range `[i, j]`, rounding down.
pub fn midpoint(i: usize, j: usize) -> (m: usize)
    requires
        i <= j,
    ensures
        m as int == mid_spec(i as int, j as int),
        i <= m <= j,
{
    i + (j - i) / 2
}

/// The height a populated slot holds (unused default for an empty slot).
pub open spec fn val_of(o: Option<i64>) -> int {
    match o {
        Some(v) => v as int,
        None => 0,
    }
}

/// The midpoint-displacement fill, as a function of the noise source's
/// model: from a source state and a slot sequence with `[i]` and `[j]`
/// populated, the source state and slots left behind. Each step writes the
/// midpoint of `[i, j]` with the endpoint average plus a draw from
/// `[-d, d]`, then recurses into both halves with the displacement decayed,
/// left half first — the draw order the reproducibility of a seeded source
/// rests on.
pub open spec fn spec_fill<R: NoiseSource>(
    rng: R,
    pts: Seq<Option<i64>>,
    i: int,
    j: int,
    steps: nat,
    d: int,
    dec: Decay,
) -> (R, Seq<Option<i64>>)
    decreases steps,
{
    let m = mid_spec(i, j);
    if steps == 0 || m == i || m == j {
        (rng, pts)
    } else {
        let a = val_of(pts[i]);
        let b = val_of(pts[j]);
        let n = rng.next_val(-d, d);
        let rng1 = rng.next_state(-d, d);
        let mv = (a + b) / 2 + n;
        let pts1 = pts.update(m, Some(mv as i64));
        let d1 = decayed(d, dec);
        let left = spec_fill(rng1, pts1, i, m, (steps - 1) as nat, d1, dec);
        spec_fill(left.0, left.1, m, j, (steps - 1) as nat, d1, dec)
    }
}

/// Recursive midpoint-displacement fill of the slots strictly between `i`
/// and `j`. Writes the midpoint as the endpoint average plus a draw from
/// `[-displacement, displacement]`, then descends into both halves with the
/// displacement decayed, left half first. Stops when the step budget is
/// exhausted or the range is too small to bisect. `bound` is a ghost bound
/// on the magnitude of the two endpoint values, which keeps every value the
/// recursion writes within `bound + steps * displacement`.
pub(crate) fn fill<R: NoiseSource>(
    rng: &mut R,
    points: &mut Vec<Option<i64>>,
    i: usize,
    j: usize,
    steps: u32,
    displacement: i64,
    dec: Decay,
    bound: Ghost<int>,
)
    requires
        i < j < old(points)@.len(),
        dec.wf(),
        0 <= displacement,
        old(points)@[i as int] is Some,
        old(points)@[j as int] is Some,
        0 <= bound@,
        abs(val_of(old(points)@[i as int])) <= bound@,
        abs(val_of(old(points)@[j as int])) <= bound@,
        bound@ + (steps as int) * (displacement as int) <= i64::MAX as int,
    ensures
        final(points)@.len() == old(points)@.len(),
        forall|k: int|
            0 <= k < final(points)@.len() && !(i < k < j) ==> final(points)@[k]
                == old(points)@[k],
        forall|k: int|
            0 <= k < final(points)@.len() && old(points)@[k] is Some
                ==> final(points)@[k] is Some,
        forall|k: int|
            i <= k <= j && final(points)@[k] is Some ==> (final(points)@[k] == old(points)@[k]
                || abs(val_of(final(points)@[k])) <= bound@ + (steps as int) * (
            displacement as int)),
        j - i == pow2(steps as nat) ==> forall|k: int|
            i <= k <= j ==> final(points)@[k] is Some,
        steps >= 1 && j - i >= 2 ==> {
            let m = mid_spec(i as int, j as int);
            &&& final(points)@[m] is Some
            &&& abs(val_of(final(points)@[m]) - (val_of(old(points)@[i as int])
                + val_of(old(points)@[j as int])) / 2) <= displacement
        },
        midpoints_displaced(
            final(points)@,
            i as int,
            j as int,
            steps as nat,
            displacement as int,
            dec,
        ),
        old(rng).deterministic() ==> {
            let r = spec_fill(
                *old(rng),
                old(points)@,
                i as int,
                j as int,
                steps as nat,
                displacement as int,
                dec,
            );
            &&& *final(rng) == r.0
            &&& final(points)@ == r.1
            &&& final(rng).deterministic()
        },
    decreases steps,
{
    proof {
        broadcast use vstd::arithmetic::power2::lemma_pow2_pos;

        if j - i == pow2(steps as nat) && steps >= 1 {
            vstd::arithmetic::power2::lemma_pow2_unfold(steps as nat);
            assert(j - i >= 2);
            assert((j - i) as int / 2 == pow2((steps - 1) as nat) as int) by {
                vstd::arithmetic::div_mod::lemma_div_by_multiple(
                    pow2((steps - 1) as nat) as int,
                    2,
                );
            };
        }
    }
    if steps == 0 {
        proof {
            assert(pow2(0) == 1) by {
                vstd::arithmetic::power2::lemma2_to64();
            };
        }
        return ;
    }
    let mid = midpoint(i, j);
    if mid == i || mid == j {
        proof {
            // A range of width 2 or more always has a proper midpoint, so
            // nothing is owed under the power-of-two hypothesis here.
            if j - i >= 2 {
                vstd::arithmetic::div_mod::lemma_div_is_ordered(2, j - i, 2);
                vstd::arithmetic::div_mod::lemma_div_decreases((j - i) as int, 2);
                assert(mid_spec(i as int, j as int) != i);
                assert(mid_spec(i as int, j as int) != j);
            }
        }
        return ;
    }
    let a: i64 = points[i].unwrap();
    let b: i64 = points[j].unwrap();
    let sum: i128 = a as i128 + b as i128;
    // Floor division by 2, computed over a shifted non-negative value.
    let avg: i128 = ((sum + 0x2_0000_0000_0000_0000i128) as u128 / 2) as i128
        - 0x1_0000_0000_0000_0000i128;
    proof {
        vstd::arithmetic::div_mod::lemma_hoist_over_denominator(
            sum as int,
            0x1_0000_0000_0000_0000,
            2,
        );
        assert(avg as int == (a as int + b as int) / 2);
        assert(-bound@ <= avg as int <= bound@) by {
            vstd::arithmetic::div_mod::lemma_div_is_ordered(2 * -bound@, sum as int, 2);
            vstd::arithmetic::div_mod::lemma_div_is_ordered(sum as int, 2 * bound@, 2);
            vstd::arithmetic::div_mod::lemma_div_multiples_vanish(-bound@, 2);
            vstd::arithmetic::div_mod::lemma_div_multiples_vanish(bound@, 2);
        };
        assert(bound@ + displacement <= bound@ + (steps as int) * (displacement as int))
            by (nonlinear_arith)
            requires 1 <= steps, 0 <= displacement;
    }
    let noise: i64 = rng.gen_range(-displacement, displacement);
    let mid_val: i64 = (avg + noise as i128) as i64;
    points[mid] = Some(mid_val);
    let new_disp = decay_apply(displacement, dec);
    let ghost rng1 = *rng;
    let ghost pts1 = points@;
    proof {
        assert((steps - 1) as int * (new_disp as int) <= (steps - 1) as int * (
        displacement as int)) by (nonlinear_arith)
            requires 1 <= steps, 0 <= new_disp <= displacement;
        assert((steps - 1) as int * (displacement as int) + displacement as int == (
        steps as int) * (displacement as int)) by (nonlinear_arith)
            requires 1 <= steps;
    }
    fill(rng, points, i, mid, steps - 1, new_disp, dec, Ghost(bound@ + displacement as int));
    let ghost rng2 = *rng;
    let ghost pts2 = points@;
    fill(rng, points, mid, j, steps - 1, new_disp, dec, Ghost(bound@ + displacement as int));
    proof {
        lemma_displaced_frame(
            pts2,
            points@,
            i as int,
            mid as int,
            (steps - 1) as nat,
            decayed(displacement as int, dec),
            dec,
        );
        assert(points@[mid as int] == pts1[mid as int]);
        assert(midpoints_displaced(
            points@,
            i as int,
            j as int,
            steps as nat,
            displacement as int,
            dec,
        ));
        if old(rng).deterministic() {
            let r = spec_fill(
                *old(rng),
                old(points)@,
                i as int,
                j as int,
                steps as nat,
                displacement as int,
                dec,
            );
            assert(pts1 == old(points)@.update(
                mid as int,
                Some(
                    (((a as int + b as int) / 2 + old(rng).next_val(
                        -(displacement as int),
                        displacement as int,
                    )) as i64),
                ),
            ));
            let l = spec_fill(
                rng1,
                pts1,
                i as int,
                mid as int,
                (steps - 1) as nat,
                decayed(displacement as int, dec),
                dec,
            );
            assert(rng2 == l.0 && pts2 == l.1);
            assert(*rng == r.0 && points@ == r.1);
        }
    }
}

/// The slot sequence a generation pass starts from: `2^steps + 1` slots,
/// all empty but the two ends, which hold the baseline.
pub open spec fn init_pts(steps: nat, baseline: i64) -> Seq<Option<i64>> {
    Seq::new(
        (pow2(steps) + 1) as nat,
        |k: int|
            if k == 0 || k == pow2(steps) as int {
                Some(baseline)
            } else {
                None
            },
    )
}

/// The heights the populated slots hold, in order.
pub open spec fn unwrap_all(s: Seq<Option<i64>>) -> Seq<i64> {
    Seq::new(
        s.len(),
        |k: int|
            match s[k] {
                Some(v) => v,
                None => 0i64,
            },
    )
}

/// The profile a deterministic noise source in a given state produces for
/// the given parameters.
pub open spec fn spec_profile<R: NoiseSource>(
    rng: R,
    steps: nat,
    d: int,
    dec: Decay,
    baseline: i64,
) -> Seq<i64> {
    unwrap_all(
        spec_fill(rng, init_pts(steps, baseline), 0, pow2(steps) as int, steps, d, dec).1,
    )
}

/// The state a deterministic noise source is left in by one generation pass.
pub open spec fn spec_profile_state<R: NoiseSource>(
    rng: R,
    steps: nat,
    d: int,
    dec: Decay,
    baseline: i64,
) -> R {
    spec_fill(rng, init_pts(steps, baseline), 0, pow2(steps) as int, steps, d, dec).0
}

/// Determinism: a deterministic source in a given state, with given
/// parameters, always yields the same profile and leaves the source in the
/// same state, so two generation passes set up alike produce identical
/// sequences.
pub proof fn lemma_profile_deterministic<R: NoiseSource>(
    r1: R,
    r2: R,
    steps: nat,
    d: int,
    dec: Decay,
    baseline: i64,
)
    requires
        r1 == r2,
    ensures
        spec_profile(r1, steps, d, dec, baseline) == spec_profile(r2, steps, d, dec, baseline),
        spec_profile_state(r1, steps, d, dec, baseline) == spec_profile_state(
            r2,
            steps,
            d,
            dec,
            baseline,
        ),
{
}

/// Generate a height profile of `2^steps + 1` values by midpoint
/// displacement: both ends sit at the baseline, and each recursion level
/// perturbs the midpoint of its range by a draw whose magnitude is capped
/// by the level's displacement. Every slot comes out populated.
pub fn compute_points<R: NoiseSource>(
    rng: &mut R,
    steps: u32,
    initial_displacement: i64,
    dec: Decay,
    baseline: i64,
) -> (points: Vec<i64>)
    requires
        dec.wf(),
        0 <= initial_displacement,
        pow2(steps as nat) + 1 <= usize::MAX as int,
        abs(baseline as int) + (steps as int) * (initial_displacement as int) <= i64::MAX as int,
    ensures
        points@.len() == pow2(steps as nat) + 1,
        points@[0] == baseline,
        points@[points@.len() - 1] == baseline,
        forall|k: int|
            0 <= k < points@.len() ==> abs(points@[k] as int) <= abs(baseline as int) + (
            steps as int) * (initial_displacement as int),
        steps >= 1 ==> abs(points@[pow2((steps - 1) as nat) as int] as int - baseline as int)
            <= initial_displacement,
        profile_displaced(
            points@,
            0,
            pow2(steps as nat) as int,
            steps as nat,
            initial_displacement as int,
            dec,
        ),
        old(rng).deterministic() ==> {
            &&& points@ == spec_profile(
                *old(rng),
                steps as nat,
                initial_displacement as int,
                dec,
                baseline,
            )
            &&& *final(rng) == spec_profile_state(
                *old(rng),
                steps as nat,
                initial_displacement as int,
                dec,
                baseline,
            )
            &&& final(rng).deterministic()
        },
{
    proof {
        broadcast use vstd::arithmetic::power2::lemma_pow2_pos;

        assert(pow2(0) == 1) by {
            vstd::arithmetic::power2::lemma2_to64();
        };
    }
    let mut size: usize = 1;
    let mut k: u32 = 0;
    while k < steps
        invariant
            k <= steps,
            size as int == pow2(k as nat),
            pow2(steps as nat) + 1 <= usize::MAX as int,
        decreases steps - k,
    {
        proof {
            vstd::arithmetic::power2::lemma_pow2_unfold((k + 1) as nat);
            if k + 1 < steps {
                vstd::arithmetic::power2::lemma_pow2_strictly_increases(
                    (k + 1) as nat,
                    steps as nat,
                );
            }
            assert(2 * pow2(k as nat) <= pow2(steps as nat));
        }
        size = size * 2;
        k = k + 1;
    }
    proof {
        broadcast use vstd::arithmetic::power2::lemma_pow2_pos;

    }
    let mut slots: Vec<Option<i64>> = Vec::new();
    slots.push(Some(baseline));
    let mut t: usize = 1;
    while t < size
        invariant
            1 <= t <= size,
            slots@.len() == t,
            slots@[0] == Some(baseline),
            forall|m: int| 1 <= m < t ==> slots@[m] is None,
        decreases size - t,
    {
        slots.push(None);
        t = t + 1;
    }
    slots.push(Some(baseline));
    proof {
        assert(slots@ =~= init_pts(steps as nat, baseline));
    }
    let ghost rng0 = *rng;
    let ghost pre = slots@;
    fill(
        rng,
        &mut slots,
        0,
        size,
        steps,
        initial_displacement,
        dec,
        Ghost(abs(baseline as int) as int),
    );
    let mut points: Vec<i64> = Vec::new();
    let mut u: usize = 0;
    let total: usize = slots.len();
    while u < total
        invariant
            total == slots@.len(),
            slots@.len() == pow2(steps as nat) + 1,
            forall|m: int| 0 <= m < slots@.len() ==> slots@[m] is Some,
            u <= slots@.len(),
            points@.len() == u,
            forall|m: int| 0 <= m < u ==> points@[m] as int == val_of(slots@[m]),
        decreases total - u,
    {
        let o: Option<i64> = slots[u];
        points.push(o.unwrap());
        u = u + 1;
    }
    proof {
        assert(points@ =~= unwrap_all(slots@));
        lemma_displaced_unwrap(
            slots@,
            0,
            pow2(steps as nat) as int,
            steps as nat,
            initial_displacement as int,
            dec,
        );
        // The two ends were never rewritten and hold the baseline.
        assert(slots@[0] == pre[0]);
        assert(slots@[pow2(steps as nat) as int] == pre[pow2(steps as nat) as int]);
        // The root midpoint of a non-trivial pass sits within one full
        // displacement of the baseline, since the endpoint average is the
        // baseline itself.
        if steps >= 1 {
            vstd::arithmetic::power2::lemma_pow2_unfold(steps as nat);
            assert((size as int) / 2 == pow2((steps - 1) as nat) as int) by {
                vstd::arithmetic::div_mod::lemma_div_by_multiple(
                    pow2((steps - 1) as nat) as int,
                    2,
                );
            };
            assert((baseline as int + baseline as int) / 2 == baseline as int) by {
                vstd::arithmetic::div_mod::lemma_div_multiples_vanish(baseline as int, 2);
            };
        }
    }
    points
}

/// Every slot outside the open range `(i, j)` is left exactly as it was by
/// a fill pass over `[i, j]`.
pub proof fn lemma_fill_frame<R: NoiseSource>(
    rng: R,
    pts: Seq<Option<i64>>,
    i: int,
    j: int,
    steps: nat,
    d: int,
    dec: Decay,
)
    requires
        0 <= i < j < pts.len(),
    ensures
        ({
            let r = spec_fill(rng, pts, i, j, steps, d, dec);
            &&& r.1.len() == pts.len()
            &&& forall|k: int| 0 <= k < pts.len() && !(i < k < j) ==> r.1[k] == pts[k]
        }),
    decreases steps,
{
    let m = mid_spec(i, j);
    if steps == 0 || m == i || m == j {
    } else {
        vstd::arithmetic::div_mod::lemma_div_is_ordered(0, j - i, 2);
        vstd::arithmetic::div_mod::lemma_div_nonincreasing(j - i, 2);
        assert(i <= m <= j);
        let a = val_of(pts[i]);
        let b = val_of(pts[j]);
        let n = rng.next_val(-d, d);
        let rng1 = rng.next_state(-d, d);
        let mv = (a + b) / 2 + n;
        let pts1 = pts.update(m, Some(mv as i64));
        let d1 = decayed(d, dec);
        let left = spec_fill(rng1, pts1, i, m, (steps - 1) as nat, d1, dec);
        lemma_fill_frame(rng1, pts1, i, m, (steps - 1) as nat, d1, dec);
        lemma_fill_frame(left.0, left.1, m, j, (steps - 1) as nat, d1, dec);
        assert(spec_fill(rng, pts, i, j, steps, d, dec) == spec_fill(
            left.0,
            left.1,
            m,
            j,
            (steps - 1) as nat,
            d1,
            dec,
        ));
        let r = spec_fill(rng, pts, i, j, steps, d, dec);
        assert(r.1.len() == pts.len());
        assert forall|k: int| 0 <= k < pts.len() && !(i < k < j) implies r.1[k] == pts[k] by {
            assert(left.1[k] == pts1[k]);
            assert(r.1[k] == left.1[k]);
        };
    }
}

/// One decay step neither grows a displacement nor drives it negative.
pub proof fn lemma_decayed_bounds(d: int, dec: Decay)
    requires
        0 <= d,
        dec.wf(),
    ensures
        0 <= decayed(d, dec) <= d,
{
    assert(d * (dec.num as int) <= d * (dec.den as int)) by (nonlinear_arith)
        requires 0 <= d, dec.num <= dec.den;
    assert(0 <= d * (dec.num as int)) by (nonlinear_arith)
        requires 0 <= d, 0 <= dec.num;
    vstd::arithmetic::div_mod::lemma_div_is_ordered(
        d * (dec.num as int),
        d * (dec.den as int),
        dec.den as int,
    );
    vstd::arithmetic::div_mod::lemma_div_by_multiple(d, dec.den as int);
    vstd::arithmetic::div_mod::lemma_div_is_ordered(0, d * (dec.num as int), dec.den as int);
}

/// Decaying first and then walking `k` levels is walking `k + 1` levels.
pub proof fn lemma_disp_shift(d: int, dec: Decay, k: nat)
    ensures
        disp_at(decayed(d, dec), dec, k) == disp_at(d, dec, (k + 1) as nat),
    decreases k,
{
    if k == 0 {
        assert(disp_at(decayed(d, dec), dec, 0) == decayed(d, dec));
        assert(disp_at(d, dec, 1) == decayed(disp_at(d, dec, 0), dec));
    } else {
        lemma_disp_shift(d, dec, (k - 1) as nat);
        assert(disp_at(decayed(d, dec), dec, k) == decayed(
            disp_at(decayed(d, dec), dec, (k - 1) as nat),
            dec,
        ));
        assert(disp_at(d, dec, (k + 1) as nat) == decayed(disp_at(d, dec, k), dec));
    }
}

/// The value the always-max source leaves at the leftmost midpoint filled
/// at recursion level `k`, for a range with endpoint values `a` and `b`:
/// each level adds the full displacement then in force, `disp_at(d, dec, k)`,
/// on top of the endpoint average.
pub open spec fn lspine(a: int, b: int, d: int, dec: Decay, k: nat) -> int
    decreases k,
{
    if k == 0 {
        (a + b) / 2 + d
    } else {
        (a + lspine(a, b, d, dec, (k - 1) as nat)) / 2 + disp_at(d, dec, k)
    }
}

/// Starting the spine one level down, from the root midpoint's value, walks
/// the same values one level later.
pub proof fn lemma_lspine_shift(a: int, b: int, d: int, dec: Decay, k: nat)
    ensures
        lspine(a, lspine(a, b, d, dec, 0), decayed(d, dec), dec, k) == lspine(
            a,
            b,
            d,
            dec,
            (k + 1) as nat,
        ),
    decreases k,
{
    let v0 = lspine(a, b, d, dec, 0);
    let d1 = decayed(d, dec);
    if k == 0 {
        assert(lspine(a, v0, d1, dec, 0) == (a + v0) / 2 + d1);
        assert(disp_at(d, dec, 1) == decayed(disp_at(d, dec, 0), dec));
        assert(lspine(a, b, d, dec, 1) == (a + lspine(a, b, d, dec, 0)) / 2 + disp_at(
            d,
            dec,
            1,
        ));
    } else {
        lemma_lspine_shift(a, b, d, dec, (k - 1) as nat);
        lemma_disp_shift(d, dec, k);
        assert(lspine(a, v0, d1, dec, k) == (a + lspine(a, v0, d1, dec, (k - 1) as nat)) / 2
            + disp_at(d1, dec, k));
        assert(lspine(a, b, d, dec, (k + 1) as nat) == (a + lspine(a, b, d, dec, k)) / 2
            + disp_at(d, dec, (k + 1) as nat));
    }
}

/// Values within `bound` of zero average within `bound` of zero.
proof fn lemma_avg_bounded(a: int, b: int, bound: int)
    requires
        abs(a) <= bound,
        abs(b) <= bound,
    ensures
        abs((a + b) / 2) <= bound,
{
    vstd::arithmetic::div_mod::lemma_div_is_ordered(2 * -bound, a + b, 2);
    vstd::arithmetic::div_mod::lemma_div_is_ordered(a + b, 2 * bound, 2);
    vstd::arithmetic::div_mod::lemma_div_multiples_vanish(-bound, 2);
    vstd::arithmetic::div_mod::lemma_div_multiples_vanish(bound, 2);
}

/// With the always-max source, a fill pass over a range of width
/// `2^steps` whose endpoints hold `a` and `b` leaves exactly
/// `lspine(a, b, d, dec, k)` at the leftmost midpoint of recursion level
/// `k`, the slot `i + 2^(steps - k - 1)`.
pub proof fn lemma_max_fill_spine(
    rng: MaxNoise,
    pts: Seq<Option<i64>>,
    i: int,
    j: int,
    steps: nat,
    d: int,
    dec: Decay,
    bound: int,
    k: nat,
)
    requires
        dec.wf(),
        0 <= d,
        0 <= bound,
        0 <= i < j < pts.len(),
        j - i == pow2(steps),
        pts[i] is Some,
        pts[j] is Some,
        abs(val_of(pts[i])) <= bound,
        abs(val_of(pts[j])) <= bound,
        bound + steps * d <= i64::MAX as int,
        k < steps,
    ensures
        ({
            let r = spec_fill(rng, pts, i, j, steps, d, dec);
            &&& r.1[i + pow2((steps - k - 1) as nat) as int] is Some
            &&& val_of(r.1[i + pow2((steps - k - 1) as nat) as int]) == lspine(
                val_of(pts[i]),
                val_of(pts[j]),
                d,
                dec,
                k,
            )
        }),
    decreases k,
{
    broadcast use vstd::arithmetic::power2::lemma_pow2_pos;

    vstd::arithmetic::power2::lemma_pow2_unfold(steps);
    assert(j - i >= 2);
    let m = mid_spec(i, j);
    assert(m - i == pow2((steps - 1) as nat) as int) by {
        vstd::arithmetic::div_mod::lemma_div_by_multiple(pow2((steps - 1) as nat) as int, 2);
    };
    let a = val_of(pts[i]);
    let b = val_of(pts[j]);
    let mv = (a + b) / 2 + d;
    lemma_avg_bounded(a, b, bound);
    assert(1 * d <= steps * d) by (nonlinear_arith)
        requires 1 <= steps, 0 <= d;
    assert(abs(mv) <= bound + d);
    let pts1 = pts.update(m, Some(mv as i64));
    let d1 = decayed(d, dec);
    lemma_decayed_bounds(d, dec);
    let left = spec_fill(rng, pts1, i, m, (steps - 1) as nat, d1, dec);
    assert((steps - 1) as int * d1 <= (steps - 1) as int * d) by (nonlinear_arith)
        requires 1 <= steps, 0 <= d1 <= d;
    assert((steps - 1) as int * d + d == steps * d) by (nonlinear_arith)
        requires 1 <= steps;
    lemma_fill_frame(rng, pts1, i, m, (steps - 1) as nat, d1, dec);
    lemma_fill_frame(left.0, left.1, m, j, (steps - 1) as nat, d1, dec);
    let r = spec_fill(rng, pts, i, j, steps, d, dec);
    if k == 0 {
        assert(r.1[m] == pts1[m]);
    } else {
        assert(pow2((steps - k - 1) as nat) < pow2((steps - 1) as nat)) by {
            vstd::arithmetic::power2::lemma_pow2_strictly_increases(
                (steps - k - 1) as nat,
                (steps - 1) as nat,
            );
        };
        lemma_max_fill_spine(
            rng,
            pts1,
            i,
            m,
            (steps - 1) as nat,
            d1,
            dec,
            bound + d,
            (k - 1) as nat,
        );
        lemma_lspine_shift(a, b, d, dec, (k - 1) as nat);
        assert(r.1[i + pow2((steps - k - 1) as nat) as int] == left.1[i + pow2(
            (steps - k - 1) as nat,
        ) as int]);
    }
}

/// Decay law: the perturbation applied at recursion level `k` is the
/// initial displacement decayed `k` times, `disp_at(d, dec, k)`. With the
/// always-max source every draw attains that full magnitude, so the
/// leftmost midpoint filled at level `k` — the slot `2^(steps - k - 1)` —
/// exceeds the average of its range's endpoint values by exactly
/// `disp_at(d, dec, k)`.
pub proof fn lemma_decay_law(steps: nat, d: int, dec: Decay, baseline: i64, k: nat)
    requires
        dec.wf(),
        0 <= d,
        k < steps,
        abs(baseline as int) + steps * d <= i64::MAX as int,
    ensures
        spec_profile(MaxNoise, steps, d, dec, baseline)[pow2((steps - k - 1) as nat) as int]
            as int == lspine(baseline as int, baseline as int, d, dec, k),
        k == 0 ==> lspine(baseline as int, baseline as int, d, dec, k) == baseline as int
            + disp_at(d, dec, 0),
        k >= 1 ==> lspine(baseline as int, baseline as int, d, dec, k) == (baseline as int
            + lspine(baseline as int, baseline as int, d, dec, (k - 1) as nat)) / 2 + disp_at(
            d,
            dec,
            k,
        ),
    decreases k,
{
    broadcast use vstd::arithmetic::power2::lemma_pow2_pos;

    let pts = init_pts(steps, baseline);
    lemma_fill_frame(MaxNoise, pts, 0, pow2(steps) as int, steps, d, dec);
    lemma_max_fill_spine(
        MaxNoise,
        pts,
        0,
        pow2(steps) as int,
        steps,
        d,
        dec,
        abs(baseline as int) as int,
        k,
    );
    assert((baseline as int + baseline as int) / 2 == baseline as int) by {
        vstd::arithmetic::div_mod::lemma_div_multiples_vanish(baseline as int, 2);
    };
    assert(pow2((steps - k - 1) as nat) < pow2(steps)) by {
        vstd::arithmetic::power2::lemma_pow2_strictly_increases((steps - k - 1) as nat, steps);
    };
}

/// A depth of zero performs no recursion: the profile is the two baseline
/// endpoints and nothing else, whatever the source and the other
/// parameters.
pub proof fn lemma_depth_zero<R: NoiseSource>(rng: R, d: int, dec: Decay, baseline: i64)
    ensures
        spec_profile(rng, 0, d, dec, baseline) == seq![baseline, baseline],
{
    assert(pow2(0) == 1) by {
        vstd::arithmetic::power2::lemma2_to64();
    };
    let pts = init_pts(0, baseline);
    assert(spec_fill(rng, pts, 0, 1, 0, d, dec).1 == pts);
    assert(spec_profile(rng, 0, d, dec, baseline) =~= seq![baseline, baseline]);
}

/// The midpoint-displacement invariant over the filled slots: within
/// `[i, j]`, the midpoint of every range bisected at some recursion level
/// is populated and sits within that level's displacement magnitude of its
/// range's endpoint average; the magnitude decays by `dec` per level.
pub open spec fn midpoints_displaced(
    pts: Seq<Option<i64>>,
    i: int,
    j: int,
    steps: nat,
    d: int,
    dec: Decay,
) -> bool
    decreases steps,
{
    let m = mid_spec(i, j);
    if steps == 0 || m == i || m == j {
        true
    } else {
        &&& pts[m] is Some
        &&& abs(val_of(pts[m]) - (val_of(pts[i]) + val_of(pts[j])) / 2) <= d
        &&& midpoints_displaced(pts, i, m, (steps - 1) as nat, decayed(d, dec), dec)
        &&& midpoints_displaced(pts, m, j, (steps - 1) as nat, decayed(d, dec), dec)
    }
}

/// The same invariant over a fully populated profile.
pub open spec fn profile_displaced(
    prof: Seq<i64>,
    i: int,
    j: int,
    steps: nat,
    d: int,
    dec: Decay,
) -> bool
    decreases steps,
{
    let m = mid_spec(i, j);
    if steps == 0 || m == i || m == j {
        true
    } else {
        &&& abs(prof[m] as int - (prof[i] as int + prof[j] as int) / 2) <= d
        &&& profile_displaced(prof, i, m, (steps - 1) as nat, decayed(d, dec), dec)
        &&& profile_displaced(prof, m, j, (steps - 1) as nat, decayed(d, dec), dec)
    }
}

/// The midpoint-displacement invariant reads only the slots of `[i, j]`,
/// so sequences that agree there satisfy it alike.
pub proof fn lemma_displaced_frame(
    p1: Seq<Option<i64>>,
    p2: Seq<Option<i64>>,
    i: int,
    j: int,
    steps: nat,
    d: int,
    dec: Decay,
)
    requires
        0 <= i <= j < p1.len(),
        forall|k: int| i <= k <= j ==> p1[k] == p2[k],
        midpoints_displaced(p1, i, j, steps, d, dec),
    ensures
        midpoints_displaced(p2, i, j, steps, d, dec),
    decreases steps,
{
    let m = mid_spec(i, j);
    if steps == 0 || m == i || m == j {
    } else {
        vstd::arithmetic::div_mod::lemma_div_is_ordered(0, j - i, 2);
        vstd::arithmetic::div_mod::lemma_div_nonincreasing(j - i, 2);
        assert(i <= m <= j);
        lemma_displaced_frame(p1, p2, i, m, (steps - 1) as nat, decayed(d, dec), dec);
        lemma_displaced_frame(p1, p2, m, j, (steps - 1) as nat, decayed(d, dec), dec);
    }
}

/// Over a fully populated slot sequence the two readings of the invariant
/// agree: the profile of the held values is displaced wherever the slots
/// are.
pub proof fn lemma_displaced_unwrap(
    pts: Seq<Option<i64>>,
    i: int,
    j: int,
    steps: nat,
    d: int,
    dec: Decay,
)
    requires
        0 <= i <= j < pts.len(),
        forall|k: int| 0 <= k < pts.len() ==> pts[k] is Some,
        midpoints_displaced(pts, i, j, steps, d, dec),
    ensures
        profile_displaced(unwrap_all(pts), i, j, steps, d, dec),
    decreases steps,
{
    let m = mid_spec(i, j);
    if steps == 0 || m == i || m == j {
    } else {
        vstd::arithmetic::div_mod::lemma_div_is_ordered(0, j - i, 2);
        vstd::arithmetic::div_mod::lemma_div_nonincreasing(j - i, 2);
        assert(i <= m <= j);
        lemma_displaced_unwrap(pts, i, m, (steps - 1) as nat, decayed(d, dec), dec);
        lemma_displaced_unwrap(pts, m, j, (steps - 1) as nat, decayed(d, dec), dec);
    }
}

} // verus!

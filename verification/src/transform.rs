//! An O(n) exact one-dimensional squared Euclidean distance transform.
//!
//! Given samples `f[0..n]` (squared "potential" values) and a weight `w`,
//! the transform computes, for every output index `q`, the minimum over all
//! source indices `p` of `w * (q - p)^2 + f[p]`.  The weight lets callers
//! keep samples in a fixed-point scale: a sample worth `s` squared pixels is
//! stored as `w * s`.
//!
//! The implementation maintains the lower envelope of the parabolas rooted
//! at the source indices, keeping a stack of the apexes that reach the
//! envelope together with the boundaries of their regions of dominance.
//! Because samples, weight and positions are integers, each boundary is an
//! integer too: the least output index at which the later parabola wins.

use vstd::arithmetic::div_mod::lemma_fundamental_div_mod;
use vstd::prelude::*;

verus! {

/// Largest number of samples a transform accepts.
pub const DT_MAX_LEN: usize = 65536;

/// Largest weight a transform accepts.
pub const DT_MAX_WEIGHT: i64 = 0x8_0000;

/// Largest sample value a transform accepts; large enough to hold the
/// "perfectly outside" potential of the SDF renderer and every cost the
/// column pass can produce.
pub const DT_MAX_SAMPLE: i64 = 0x1000_0000_0000_0000;

/// Sentinel below every region boundary.
pub(crate) const Z_NEG: i64 = -0x4000_0000_0000_0000;

/// Sentinel above every region boundary.
pub(crate) const Z_POS: i64 = 0x4000_0000_0000_0000;

/// The cost of answering output position `x` from source position `p`.
pub open spec fn dt_cost(f: Seq<i64>, w: int, x: int, p: int) -> int {
    w * (x - p) * (x - p) + f[p]
}

/// The least cost of answering `x` from any source position below `m`.
pub open spec fn dt_min_below(f: Seq<i64>, w: int, x: int, m: int) -> int
    decreases m,
{
    if m <= 1 {
        dt_cost(f, w, x, 0)
    } else {
        vstd::math::min(dt_min_below(f, w, x, m - 1), dt_cost(f, w, x, m - 1))
    }
}

/// The transform's value at `x`: the least cost over all source positions.
pub open spec fn dt_min(f: Seq<i64>, w: int, x: int) -> int {
    dt_min_below(f, w, x, f.len() as int)
}

/// The least cost is no larger than any single cost.
pub(crate) proof fn lemma_dt_min_le(f: Seq<i64>, w: int, x: int, m: int, p: int)
    requires
        0 <= p < m,
    ensures
        dt_min_below(f, w, x, m) <= dt_cost(f, w, x, p),
    decreases m,
{
    if m > 1 && p < m - 1 {
        lemma_dt_min_le(f, w, x, m - 1, p);
    }
}

/// The least cost is attained by some source position.
pub(crate) proof fn lemma_dt_min_attained(f: Seq<i64>, w: int, x: int, m: int)
    requires
        1 <= m,
    ensures
        exists|p: int| 0 <= p < m && dt_min_below(f, w, x, m) == dt_cost(f, w, x, p),
    decreases m,
{
    if m == 1 {
        assert(dt_min_below(f, w, x, m) == dt_cost(f, w, x, 0));
    } else {
        lemma_dt_min_attained(f, w, x, m - 1);
    }
}

/// Difference of two costs at the same output position: comparing the
/// parabola rooted at `q` against the one rooted at `u` is linear in `x`.
proof fn lemma_cost_difference(f: Seq<i64>, w: int, x: int, q: int, u: int)
    requires
        0 <= u < f.len(),
        0 <= q < f.len(),
    ensures
        dt_cost(f, w, x, q) - dt_cost(f, w, x, u) == w * (q * q - u * u) + f[q] - f[u] - 2 * w * (q
            - u) * x,
{
    assert((x - q) * (x - q) - (x - u) * (x - u) == (q * q - u * u) - 2 * (q - u) * x) by (
    nonlinear_arith);
    assert(w * ((x - q) * (x - q)) - w * ((x - u) * (x - u)) == w * ((q * q - u * u) - 2 * (q - u)
        * x)) by (nonlinear_arith)
        requires
            (x - q) * (x - q) - (x - u) * (x - u) == (q * q - u * u) - 2 * (q - u) * x,
    ;
    assert(w * ((q * q - u * u) - 2 * (q - u) * x) == w * (q * q - u * u) - 2 * w * (q - u) * x)
        by (nonlinear_arith);
    assert(w * (x - q) * (x - q) == w * ((x - q) * (x - q)) && w * (x - u) * (x - u) == w * ((x - u)
        * (x - u))) by (nonlinear_arith);
}

/// At or beyond the positive sentinel, the parabola rooted at the larger
/// index always wins.
proof fn lemma_far_beats(f: Seq<i64>, w: int, x: int, q: int, u: int)
    requires
        0 <= u < q < f.len(),
        f.len() <= DT_MAX_LEN,
        1 <= w <= DT_MAX_WEIGHT,
        0 <= f[u] <= DT_MAX_SAMPLE,
        0 <= f[q] <= DT_MAX_SAMPLE,
        x >= Z_POS,
    ensures
        dt_cost(f, w, x, q) <= dt_cost(f, w, x, u),
{
    lemma_cost_difference(f, w, x, q, u);
    assert(w * (q * q - u * u) <= DT_MAX_WEIGHT * (DT_MAX_LEN * DT_MAX_LEN)) by (nonlinear_arith)
        requires
            1 <= w <= DT_MAX_WEIGHT,
            0 <= u < q < DT_MAX_LEN,
    ;
    assert(2 * w * (q - u) * x >= 2 * Z_POS) by (nonlinear_arith)
        requires
            1 <= w,
            u < q,
            x >= Z_POS,
            Z_POS > 0,
    ;
}

/// Region `j` of the envelope answers every output position it covers at
/// least as cheaply as any source position below `m`.
pub(crate) open spec fn region_opt(
    f: Seq<i64>,
    w: int,
    v: Seq<usize>,
    z: Seq<i64>,
    j: int,
    m: int,
) -> bool {
    forall|x: int, p: int|
        #![trigger dt_cost(f, w, x, p)]
        z[j] <= x < z[j + 1] && 0 <= p < m ==> dt_cost(f, w, x, v[j] as int) <= dt_cost(f, w, x, p)
}

/// Every region up to `k` is optimal among the source positions below `m`.
pub(crate) open spec fn envelope(
    f: Seq<i64>,
    w: int,
    v: Seq<usize>,
    z: Seq<i64>,
    k: int,
    m: int,
) -> bool {
    forall|j: int| 0 <= j <= k ==> #[trigger] region_opt(f, w, v, z, j, m)
}

/// Above the top region's lower boundary, the top apex or the incoming
/// candidate `q` answers at least as cheaply as any source position
/// below `q`.
pub(crate) open spec fn top_covers(
    f: Seq<i64>,
    w: int,
    v: Seq<usize>,
    z: Seq<i64>,
    k: int,
    q: int,
) -> bool {
    forall|x: int, p: int|
        #![trigger dt_cost(f, w, x, p)]
        x >= z[k] && 0 <= p < q ==> dt_cost(f, w, x, v[k] as int) <= dt_cost(f, w, x, p) || dt_cost(
            f,
            w,
            x,
            q,
        ) <= dt_cost(f, w, x, p)
}

/// The samples a transform accepts.
pub open spec fn samples_ok(f: Seq<i64>) -> bool {
    &&& f.len() <= DT_MAX_LEN
    &&& forall|p: int| 0 <= p < f.len() ==> 0 <= #[trigger] f[p] <= DT_MAX_SAMPLE
}

/// The envelope stack during and between candidate steps: apexes strictly
/// increasing and below `q`, boundaries strictly increasing between the
/// sentinels.
pub(crate) open spec fn dt_state(
    f: Seq<i64>,
    w: int,
    v: Seq<usize>,
    z: Seq<i64>,
    k: int,
    q: int,
) -> bool {
    &&& v.len() == f.len()
    &&& z.len() == f.len() + 1
    &&& 0 <= k < f.len()
    &&& k < q
    &&& (forall|j: int| 0 <= j <= k ==> (#[trigger] v[j]) < q)
    &&& (forall|a: int, c: int| #![trigger v[a], v[c]] 0 <= a < c <= k ==> v[a] < v[c])
    &&& z[0] == Z_NEG
    &&& z[k + 1] == Z_POS
    &&& (forall|j: int| 1 <= j <= k ==> Z_NEG < (#[trigger] z[j]) < Z_POS)
    &&& (forall|a: int, c: int| #![trigger z[a], z[c]] 0 <= a < c <= k ==> z[a] < z[c])
    &&& envelope(f, w, v, z, k, q)
}

/// Ceiling division: the least `r` with `a <= b * r`.
fn ceil_div(a: i64, b: i64) -> (r: i64)
    requires
        1 <= b <= 0x40_0000_0000,
        -0x2000_0000_0000_0000 <= a <= 0x2000_0000_0000_0000,
    ensures
        b * (r - 1) < a <= b * r,
        -0x2000_0000_0000_0000 <= r <= 0x2000_0000_0000_0001,
{
    if a > 0 {
        let m = (a as u64) + (b as u64) - 1;
        let q = m / (b as u64);
        proof {
            lemma_fundamental_div_mod(m as int, b as int);
            assert(q * (b as int) <= m as int) by (nonlinear_arith)
                requires
                    q == (m as int) / (b as int),
                    b >= 1,
                    m >= 0,
                    (m as int) == (b as int) * ((m as int) / (b as int)) + (m as int) % (b as int),
                    0 <= (m as int) % (b as int) < b,
            ;
            assert(q <= m as int);
            assert(b * (q as int) >= a && b * ((q as int) - 1) < a) by (nonlinear_arith)
                requires
                    (m as int) == a + b - 1,
                    (m as int) == (b as int) * (q as int) + (m as int) % (b as int),
                    0 <= (m as int) % (b as int) < b,
                    b >= 1,
            ;
            assert((q as int) <= a) by (nonlinear_arith)
                requires
                    b * ((q as int) - 1) < a,
                    b >= 1,
                    q >= 0,
                    a > 0,
            ;
        }
        q as i64
    } else {
        let m = (-a) as u64;
        let q = m / (b as u64);
        proof {
            lemma_fundamental_div_mod(m as int, b as int);
            assert(q <= m as int) by (nonlinear_arith)
                requires
                    q == (m as int) / (b as int),
                    b >= 1,
                    m >= 0,
                    (m as int) == (b as int) * ((m as int) / (b as int)) + (m as int) % (b as int),
                    0 <= (m as int) % (b as int) < b,
            ;
            assert(b * (-(q as int)) >= a && b * (-(q as int) - 1) < a) by (nonlinear_arith)
                requires
                    (m as int) == -a,
                    (m as int) == (b as int) * (q as int) + (m as int) % (b as int),
                    0 <= (m as int) % (b as int) < b,
                    b >= 1,
            ;
        }
        -(q as i64)
    }
}

/// The transform's values stay within the sample range: every result is
/// nonnegative and no larger than the sample at its own position.
pub(crate) proof fn lemma_dt_min_bounds(f: Seq<i64>, w: int, x: int)
    requires
        1 <= w,
        0 <= x < f.len(),
        forall|p: int| 0 <= p < f.len() ==> 0 <= #[trigger] f[p],
    ensures
        0 <= dt_min(f, w, x) <= f[x],
{
    lemma_dt_min_le(f, w, x, f.len() as int, x);
    assert(w * (x - x) * (x - x) == 0) by (nonlinear_arith);
    lemma_dt_min_attained(f, w, x, f.len() as int);
    let p0 = choose|p: int| 0 <= p < f.len() && dt_min(f, w, x) == dt_cost(f, w, x, p);
    assert(w * (x - p0) * (x - p0) >= 0) by (nonlinear_arith)
        requires
            w >= 1,
    ;
}

/// With `s` the integer boundary between the parabolas rooted at `u` and
/// `q > u`, position `x` is answered more cheaply by `q` exactly when
/// `x >= s`.
proof fn lemma_boundary(f: Seq<i64>, w: int, x: int, q: int, u: int, s: int)
    requires
        0 <= u < q < f.len(),
        1 <= w,
        2 * w * (q - u) * (s - 1) < w * (q * q - u * u) + f[q] - f[u],
        w * (q * q - u * u) + f[q] - f[u] <= 2 * w * (q - u) * s,
    ensures
        x >= s ==> dt_cost(f, w, x, q) <= dt_cost(f, w, x, u),
        x < s ==> dt_cost(f, w, x, q) > dt_cost(f, w, x, u),
{
    lemma_cost_difference(f, w, x, q, u);
    if x >= s {
        assert(2 * w * (q - u) * x >= 2 * w * (q - u) * s) by (nonlinear_arith)
            requires
                x >= s,
                w >= 1,
                q > u,
        ;
    } else {
        assert(2 * w * (q - u) * x <= 2 * w * (q - u) * (s - 1)) by (nonlinear_arith)
            requires
                x <= s - 1,
                w >= 1,
                q > u,
        ;
    }
}

/// The one-dimensional distance transform: `r[q]` is the least value of
/// `w * (q - p)^2 + f[p]` over all source positions `p`.
pub fn dt(f: &Vec<i64>, w: i64) -> (r: Vec<i64>)
    requires
        samples_ok(f@),
        1 <= w <= DT_MAX_WEIGHT,
    ensures
        r@.len() == f@.len(),
        forall|q: int| 0 <= q < f@.len() ==> #[trigger] r@[q] == dt_min(f@, w as int, q),
{
    let n = f.len();
    if n == 0 {
        return Vec::new();
    }
    let ghost fs = f@;
    let ghost wi = w as int;

    let mut v: Vec<usize> = vec![0usize; n];
    let mut z: Vec<i64> = vec![0i64; n + 1];
    z.set(0, Z_NEG);
    z.set(1, Z_POS);
    let mut k: usize = 0;

    proof {
        assert(region_opt(fs, wi, v@, z@, 0, 1)) by {
            assert forall|x: int, p: int|
                z@[0] <= x < z@[1] && 0 <= p < 1 implies #[trigger] dt_cost(fs, wi, x, p) >= dt_cost(
                fs,
                wi,
                x,
                v@[0] as int,
            ) by {
                assert(v@[0] as int == p);
            }
        }
        assert(dt_state(fs, wi, v@, z@, 0, 1));
    }

    let mut q: usize = 1;
    while q < n
        invariant
            samples_ok(fs),
            fs == f@,
            1 <= w <= DT_MAX_WEIGHT,
            wi == w as int,
            n == fs.len(),
            1 <= q <= n,
            k < n,
            dt_state(fs, wi, v@, z@, k as int, q as int),
        decreases n - q,
    {
        // Candidate `q`'s boundary against the top apex; pop apexes whose
        // whole region the candidate now answers more cheaply.
        proof {
            assert forall|x: int, p: int|
                #![trigger dt_cost(fs, wi, x, p)]
                x >= z@[k as int] && 0 <= p < q implies dt_cost(fs, wi, x, v@[k as int] as int)
                <= dt_cost(fs, wi, x, p) || dt_cost(fs, wi, x, q as int) <= dt_cost(
                fs,
                wi,
                x,
                p,
            ) by {
                if x < Z_POS {
                    assert(region_opt(fs, wi, v@, z@, k as int, q as int));
                    assert(z@[k as int] <= x < z@[k as int + 1]);
                } else {
                    lemma_far_beats(fs, wi, x, q as int, p);
                }
            }
            assert(top_covers(fs, wi, v@, z@, k as int, q as int));
        }
        loop
            invariant_except_break
                samples_ok(fs),
                fs == f@,
                1 <= w <= DT_MAX_WEIGHT,
                wi == w as int,
                n == fs.len(),
                1 <= q < n,
                k < n,
                v@.len() == n,
                z@.len() == n + 1,
                k < q,
                (forall|j: int| 0 <= j <= k ==> (#[trigger] v@[j]) < q),
                (forall|a: int, c: int| #![trigger v@[a], v@[c]] 0 <= a < c <= k ==> v@[a] < v@[c]),
                z@[0] == Z_NEG,
                (forall|j: int| 1 <= j <= k ==> Z_NEG < (#[trigger] z@[j]) < Z_POS),
                (forall|a: int, c: int|
                    #![trigger z@[a], z@[c]]
                    0 <= a < c <= k ==> z@[a] < z@[c]),
                envelope(fs, wi, v@, z@, k as int - 1, q as int),
                top_covers(fs, wi, v@, z@, k as int, q as int),
            ensures
                dt_state(fs, wi, v@, z@, k as int, q as int + 1),
                k < n,
            decreases k,
        {
            let vk = v[k];
            let qi = q as i64;
            let vi = vk as i64;
            proof {
                assert(qi * qi <= 0x1_0000_0000 && vi * vi <= 0x1_0000_0000 && w * (qi * qi - vi
                    * vi) <= 0x8_0000_0000_0000 && w * (qi * qi - vi * vi)
                    >= -0x8_0000_0000_0000) by (nonlinear_arith)
                    requires
                        0 <= vi < qi <= 0x1_0000,
                        1 <= w <= DT_MAX_WEIGHT,
                ;
            }
            let num = w * (qi * qi - vi * vi) + f[q] - f[vk];
            proof {
                assert(2 * w * (qi - vi) <= 0x40_0000_0000 && 2 * w * (qi - vi) >= 2) by (
                nonlinear_arith)
                    requires
                        0 <= vi < qi <= 0x1_0000,
                        1 <= w <= DT_MAX_WEIGHT,
                ;
            }
            let den = 2 * w * (qi - vi);
            let s = ceil_div(num, den);
            if s <= z[k] {
                // The candidate wins everywhere at or above `z[k]`, so the
                // top apex no longer reaches the envelope.
                proof {
                    assert(k >= 1) by {
                        if k == 0 {
                            assert(z@[0] == Z_NEG);
                        }
                    }
                    let ko = k as int;
                    assert forall|x: int, p: int|
                        #![trigger dt_cost(fs, wi, x, p)]
                        x >= z@[ko - 1] && 0 <= p < q implies dt_cost(
                        fs,
                        wi,
                        x,
                        v@[ko - 1] as int,
                    ) <= dt_cost(fs, wi, x, p) || dt_cost(fs, wi, x, q as int) <= dt_cost(
                        fs,
                        wi,
                        x,
                        p,
                    ) by {
                        if x < z@[ko] {
                            assert(region_opt(fs, wi, v@, z@, ko - 1, q as int));
                        } else {
                            lemma_boundary(fs, wi, x, q as int, v@[ko] as int, s as int);
                            assert(dt_cost(fs, wi, x, v@[ko] as int) <= dt_cost(fs, wi, x, p)
                                || dt_cost(fs, wi, x, q as int) <= dt_cost(fs, wi, x, p));
                        }
                    }
                    assert(top_covers(fs, wi, v@, z@, ko - 1, q as int));
                    assert(envelope(fs, wi, v@, z@, ko - 2, q as int)) by {
                        assert forall|j: int| 0 <= j <= ko - 2 implies #[trigger] region_opt(
                            fs,
                            wi,
                            v@,
                            z@,
                            j,
                            q as int,
                        ) by {
                            assert(region_opt(fs, wi, v@, z@, j, q as int));
                        }
                    }
                }
                k = k - 1;
            } else {
                proof {
                    assert(s < Z_POS && s > Z_NEG);
                }
                let ghost vo = v@;
                let ghost zo = z@;
                let ghost ko = k as int;
                k = k + 1;
                v.set(k, q);
                z.set(k, s);
                z.set(k + 1, Z_POS);
                proof {
                    lemma_push_envelope(fs, wi, vo, zo, ko, q as int, s as int, v@, z@);
                }
                break ;
            }
        }
        q = q + 1;
    }

    // Walk the finished envelope left to right, evaluating the winning
    // parabola for every output position.
    let mut out: Vec<i64> = Vec::new();
    let mut c: usize = 0;
    let mut x: usize = 0;
    while x < n
        invariant
            samples_ok(fs),
            fs == f@,
            1 <= w <= DT_MAX_WEIGHT,
            wi == w as int,
            n == fs.len(),
            x <= n,
            c <= k,
            k < n,
            dt_state(fs, wi, v@, z@, k as int, n as int),
            z@[c as int] <= x as int,
            out@.len() == x,
            forall|t: int| 0 <= t < x ==> #[trigger] out@[t] == dt_min(fs, wi, t),
        decreases n - x,
    {
        let xi = x as i64;
        while z[c + 1] <= xi
            invariant
                samples_ok(fs),
                n == fs.len(),
                x < n,
                xi == x as i64,
                c <= k,
                k < n,
                z@.len() == n + 1,
                z@[k as int + 1] == Z_POS,
                z@[c as int] <= x as int,
            decreases k - c,
        {
            proof {
                assert(c < k) by {
                    if c == k {
                        assert(z@[k as int + 1] == Z_POS);
                    }
                }
            }
            c = c + 1;
        }
        let vc = v[c];
        let xv = xi - (vc as i64);
        proof {
            assert(0 <= v@[c as int] < n) by {
                assert(v@[c as int] < n as int);
            }
            assert(-0x8_0000_0000 <= w * xv <= 0x8_0000_0000 && 0 <= w * xv * xv
                <= 0x8_0000_0000_0000) by (nonlinear_arith)
                requires
                    -0x1_0000 <= xv <= 0x1_0000,
                    1 <= w <= DT_MAX_WEIGHT,
            ;
        }
        let value = w * xv * xv + f[vc];
        proof {
            let xint = x as int;
            assert(region_opt(fs, wi, v@, z@, c as int, n as int));
            lemma_dt_min_attained(fs, wi, xint, n as int);
            let p0 = choose|p: int|
                0 <= p < n && dt_min_below(fs, wi, xint, n as int) == dt_cost(fs, wi, xint, p);
            assert(dt_cost(fs, wi, xint, v@[c as int] as int) <= dt_cost(fs, wi, xint, p0));
            lemma_dt_min_le(fs, wi, xint, n as int, v@[c as int] as int);
            assert(value == dt_cost(fs, wi, xint, v@[c as int] as int));
        }
        out.push(value);
        x = x + 1;
    }
    out
}

/// Pushing candidate `q` with boundary `s` above the old top apex extends
/// the envelope to remain optimal among the source positions up to and
/// including `q`.
proof fn lemma_push_envelope(
    f: Seq<i64>,
    w: int,
    vo: Seq<usize>,
    zo: Seq<i64>,
    ko: int,
    q: int,
    s: int,
    vn: Seq<usize>,
    zn: Seq<i64>,
)
    requires
        samples_ok(f),
        1 <= w <= DT_MAX_WEIGHT,
        vo.len() == f.len(),
        zo.len() == f.len() + 1,
        0 <= ko < f.len(),
        ko < q < f.len(),
        (forall|j: int| 0 <= j <= ko ==> (#[trigger] vo[j]) < q),
        (forall|a: int, c: int| #![trigger vo[a], vo[c]] 0 <= a < c <= ko ==> vo[a] < vo[c]),
        zo[0] == Z_NEG,
        (forall|j: int| 1 <= j <= ko ==> Z_NEG < (#[trigger] zo[j]) < Z_POS),
        (forall|a: int, c: int| #![trigger zo[a], zo[c]] 0 <= a < c <= ko ==> zo[a] < zo[c]),
        envelope(f, w, vo, zo, ko - 1, q),
        top_covers(f, w, vo, zo, ko, q),
        zo[ko] < s,
        Z_NEG < s < Z_POS,
        2 * w * (q - vo[ko] as int) * (s - 1) < w * (q * q - vo[ko] as int * vo[ko] as int) + f[q]
            - f[vo[ko] as int],
        w * (q * q - vo[ko] as int * vo[ko] as int) + f[q] - f[vo[ko] as int] <= 2 * w * (q
            - vo[ko] as int) * s,
        ko + 2 < zo.len(),
        vn == vo.update(ko + 1, q as usize),
        zn == zo.update(ko + 1, s as i64).update(ko + 2, Z_POS),
    ensures
        dt_state(f, w, vn, zn, ko + 1, q + 1),
{
    let kn = ko + 1;
    let u = vo[ko] as int;
    assert(zn[0] == Z_NEG);
    assert(zn[kn + 1] == Z_POS);
    assert forall|j: int| 0 <= j <= kn implies #[trigger] region_opt(f, w, vn, zn, j, q + 1) by {
        assert forall|x: int, p: int|
            zn[j] <= x < zn[j + 1] && 0 <= p < q + 1 implies #[trigger] dt_cost(f, w, x, p)
            >= dt_cost(f, w, x, vn[j] as int) by {
            lemma_boundary(f, w, x, q, u, s);
            if j < ko {
                // Old interior region: unchanged, and the candidate is still
                // beaten there by the old top apex.
                assert(region_opt(f, w, vo, zo, j, q));
                assert(zn[j] == zo[j] && zn[j + 1] == zo[j + 1]);
                if p < q {
                    assert(dt_cost(f, w, x, p) >= dt_cost(f, w, x, vo[j] as int));
                } else {
                    assert(x < zo[j + 1] <= zo[ko] < s);
                    assert(dt_cost(f, w, x, u) <= dt_cost(f, w, x, u));
                    assert(dt_cost(f, w, x, vo[j] as int) <= dt_cost(f, w, x, u));
                    assert(dt_cost(f, w, x, q) > dt_cost(f, w, x, u));
                }
            } else if j == ko {
                // The old top region, truncated at the new boundary.
                assert(zn[j] == zo[ko] && zn[j + 1] == s);
                assert(dt_cost(f, w, x, q) > dt_cost(f, w, x, u));
                if p < q {
                    assert(dt_cost(f, w, x, u) <= dt_cost(f, w, x, p) || dt_cost(f, w, x, q)
                        <= dt_cost(f, w, x, p));
                }
            } else {
                // The new top region, where the candidate wins.
                assert(zn[j] == s && zn[j + 1] == Z_POS);
                assert(vn[j] as int == q);
                assert(dt_cost(f, w, x, q) <= dt_cost(f, w, x, u));
                if p < q {
                    assert(dt_cost(f, w, x, u) <= dt_cost(f, w, x, p) || dt_cost(f, w, x, q)
                        <= dt_cost(f, w, x, p));
                }
            }
        }
    }
}

} // verus!

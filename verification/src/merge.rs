use vstd::prelude::*;
use crate::gaussian::{attr, bounded3, bounded4, r4, v3, Gaussian, Rot4, SplatSet, Vec3};
use crate::math::{div_i128, isqrt, lemma_isqrt_bracket, lemma_isqrt_exact, lemma_sdiv_bound,
    lemma_sdiv_exact, sdiv, spec_isqrt};
use crate::{C_MAX, ONE, PrecomputeError};
use vstd::arithmetic::div_mod::{lemma_div_is_ordered, lemma_div_multiples_vanish,
    lemma_div_pos_is_pos};

verus! {

/// Below this squared magnitude a mean direction is treated as degenerate.
pub const MIN_NORM_SQ: i128 = 16777216;

/// A squared norm within this of `ONE * ONE` means the vector's length is
/// within one part in a thousand of one.
pub const NORM_TOL_SQ: i128 = 8585000;

/// A squared norm within this of `ONE * ONE` means the quaternion's length
/// is within one part in ten thousand of one.
pub const QUAT_TOL_SQ: i128 = 850000;

/// The records of `set` selected by `idxs`, in order.
pub open spec fn chosen(set: SplatSet, idxs: Seq<usize>) -> Seq<Gaussian> {
    idxs.map_values(|i: usize| set.records@[i as int])
}

/// Merging weight of one record: its opacity plus one unit, so that the
/// total weight of a cluster is always positive and near-transparent
/// records still contribute negligibly.
pub open spec fn weight(g: Gaussian) -> int {
    g.opacity + 1
}

/// Total merging weight of a cluster.
pub open spec fn wtotal(s: Seq<Gaussian>) -> int
    decreases s.len(),
{
    if s.len() == 0 {
        0
    } else {
        wtotal(s.drop_last()) + weight(s.last())
    }
}

/// Weighted sum of attribute `j` over a cluster.
pub open spec fn wsum(s: Seq<Gaussian>, j: int) -> int
    decreases s.len(),
{
    if s.len() == 0 {
        0
    } else {
        wsum(s.drop_last(), j) + weight(s.last()) * attr(s.last(), j)
    }
}

/// Weighted mean of attribute `j`: the merged value of every linearly
/// averaged attribute (position, base color, higher-order coefficients).
pub open spec fn mean_attr(s: Seq<Gaussian>, j: int) -> int {
    sdiv(wsum(s, j), wtotal(s))
}

pub open spec fn dot4(a: Rot4, b: Rot4) -> int {
    a.r0 * b.r0 + a.r1 * b.r1 + a.r2 * b.r2 + a.r3 * b.r3
}

/// Resolve the quaternion double cover: a quaternion pointing away from the
/// reference is negated before averaging.
pub open spec fn flip(q: Rot4, refq: Rot4) -> Rot4 {
    if dot4(q, refq) < 0 {
        Rot4 {
            r0: (-(q.r0 as int)) as i64,
            r1: (-(q.r1 as int)) as i64,
            r2: (-(q.r2 as int)) as i64,
            r3: (-(q.r3 as int)) as i64,
        }
    } else {
        q
    }
}

/// Weighted sum of component `j` of the sign-resolved quaternions.
pub open spec fn wsum_rot(s: Seq<Gaussian>, refq: Rot4, j: int) -> int
    decreases s.len(),
{
    if s.len() == 0 {
        0
    } else {
        wsum_rot(s.drop_last(), refq, j) + weight(s.last()) * r4(flip(s.last().rot, refq), j)
    }
}

pub open spec fn mean_rot(s: Seq<Gaussian>, refq: Rot4, j: int) -> int {
    sdiv(wsum_rot(s, refq, j), wtotal(s))
}

/// Transmittance of a cluster under over-compositing: the product of the
/// members' `1 - opacity`, folded left in fixed point. The merged opacity
/// is one minus this, so stacking partial occluders never loses coverage.
pub open spec fn trans(s: Seq<Gaussian>) -> int
    decreases s.len(),
{
    if s.len() == 0 {
        ONE as int
    } else {
        trans(s.drop_last()) * (ONE - s.last().opacity) / (ONE as int)
    }
}

/// Index of the record with the largest weight (first one on ties).
pub open spec fn argmax_w(s: Seq<Gaussian>) -> int
    decreases s.len(),
{
    if s.len() <= 1 {
        0
    } else {
        let a = argmax_w(s.drop_last());
        if s.last().opacity > s[a].opacity {
            s.len() - 1
        } else {
            a
        }
    }
}

pub open spec fn norm3_sq(v: Vec3) -> int {
    v.x * v.x + v.y * v.y + v.z * v.z
}

pub open spec fn norm4_sq(q: Rot4) -> int {
    q.r0 * q.r0 + q.r1 * q.r1 + q.r2 * q.r2 + q.r3 * q.r3
}

/// The vector's length is one within the normal tolerance.
pub open spec fn norm3_ok(v: Vec3) -> bool {
    -NORM_TOL_SQ <= norm3_sq(v) - (ONE as int) * (ONE as int) <= NORM_TOL_SQ
}

/// The quaternion's length is one within the rotation tolerance.
pub open spec fn quat_ok(q: Rot4) -> bool {
    -QUAT_TOL_SQ <= norm4_sq(q) - (ONE as int) * (ONE as int) <= QUAT_TOL_SQ
}

/// Rescale to unit length through the integer square root of the squared
/// norm.
pub open spec fn spec_normalize3(v: Vec3) -> Vec3 {
    let n = spec_isqrt(norm3_sq(v));
    Vec3 {
        x: sdiv(v.x * (ONE as int), n) as i64,
        y: sdiv(v.y * (ONE as int), n) as i64,
        z: sdiv(v.z * (ONE as int), n) as i64,
    }
}

pub open spec fn spec_normalize4(q: Rot4) -> Rot4 {
    let n = spec_isqrt(norm4_sq(q));
    Rot4 {
        r0: sdiv(q.r0 * (ONE as int), n) as i64,
        r1: sdiv(q.r1 * (ONE as int), n) as i64,
        r2: sdiv(q.r2 * (ONE as int), n) as i64,
        r3: sdiv(q.r3 * (ONE as int), n) as i64,
    }
}

/// The identity orientation; exactly unit length.
pub open spec fn identity_rot() -> Rot4 {
    Rot4 { r0: ONE, r1: 0, r2: 0, r3: 0 }
}

/// Merged normal: the weighted mean direction renormalized; if the mean is
/// degenerate (opposing normals cancelling) or fixed-point error pushes the
/// renormalized vector outside tolerance, the normal of the heaviest input
/// record is kept instead.
pub open spec fn merged_normal(s: Seq<Gaussian>) -> Vec3 {
    let m = Vec3 {
        x: mean_attr(s, 3) as i64,
        y: mean_attr(s, 4) as i64,
        z: mean_attr(s, 5) as i64,
    };
    if norm3_sq(m) >= MIN_NORM_SQ && norm3_ok(spec_normalize3(m)) {
        spec_normalize3(m)
    } else {
        s[argmax_w(s)].normal
    }
}

/// Merged rotation: sign-resolved weighted mean, renormalized; a degenerate
/// mean falls back to the identity orientation, so the result always has
/// unit norm within tolerance.
pub open spec fn merged_rot(s: Seq<Gaussian>) -> Rot4 {
    let refq = s[0].rot;
    let m = Rot4 {
        r0: mean_rot(s, refq, 0) as i64,
        r1: mean_rot(s, refq, 1) as i64,
        r2: mean_rot(s, refq, 2) as i64,
        r3: mean_rot(s, refq, 3) as i64,
    };
    if norm4_sq(m) >= MIN_NORM_SQ && quat_ok(spec_normalize4(m)) {
        spec_normalize4(m)
    } else {
        identity_rot()
    }
}

pub open spec fn iabs(x: int) -> int {
    if x >= 0 {
        x
    } else {
        -x
    }
}

/// Farthest reach of the cluster along one axis around the merged center
/// `c`: the largest distance-from-center plus footprint of any member.
pub open spec fn spread(s: Seq<Gaussian>, c: int, pj: int, sj: int) -> int
    decreases s.len(),
{
    if s.len() == 0 {
        -(C_MAX as int)
    } else {
        vstd::math::max(
            spread(s.drop_last(), c, pj, sj),
            iabs(attr(s.last(), pj) - c) + attr(s.last(), sj),
        )
    }
}

/// Merged scale along one axis: the spread, capped at the fixed-point range.
pub open spec fn merged_scale_ax(s: Seq<Gaussian>, c: int, pj: int, sj: int) -> int {
    vstd::math::min(spread(s, c, pj, sj), C_MAX as int)
}

/// Every attribute of the record that a cluster merges into.
pub open spec fn merged_attr(s: Seq<Gaussian>, j: int) -> int {
    if 3 <= j < 6 {
        v3(merged_normal(s), j - 3)
    } else if j == 54 {
        (ONE as int) - trans(s)
    } else if 55 <= j < 58 {
        merged_scale_ax(s, mean_attr(s, j - 55), j - 55, j)
    } else if 58 <= j < 62 {
        r4(merged_rot(s), j - 58)
    } else {
        mean_attr(s, j)
    }
}

proof fn lemma_chosen_prefix(set: SplatSet, idxs: Seq<usize>, i: int)
    requires
        0 <= i < idxs.len(),
    ensures
        chosen(set, idxs.take(i + 1)).drop_last() =~= chosen(set, idxs.take(i)),
        chosen(set, idxs.take(i + 1)).last() == set.records@[idxs[i] as int],
        chosen(set, idxs.take(i + 1)).len() == i + 1,
{
    assert(chosen(set, idxs.take(i + 1)).drop_last() =~= chosen(set, idxs.take(i)));
}

/// Bounds on the weighted sums of a well-formed cluster.
proof fn lemma_sums_bound(s: Seq<Gaussian>, j: int)
    requires
        forall|i: int| 0 <= i < s.len() ==> (#[trigger] s[i]).wf(),
        0 <= j < 62,
    ensures
        s.len() <= wtotal(s) <= s.len() * 65537,
        -(wtotal(s) * (C_MAX as int)) <= wsum(s, j) <= wtotal(s) * (C_MAX as int),
    decreases s.len(),
{
    if s.len() > 0 {
        lemma_sums_bound(s.drop_last(), j);
        let g = s.last();
        let w = weight(g);
        let a = attr(g, j);
        let wt = wtotal(s.drop_last());
        assert(1 <= w <= 65537);
        assert(-C_MAX <= a <= C_MAX);
        assert(-(w * (C_MAX as int)) <= w * a <= w * (C_MAX as int)) by (nonlinear_arith)
            requires
                w >= 0,
                -C_MAX <= a <= C_MAX,
        {}
        assert((wt + w) * (C_MAX as int) == wt * (C_MAX as int) + w * (C_MAX as int));
    }
}

/// Bounds on the sign-resolved rotation sums.
proof fn lemma_rot_sums_bound(s: Seq<Gaussian>, refq: Rot4, j: int)
    requires
        forall|i: int| 0 <= i < s.len() ==> (#[trigger] s[i]).wf(),
        0 <= j < 4,
    ensures
        -(wtotal(s) * (C_MAX as int)) <= wsum_rot(s, refq, j) <= wtotal(s) * (C_MAX as int),
    decreases s.len(),
{
    if s.len() > 0 {
        lemma_rot_sums_bound(s.drop_last(), refq, j);
        let g = s.last();
        let w = weight(g);
        g.lemma_wf_bounds();
        let a = r4(flip(g.rot, refq), j);
        assert(-C_MAX <= a <= C_MAX);
        let wt = wtotal(s.drop_last());
        assert(-(w * (C_MAX as int)) <= w * a <= w * (C_MAX as int)) by (nonlinear_arith)
            requires
                w >= 0,
                -C_MAX <= a <= C_MAX,
        {}
        assert((wt + w) * (C_MAX as int) == wt * (C_MAX as int) + w * (C_MAX as int));
        lemma_sums_bound(s, j);
    }
}

/// The transmittance of a well-formed cluster is a valid alpha.
proof fn lemma_trans_bound(s: Seq<Gaussian>)
    requires
        forall|i: int| 0 <= i < s.len() ==> (#[trigger] s[i]).wf(),
    ensures
        0 <= trans(s) <= ONE,
    decreases s.len(),
{
    if s.len() > 0 {
        lemma_trans_bound(s.drop_last());
        let t = trans(s.drop_last());
        let u = ONE - s.last().opacity;
        assert(0 <= u <= ONE);
        assert(0 <= t * u <= 4294967296) by (nonlinear_arith)
            requires
                0 <= t <= 65536,
                0 <= u <= 65536,
        {}
        lemma_div_pos_is_pos(t * u, ONE as int);
        lemma_div_is_ordered(t * u, 4294967296, ONE as int);
        assert(4294967296int / 65536 == 65536) by (nonlinear_arith) {}
    }
}

proof fn lemma_argmax_range(s: Seq<Gaussian>)
    requires
        s.len() >= 1,
    ensures
        0 <= argmax_w(s) < s.len(),
    decreases s.len(),
{
    if s.len() > 1 {
        lemma_argmax_range(s.drop_last());
    }
}

/// Exec lookup of one attribute.
fn attr_of(g: &Gaussian, j: usize) -> (a: i64)
    requires
        g.f_rest@.len() == 45,
        j < 62,
    ensures
        a as int == attr(*g, j as int),
{
    if j < 3 {
        if j == 0 {
            g.position.x
        } else if j == 1 {
            g.position.y
        } else {
            g.position.z
        }
    } else if j < 6 {
        if j == 3 {
            g.normal.x
        } else if j == 4 {
            g.normal.y
        } else {
            g.normal.z
        }
    } else if j < 9 {
        if j == 6 {
            g.f_dc.x
        } else if j == 7 {
            g.f_dc.y
        } else {
            g.f_dc.z
        }
    } else if j < 54 {
        g.f_rest[j - 9]
    } else if j == 54 {
        g.opacity
    } else if j < 58 {
        if j == 55 {
            g.scale.x
        } else if j == 56 {
            g.scale.y
        } else {
            g.scale.z
        }
    } else {
        if j == 58 {
            g.rot.r0
        } else if j == 59 {
            g.rot.r1
        } else if j == 60 {
            g.rot.r2
        } else {
            g.rot.r3
        }
    }
}

/// Weighted mean of attribute `j` over the indexed records.
fn weighted_mean(set: &SplatSet, indices: &Vec<usize>, j: usize) -> (m: i64)
    requires
        set.wf(),
        indices@.len() >= 1,
        forall|t: int| 0 <= t < indices@.len() ==> (#[trigger] indices@[t]) < set.spec_len(),
        j < 62,
    ensures
        m as int == mean_attr(chosen(*set, indices@), j as int),
        -C_MAX <= m <= C_MAX,
{
    let n = indices.len();
    let mut sw: i128 = 0;
    let mut sum: i128 = 0;
    let mut i: usize = 0;
    while i < n
        invariant
            i <= n,
            n == indices@.len(),
            set.wf(),
            j < 62,
            forall|t: int| 0 <= t < indices@.len() ==> (#[trigger] indices@[t]) < set.spec_len(),
            sw == wtotal(chosen(*set, indices@.take(i as int))),
            sum == wsum(chosen(*set, indices@.take(i as int)), j as int),
            i <= sw <= (i as int) * 65537,
            -((i as int) * 72058693549555712) <= sum <= (i as int) * 72058693549555712,
        decreases n - i,
    {
        let idx = indices[i];
        let g = &set.records[idx];
        proof {
            assert(set.records@[idx as int].wf());
            lemma_chosen_prefix(*set, indices@, i as int);
        }
        let w: i128 = (g.opacity as i128) + 1;
        let a: i128 = attr_of(g, j) as i128;
        proof {
            set.records@[idx as int].lemma_wf_bounds();
            assert(-72058693549555712 <= w * a <= 72058693549555712) by (nonlinear_arith)
                requires
                    1 <= w <= 65537,
                    -1099511627776 <= a <= 1099511627776,
            {}
        }
        sw = sw + w;
        sum = sum + w * a;
        i += 1;
    }
    proof {
        assert(indices@.take(n as int) =~= indices@);
        let s = chosen(*set, indices@);
        assert(forall|t: int| 0 <= t < s.len() ==> (#[trigger] s[t]).wf());
        lemma_sums_bound(s, j as int);
        lemma_sdiv_bound(wsum(s, j as int), wtotal(s), C_MAX as int);
    }
    let m = div_i128(sum, sw);
    m as i64
}

/// One minus the product of the members' transparencies: the merged
/// opacity never falls below any single member's contribution.
fn combined_opacity(set: &SplatSet, indices: &Vec<usize>) -> (op: i64)
    requires
        set.wf(),
        indices@.len() >= 1,
        forall|t: int| 0 <= t < indices@.len() ==> (#[trigger] indices@[t]) < set.spec_len(),
    ensures
        op as int == (ONE as int) - trans(chosen(*set, indices@)),
        0 <= op <= ONE,
{
    let n = indices.len();
    let mut t: i128 = ONE as i128;
    let mut i: usize = 0;
    while i < n
        invariant
            i <= n,
            n == indices@.len(),
            set.wf(),
            forall|q: int| 0 <= q < indices@.len() ==> (#[trigger] indices@[q]) < set.spec_len(),
            t == trans(chosen(*set, indices@.take(i as int))),
            0 <= t <= ONE,
        decreases n - i,
    {
        let idx = indices[i];
        proof {
            assert(set.records@[idx as int].wf());
            lemma_chosen_prefix(*set, indices@, i as int);
        }
        let u: i128 = (ONE as i128) - (set.records[idx].opacity as i128);
        proof {
            assert(0 <= t * u <= 4294967296) by (nonlinear_arith)
                requires
                    0 <= t <= 65536,
                    0 <= u <= 65536,
            {}
            lemma_div_pos_is_pos(t * u, ONE as int);
            lemma_div_is_ordered(t * u, 4294967296, ONE as int);
            assert(4294967296int / 65536 == 65536) by (nonlinear_arith) {}
        }
        t = (t * u) / (ONE as i128);
        i += 1;
    }
    proof {
        assert(indices@.take(n as int) =~= indices@);
    }
    (ONE as i128 - t) as i64
}

/// Position (in `indices`) of the heaviest member; first one on ties.
fn argmax_member(set: &SplatSet, indices: &Vec<usize>) -> (b: usize)
    requires
        set.wf(),
        indices@.len() >= 1,
        forall|t: int| 0 <= t < indices@.len() ==> (#[trigger] indices@[t]) < set.spec_len(),
    ensures
        b < indices@.len(),
        b as int == argmax_w(chosen(*set, indices@)),
{
    let n = indices.len();
    let mut b: usize = 0;
    let mut i: usize = 1;
    while i < n
        invariant
            1 <= i <= n,
            n == indices@.len(),
            set.wf(),
            forall|q: int| 0 <= q < indices@.len() ==> (#[trigger] indices@[q]) < set.spec_len(),
            b < i,
            b as int == argmax_w(chosen(*set, indices@.take(i as int))),
        decreases n - i,
    {
        proof {
            lemma_chosen_prefix(*set, indices@, i as int);
            lemma_argmax_range(chosen(*set, indices@.take(i as int)));
        }
        if set.records[indices[i]].opacity > set.records[indices[b]].opacity {
            b = i;
        }
        i += 1;
    }
    proof {
        assert(indices@.take(n as int) =~= indices@);
    }
    b
}

fn flip_rot(q: Rot4, refq: Rot4) -> (r: Rot4)
    requires
        bounded4(q),
        bounded4(refq),
    ensures
        r == flip(q, refq),
        bounded4(r),
{
    proof {
        lemma_prod_cmax(q.r0 as int, refq.r0 as int);
        lemma_prod_cmax(q.r1 as int, refq.r1 as int);
        lemma_prod_cmax(q.r2 as int, refq.r2 as int);
        lemma_prod_cmax(q.r3 as int, refq.r3 as int);
    }
    let d0: i128 = (q.r0 as i128) * (refq.r0 as i128);
    let d1: i128 = (q.r1 as i128) * (refq.r1 as i128);
    let d2: i128 = (q.r2 as i128) * (refq.r2 as i128);
    let d3: i128 = (q.r3 as i128) * (refq.r3 as i128);
    let d = d0 + d1 + d2 + d3;
    if d < 0 {
        Rot4 { r0: -q.r0, r1: -q.r1, r2: -q.r2, r3: -q.r3 }
    } else {
        q
    }
}

/// Product of two components within the fixed-point range.
proof fn lemma_prod_cmax(a: int, b: int)
    by (nonlinear_arith)
    requires
        -1099511627776 <= a <= 1099511627776,
        -1099511627776 <= b <= 1099511627776,
    ensures
        -1208925819614629174706176 <= a * b <= 1208925819614629174706176,
{
}

/// Product of two rescaled components, which may reach `C_MAX * ONE`.
proof fn lemma_prod_wide(a: int, b: int)
    by (nonlinear_arith)
    requires
        -72057594037927936 <= a <= 72057594037927936,
        -72057594037927936 <= b <= 72057594037927936,
    ensures
        -5192296858534827628530496329220096 <= a * b <= 5192296858534827628530496329220096,
{
}

/// Renormalize a mean direction; `None` when the mean is degenerate or the
/// fixed-point result misses the tolerance.
fn normalize3(m: Vec3) -> (r: Option<Vec3>)
    requires
        bounded3(m),
    ensures
        r is Some <==> norm3_sq(m) >= MIN_NORM_SQ && norm3_ok(spec_normalize3(m)),
        r matches Some(v) ==> v == spec_normalize3(m) && norm3_ok(v) && bounded3(v),
{
    proof {
        lemma_prod_cmax(m.x as int, m.x as int);
        lemma_prod_cmax(m.y as int, m.y as int);
        lemma_prod_cmax(m.z as int, m.z as int);
        assert(m.x * m.x >= 0 && m.y * m.y >= 0 && m.z * m.z >= 0) by (nonlinear_arith) {}
    }
    let s: i128 = (m.x as i128) * (m.x as i128) + (m.y as i128) * (m.y as i128) + (m.z as i128) * (
    m.z as i128);
    if s < MIN_NORM_SQ {
        return None;
    }
    let n128 = isqrt(s as u128);
    proof {
        lemma_isqrt_bracket(s as int);
        if n128 == 0 {
            assert((spec_isqrt(s as int) + 1) * (spec_isqrt(s as int) + 1) == 1)
                by (nonlinear_arith)
                requires
                    spec_isqrt(s as int) == 0,
            {}
            assert(false);
        }
        assert((n128 as int) < 0x8000_0000_0000_0000int) by (nonlinear_arith)
            requires
                (n128 as int) * (n128 as int) <= s as int,
                (s as int) <= 0x4_0000_0000_0000_0000_0000_0int * 4,
        {}
    }
    let n: i128 = n128 as i128;
    proof {
        lemma_norm_div_bound(m.x as int, n as int);
        lemma_norm_div_bound(m.y as int, n as int);
        lemma_norm_div_bound(m.z as int, n as int);
    }
    let vx = div_i128((m.x as i128) * (ONE as i128), n) as i64;
    let vy = div_i128((m.y as i128) * (ONE as i128), n) as i64;
    let vz = div_i128((m.z as i128) * (ONE as i128), n) as i64;
    let v = Vec3 { x: vx, y: vy, z: vz };
    proof {
        assert(v == spec_normalize3(m));
        lemma_prod_wide(vx as int, vx as int);
        lemma_prod_wide(vy as int, vy as int);
        lemma_prod_wide(vz as int, vz as int);
        assert(vx * vx >= 0 && vy * vy >= 0 && vz * vz >= 0) by (nonlinear_arith) {}
    }
    let ns: i128 = (vx as i128) * (vx as i128) + (vy as i128) * (vy as i128) + (vz as i128) * (
    vz as i128);
    if 4294967296 - NORM_TOL_SQ <= ns && ns <= 4294967296 + NORM_TOL_SQ {
        proof {
            lemma_sq_bound_cmax(vx as int);
            lemma_sq_bound_cmax(vy as int);
            lemma_sq_bound_cmax(vz as int);
        }
        Some(v)
    } else {
        None
    }
}

/// A component whose square is at most `ONE * ONE + NORM_TOL_SQ` plus slack
/// is far inside the fixed-point range.
proof fn lemma_sq_bound_cmax(x: int)
    by (nonlinear_arith)
    requires
        x * x <= 4303552296 + 4303552296,
    ensures
        -1099511627776 <= x <= 1099511627776,
{
}

/// `x * ONE / n` keeps the magnitude at most `|x| * ONE` for `n >= 1`.
proof fn lemma_norm_div_bound(x: int, n: int)
    requires
        n >= 1,
        -1099511627776 <= x <= 1099511627776,
    ensures
        -72057594037927936 <= sdiv(x * 65536, n) <= 72057594037927936,
{
    assert(n * 72057594037927936 >= 72057594037927936) by (nonlinear_arith)
        requires
            n >= 1,
    {}
    lemma_sdiv_bound(x * 65536, n, 72057594037927936);
}

fn normalize4(m: Rot4) -> (r: Option<Rot4>)
    requires
        bounded4(m),
    ensures
        r is Some <==> norm4_sq(m) >= MIN_NORM_SQ && quat_ok(spec_normalize4(m)),
        r matches Some(v) ==> v == spec_normalize4(m) && quat_ok(v) && bounded4(v),
{
    proof {
        lemma_prod_cmax(m.r0 as int, m.r0 as int);
        lemma_prod_cmax(m.r1 as int, m.r1 as int);
        lemma_prod_cmax(m.r2 as int, m.r2 as int);
        lemma_prod_cmax(m.r3 as int, m.r3 as int);
        assert(m.r0 * m.r0 >= 0 && m.r1 * m.r1 >= 0 && m.r2 * m.r2 >= 0 && m.r3 * m.r3 >= 0)
            by (nonlinear_arith) {}
    }
    let s: i128 = (m.r0 as i128) * (m.r0 as i128) + (m.r1 as i128) * (m.r1 as i128) + (
    m.r2 as i128) * (m.r2 as i128) + (m.r3 as i128) * (m.r3 as i128);
    if s < MIN_NORM_SQ {
        return None;
    }
    let n128 = isqrt(s as u128);
    proof {
        lemma_isqrt_bracket(s as int);
        if n128 == 0 {
            assert((spec_isqrt(s as int) + 1) * (spec_isqrt(s as int) + 1) == 1)
                by (nonlinear_arith)
                requires
                    spec_isqrt(s as int) == 0,
            {}
            assert(false);
        }
        assert((n128 as int) < 0x8000_0000_0000_0000int) by (nonlinear_arith)
            requires
                (n128 as int) * (n128 as int) <= s as int,
                (s as int) <= 0x4_0000_0000_0000_0000_0000_0int * 4,
        {}
    }
    let n: i128 = n128 as i128;
    proof {
        lemma_norm_div_bound(m.r0 as int, n as int);
        lemma_norm_div_bound(m.r1 as int, n as int);
        lemma_norm_div_bound(m.r2 as int, n as int);
        lemma_norm_div_bound(m.r3 as int, n as int);
    }
    let v0 = div_i128((m.r0 as i128) * (ONE as i128), n) as i64;
    let v1 = div_i128((m.r1 as i128) * (ONE as i128), n) as i64;
    let v2 = div_i128((m.r2 as i128) * (ONE as i128), n) as i64;
    let v3c = div_i128((m.r3 as i128) * (ONE as i128), n) as i64;
    let v = Rot4 { r0: v0, r1: v1, r2: v2, r3: v3c };
    proof {
        assert(v == spec_normalize4(m));
        lemma_prod_wide(v0 as int, v0 as int);
        lemma_prod_wide(v1 as int, v1 as int);
        lemma_prod_wide(v2 as int, v2 as int);
        lemma_prod_wide(v3c as int, v3c as int);
        assert(v0 * v0 >= 0 && v1 * v1 >= 0 && v2 * v2 >= 0 && v3c * v3c >= 0)
            by (nonlinear_arith) {}
    }
    let ns: i128 = (v0 as i128) * (v0 as i128) + (v1 as i128) * (v1 as i128) + (v2 as i128) * (
    v2 as i128) + (v3c as i128) * (v3c as i128);
    if 4294967296 - QUAT_TOL_SQ <= ns && ns <= 4294967296 + QUAT_TOL_SQ {
        proof {
            lemma_sq_bound_cmax(v0 as int);
            lemma_sq_bound_cmax(v1 as int);
            lemma_sq_bound_cmax(v2 as int);
            lemma_sq_bound_cmax(v3c as int);
        }
        Some(v)
    } else {
        None
    }
}

/// Merged rotation of the cluster; always unit norm within tolerance.
fn merged_rotation(set: &SplatSet, indices: &Vec<usize>) -> (r: Rot4)
    requires
        set.wf(),
        indices@.len() >= 1,
        forall|t: int| 0 <= t < indices@.len() ==> (#[trigger] indices@[t]) < set.spec_len(),
    ensures
        r == merged_rot(chosen(*set, indices@)),
        quat_ok(r),
        bounded4(r),
{
    let n = indices.len();
    proof {
        assert(set.records@[indices@[0] as int].wf());
        set.records@[indices@[0] as int].lemma_wf_bounds();
    }
    let refq = set.records[indices[0]].rot;
    let mut sw: i128 = 0;
    let mut s0: i128 = 0;
    let mut s1: i128 = 0;
    let mut s2: i128 = 0;
    let mut s3: i128 = 0;
    let mut i: usize = 0;
    while i < n
        invariant
            i <= n,
            n == indices@.len(),
            n >= 1,
            set.wf(),
            bounded4(refq),
            refq == set.records@[indices@[0] as int].rot,
            forall|t: int| 0 <= t < indices@.len() ==> (#[trigger] indices@[t]) < set.spec_len(),
            sw == wtotal(chosen(*set, indices@.take(i as int))),
            s0 == wsum_rot(chosen(*set, indices@.take(i as int)), refq, 0),
            s1 == wsum_rot(chosen(*set, indices@.take(i as int)), refq, 1),
            s2 == wsum_rot(chosen(*set, indices@.take(i as int)), refq, 2),
            s3 == wsum_rot(chosen(*set, indices@.take(i as int)), refq, 3),
            i <= sw <= (i as int) * 65537,
            -((i as int) * 72058693549555712) <= s0 <= (i as int) * 72058693549555712,
            -((i as int) * 72058693549555712) <= s1 <= (i as int) * 72058693549555712,
            -((i as int) * 72058693549555712) <= s2 <= (i as int) * 72058693549555712,
            -((i as int) * 72058693549555712) <= s3 <= (i as int) * 72058693549555712,
        decreases n - i,
    {
        let idx = indices[i];
        proof {
            assert(set.records@[idx as int].wf());
            set.records@[idx as int].lemma_wf_bounds();
            lemma_chosen_prefix(*set, indices@, i as int);
        }
        let g = &set.records[idx];
        let w: i128 = (g.opacity as i128) + 1;
        let fq = flip_rot(g.rot, refq);
        proof {
            lemma_wprod(w as int, fq.r0 as int);
            lemma_wprod(w as int, fq.r1 as int);
            lemma_wprod(w as int, fq.r2 as int);
            lemma_wprod(w as int, fq.r3 as int);
        }
        sw = sw + w;
        s0 = s0 + w * (fq.r0 as i128);
        s1 = s1 + w * (fq.r1 as i128);
        s2 = s2 + w * (fq.r2 as i128);
        s3 = s3 + w * (fq.r3 as i128);
        i += 1;
    }
    proof {
        assert(indices@.take(n as int) =~= indices@);
        let s = chosen(*set, indices@);
        assert(forall|t: int| 0 <= t < s.len() ==> (#[trigger] s[t]).wf());
        lemma_rot_sums_bound(s, refq, 0);
        lemma_rot_sums_bound(s, refq, 1);
        lemma_rot_sums_bound(s, refq, 2);
        lemma_rot_sums_bound(s, refq, 3);
        lemma_sums_bound(s, 0);
        lemma_sdiv_bound(wsum_rot(s, refq, 0), wtotal(s), C_MAX as int);
        lemma_sdiv_bound(wsum_rot(s, refq, 1), wtotal(s), C_MAX as int);
        lemma_sdiv_bound(wsum_rot(s, refq, 2), wtotal(s), C_MAX as int);
        lemma_sdiv_bound(wsum_rot(s, refq, 3), wtotal(s), C_MAX as int);
        assert(chosen(*set, indices@)[0] == set.records@[indices@[0] as int]);
    }
    let m = Rot4 {
        r0: div_i128(s0, sw) as i64,
        r1: div_i128(s1, sw) as i64,
        r2: div_i128(s2, sw) as i64,
        r3: div_i128(s3, sw) as i64,
    };
    match normalize4(m) {
        Some(v) => v,
        None => {
            proof {
                assert(ONE == 65536);
                assert(65536int * 65536int == 4294967296int) by (nonlinear_arith) {}
                assert(0int * 0int == 0int) by (nonlinear_arith) {}
            }
            Rot4 { r0: ONE, r1: 0, r2: 0, r3: 0 }
        },
    }
}

/// A weight times a bounded component stays within the per-step bound.
proof fn lemma_wprod(w: int, a: int)
    by (nonlinear_arith)
    requires
        1 <= w <= 65537,
        -1099511627776 <= a <= 1099511627776,
    ensures
        -72058693549555712 <= w * a <= 72058693549555712,
{
}

/// Merged per-axis scale around the merged center `c`.
fn merged_scale(set: &SplatSet, indices: &Vec<usize>, c: Vec3) -> (r: Vec3)
    requires
        set.wf(),
        indices@.len() >= 1,
        forall|t: int| 0 <= t < indices@.len() ==> (#[trigger] indices@[t]) < set.spec_len(),
        bounded3(c),
    ensures
        r.x as int == merged_scale_ax(chosen(*set, indices@), c.x as int, 0, 55),
        r.y as int == merged_scale_ax(chosen(*set, indices@), c.y as int, 1, 56),
        r.z as int == merged_scale_ax(chosen(*set, indices@), c.z as int, 2, 57),
        bounded3(r),
{
    let n = indices.len();
    let mut spx: i128 = -(C_MAX as i128);
    let mut spy: i128 = -(C_MAX as i128);
    let mut spz: i128 = -(C_MAX as i128);
    let mut i: usize = 0;
    while i < n
        invariant
            i <= n,
            n == indices@.len(),
            set.wf(),
            bounded3(c),
            forall|t: int| 0 <= t < indices@.len() ==> (#[trigger] indices@[t]) < set.spec_len(),
            spx == spread(chosen(*set, indices@.take(i as int)), c.x as int, 0, 55),
            spy == spread(chosen(*set, indices@.take(i as int)), c.y as int, 1, 56),
            spz == spread(chosen(*set, indices@.take(i as int)), c.z as int, 2, 57),
            -(C_MAX as int) <= spx <= 3 * (C_MAX as int),
            -(C_MAX as int) <= spy <= 3 * (C_MAX as int),
            -(C_MAX as int) <= spz <= 3 * (C_MAX as int),
        decreases n - i,
    {
        let idx = indices[i];
        proof {
            assert(set.records@[idx as int].wf());
            set.records@[idx as int].lemma_wf_bounds();
            lemma_chosen_prefix(*set, indices@, i as int);
        }
        let g = &set.records[idx];
        let dx = iabs_i128((g.position.x as i128) - (c.x as i128)) + (g.scale.x as i128);
        let dy = iabs_i128((g.position.y as i128) - (c.y as i128)) + (g.scale.y as i128);
        let dz = iabs_i128((g.position.z as i128) - (c.z as i128)) + (g.scale.z as i128);
        if dx > spx {
            spx = dx;
        }
        if dy > spy {
            spy = dy;
        }
        if dz > spz {
            spz = dz;
        }
        i += 1;
    }
    proof {
        assert(indices@.take(n as int) =~= indices@);
    }
    let rx = if spx > C_MAX as i128 {
        C_MAX
    } else {
        spx as i64
    };
    let ry = if spy > C_MAX as i128 {
        C_MAX
    } else {
        spy as i64
    };
    let rz = if spz > C_MAX as i128 {
        C_MAX
    } else {
        spz as i64
    };
    Vec3 { x: rx, y: ry, z: rz }
}

fn iabs_i128(x: i128) -> (r: i128)
    requires
        x > i128::MIN,
    ensures
        r == iabs(x as int),
{
    if x >= 0 {
        x
    } else {
        -x
    }
}

/// Reduce one cluster to a single representative splat. The cluster must
/// hold valid indices; an empty cluster is an internal invariant violation
/// and is reported, never merged.
pub fn merge_cluster(set: &SplatSet, indices: &Vec<usize>) -> (r: Result<Gaussian, PrecomputeError>)
    requires
        set.wf(),
        forall|t: int| 0 <= t < indices@.len() ==> (#[trigger] indices@[t]) < set.spec_len(),
    ensures
        r is Err <==> indices@.len() == 0,
        r is Err ==> r == Result::<Gaussian, PrecomputeError>::Err(
            PrecomputeError::EmptyClusterError,
        ),
        r matches Ok(g) ==> {
            let s = chosen(*set, indices@);
            &&& g.wf()
            &&& forall|j: int| 0 <= j < 62 ==> #[trigger] attr(g, j) == merged_attr(s, j)
            &&& quat_ok(g.rot)
            &&& (forall|t: int|
                0 <= t < s.len() ==> norm3_ok(#[trigger] s[t].normal)) ==> norm3_ok(g.normal)
        },
{
    if indices.len() == 0 {
        return Err(PrecomputeError::EmptyClusterError);
    }
    let ghost s = chosen(*set, indices@);
    let position = Vec3 {
        x: weighted_mean(set, indices, 0),
        y: weighted_mean(set, indices, 1),
        z: weighted_mean(set, indices, 2),
    };
    let nmean = Vec3 {
        x: weighted_mean(set, indices, 3),
        y: weighted_mean(set, indices, 4),
        z: weighted_mean(set, indices, 5),
    };
    let normal = match normalize3(nmean) {
        Some(v) => v,
        None => {
            let b = argmax_member(set, indices);
            proof {
                assert(set.records@[indices@[b as int] as int].wf());
                set.records@[indices@[b as int] as int].lemma_wf_bounds();
                assert(s[b as int] == set.records@[indices@[b as int] as int]);
            }
            set.records[indices[b]].normal
        },
    };
    let f_dc = Vec3 {
        x: weighted_mean(set, indices, 6),
        y: weighted_mean(set, indices, 7),
        z: weighted_mean(set, indices, 8),
    };
    let mut f_rest: Vec<i64> = Vec::new();
    let mut jj: usize = 0;
    while jj < 45
        invariant
            jj <= 45,
            set.wf(),
            indices@.len() >= 1,
            forall|t: int| 0 <= t < indices@.len() ==> (#[trigger] indices@[t]) < set.spec_len(),
            s == chosen(*set, indices@),
            f_rest@.len() == jj,
            forall|q: int| 0 <= q < jj ==> #[trigger] f_rest@[q] as int == mean_attr(s, 9 + q),
            forall|q: int| 0 <= q < jj ==> -C_MAX <= #[trigger] f_rest@[q] <= C_MAX,
        decreases 45 - jj,
    {
        f_rest.push(weighted_mean(set, indices, 9 + jj));
        jj += 1;
    }
    let opacity = combined_opacity(set, indices);
    let scale = merged_scale(set, indices, position);
    let rot = merged_rotation(set, indices);
    let g = Gaussian { position, normal, f_dc, f_rest, opacity, scale, rot };
    proof {
        assert(bounded3(g.normal) && (g.normal == merged_normal(s)) && ((forall|t: int|
            0 <= t < s.len() ==> norm3_ok(#[trigger] s[t].normal)) ==> norm3_ok(g.normal))) by {
            if norm3_sq(
                Vec3 { x: mean_attr(s, 3) as i64, y: mean_attr(s, 4) as i64, z: mean_attr(s, 5) as i64 },
            ) >= MIN_NORM_SQ && norm3_ok(
                spec_normalize3(
                    Vec3 {
                        x: mean_attr(s, 3) as i64,
                        y: mean_attr(s, 4) as i64,
                        z: mean_attr(s, 5) as i64,
                    },
                ),
            ) {
            } else {
                lemma_argmax_range(s);
                assert(s[argmax_w(s)].wf());
                s[argmax_w(s)].lemma_wf_bounds();
            }
        }
        assert forall|j: int| 0 <= j < 62 implies #[trigger] attr(g, j) == merged_attr(s, j) by {
            if 9 <= j < 54 {
                assert(attr(g, j) == g.f_rest@[j - 9] as int);
            }
        }
        assert forall|j: int| 0 <= j < 62 implies -C_MAX <= #[trigger] attr(g, j) <= C_MAX by {
            if 9 <= j < 54 {
                assert(attr(g, j) == g.f_rest@[j - 9] as int);
            }
        }
        assert(g.wf());
    }
    Ok(g)
}


/// Flag degenerate input normals: true exactly when every record's normal
/// is unit length within the normal tolerance. Loading leaves normals
/// untouched for round-trip fidelity; callers use this to reject or repair
/// sets whose normals are off before building on them.
pub fn normals_within_tolerance(set: &SplatSet) -> (r: bool)
    requires
        set.wf(),
    ensures
        r == forall|i: int| 0 <= i < set.records@.len() ==> norm3_ok(
            (#[trigger] set.records@[i]).normal,
        ),
{
    let n = set.records.len();
    let mut i: usize = 0;
    while i < n
        invariant
            i <= n,
            n == set.records@.len(),
            set.wf(),
            forall|t: int| 0 <= t < i ==> norm3_ok((#[trigger] set.records@[t]).normal),
        decreases n - i,
    {
        proof {
            assert(set.records@[i as int].wf());
            set.records@[i as int].lemma_wf_bounds();
            let v = set.records@[i as int].normal;
            lemma_prod_cmax(v.x as int, v.x as int);
            lemma_prod_cmax(v.y as int, v.y as int);
            lemma_prod_cmax(v.z as int, v.z as int);
        }
        let v = set.records[i].normal;
        let s: i128 = (v.x as i128) * (v.x as i128) + (v.y as i128) * (v.y as i128) + (
        v.z as i128) * (v.z as i128);
        if s < 4294967296 - NORM_TOL_SQ || s > 4294967296 + NORM_TOL_SQ {
            proof {
                assert(ONE == 65536);
                assert(65536int * 65536int == 4294967296int) by (nonlinear_arith) {}
            }
            return false;
        }
        proof {
            assert(ONE == 65536);
            assert(65536int * 65536int == 4294967296int) by (nonlinear_arith) {}
        }
        i += 1;
    }
    true
}

proof fn lemma_identical_sums(s: Seq<Gaussian>, r: Gaussian, j: int)
    requires
        s.len() >= 1,
        forall|i: int| 0 <= i < s.len() ==> #[trigger] s[i] == r,
    ensures
        wtotal(s) == s.len() * weight(r),
        wsum(s, j) == s.len() * (weight(r) * attr(r, j)),
    decreases s.len(),
{
    assert(s[s.len() - 1] == r);
    assert forall|i: int| 0 <= i < s.drop_last().len() implies #[trigger] s.drop_last()[i]
        == r by {
        assert(s[i] == r);
    }
    if s.len() == 1 {
        assert(s.drop_last().len() == 0);
        assert(wtotal(s.drop_last()) == 0);
        assert(wsum(s.drop_last(), j) == 0);
        assert(wtotal(s) == weight(r));
        assert(wsum(s, j) == weight(r) * attr(r, j));
        assert(1 * weight(r) == weight(r)) by (nonlinear_arith) {}
        assert(1 * (weight(r) * attr(r, j)) == weight(r) * attr(r, j)) by (nonlinear_arith) {}
    } else {
        lemma_identical_sums(s.drop_last(), r, j);
        let k = s.len() - 1;
        assert((k + 1) * weight(r) == k * weight(r) + weight(r)) by (nonlinear_arith) {}
        assert((k + 1) * (weight(r) * attr(r, j)) == k * (weight(r) * attr(r, j)) + weight(r)
            * attr(r, j)) by (nonlinear_arith) {}
    }
}

proof fn lemma_identical_mean(s: Seq<Gaussian>, r: Gaussian, j: int)
    requires
        s.len() >= 1,
        forall|i: int| 0 <= i < s.len() ==> #[trigger] s[i] == r,
        0 <= r.opacity,
    ensures
        mean_attr(s, j) == attr(r, j),
{
    lemma_identical_sums(s, r, j);
    let t = s.len() * weight(r);
    assert(t >= 1) by (nonlinear_arith)
        requires
            s.len() >= 1,
            weight(r) >= 1,
            t == s.len() * weight(r),
    {}
    assert(s.len() * (weight(r) * attr(r, j)) == t * attr(r, j)) by (nonlinear_arith)
        requires
            t == s.len() * weight(r),
    {}
    crate::math::lemma_sdiv_exact(attr(r, j), t);
}

proof fn lemma_identical_rot_sums(s: Seq<Gaussian>, r: Gaussian, j: int)
    requires
        s.len() >= 1,
        forall|i: int| 0 <= i < s.len() ==> #[trigger] s[i] == r,
        norm4_sq(r.rot) >= 0,
    ensures
        wsum_rot(s, r.rot, j) == s.len() * (weight(r) * r4(r.rot, j)),
    decreases s.len(),
{
    assert(s[s.len() - 1] == r);
    assert forall|i: int| 0 <= i < s.drop_last().len() implies #[trigger] s.drop_last()[i]
        == r by {
        assert(s[i] == r);
    }
    assert(dot4(r.rot, r.rot) == norm4_sq(r.rot));
    assert(flip(r.rot, r.rot) == r.rot);
    if s.len() == 1 {
        assert(s.drop_last().len() == 0);
        assert(wsum_rot(s.drop_last(), r.rot, j) == 0);
        assert(wsum_rot(s, r.rot, j) == weight(r) * r4(r.rot, j));
        assert(1 * (weight(r) * r4(r.rot, j)) == weight(r) * r4(r.rot, j)) by (nonlinear_arith) {}
    } else {
        lemma_identical_rot_sums(s.drop_last(), r, j);
        let k = s.len() - 1;
        assert((k + 1) * (weight(r) * r4(r.rot, j)) == k * (weight(r) * r4(r.rot, j)) + weight(r)
            * r4(r.rot, j)) by (nonlinear_arith) {}
    }
}

/// Renormalizing an exactly unit vector is the identity.
proof fn lemma_normalize_exact3(v: Vec3)
    requires
        norm3_sq(v) == (ONE as int) * (ONE as int),
    ensures
        spec_normalize3(v) == v,
        norm3_ok(v),
        norm3_sq(v) >= MIN_NORM_SQ,
{
    assert(ONE == 65536);
    assert(65536int * 65536int == 4294967296int) by (nonlinear_arith) {}
    crate::math::lemma_isqrt_exact(norm3_sq(v), ONE as int);
    crate::math::lemma_sdiv_exact(v.x as int, ONE as int);
    crate::math::lemma_sdiv_exact(v.y as int, ONE as int);
    crate::math::lemma_sdiv_exact(v.z as int, ONE as int);
    assert(v.x * (ONE as int) == (ONE as int) * v.x);
    assert(v.y * (ONE as int) == (ONE as int) * v.y);
    assert(v.z * (ONE as int) == (ONE as int) * v.z);
}

/// Renormalizing an exactly unit quaternion is the identity.
proof fn lemma_normalize_exact4(q: Rot4)
    requires
        norm4_sq(q) == (ONE as int) * (ONE as int),
    ensures
        spec_normalize4(q) == q,
        quat_ok(q),
        norm4_sq(q) >= MIN_NORM_SQ,
{
    assert(ONE == 65536);
    assert(65536int * 65536int == 4294967296int) by (nonlinear_arith) {}
    crate::math::lemma_isqrt_exact(norm4_sq(q), ONE as int);
    crate::math::lemma_sdiv_exact(q.r0 as int, ONE as int);
    crate::math::lemma_sdiv_exact(q.r1 as int, ONE as int);
    crate::math::lemma_sdiv_exact(q.r2 as int, ONE as int);
    crate::math::lemma_sdiv_exact(q.r3 as int, ONE as int);
    assert(q.r0 * (ONE as int) == (ONE as int) * q.r0);
    assert(q.r1 * (ONE as int) == (ONE as int) * q.r1);
    assert(q.r2 * (ONE as int) == (ONE as int) * q.r2);
    assert(q.r3 * (ONE as int) == (ONE as int) * q.r3);
}

proof fn lemma_spread_identical(s: Seq<Gaussian>, r: Gaussian, c: int, pj: int, sj: int)
    requires
        s.len() >= 1,
        forall|i: int| 0 <= i < s.len() ==> #[trigger] s[i] == r,
        attr(r, pj) == c,
        -(C_MAX as int) <= attr(r, sj) <= C_MAX as int,
    ensures
        spread(s, c, pj, sj) == attr(r, sj),
    decreases s.len(),
{
    assert(s[s.len() - 1] == r);
    assert forall|i: int| 0 <= i < s.drop_last().len() implies #[trigger] s.drop_last()[i]
        == r by {
        assert(s[i] == r);
    }
    if s.len() == 1 {
        assert(s.drop_last().len() == 0);
        assert(spread(s.drop_last(), c, pj, sj) == -(C_MAX as int));
        assert(iabs(attr(s.last(), pj) - c) == 0);
    } else {
        lemma_spread_identical(s.drop_last(), r, c, pj, sj);
    }
}

proof fn lemma_trans_identical(s: Seq<Gaussian>, r: Gaussian)
    requires
        s.len() >= 1,
        r.wf(),
        forall|i: int| 0 <= i < s.len() ==> #[trigger] s[i] == r,
    ensures
        s.len() == 1 ==> trans(s) == ONE - r.opacity,
        r.opacity == 0 ==> trans(s) == ONE as int,
        r.opacity == ONE ==> trans(s) == 0,
        s.len() >= 2 && 0 < r.opacity < ONE ==> trans(s) <= ONE - r.opacity - 1,
    decreases s.len(),
{
    assert(s[s.len() - 1] == r);
    assert forall|i: int| 0 <= i < s.drop_last().len() implies #[trigger] s.drop_last()[i]
        == r by {
        assert(s[i] == r);
    }
    let a = r.opacity as int;
    let u = (ONE as int) - a;
    assert(ONE == 65536);
    if s.len() == 1 {
        assert(s.drop_last().len() == 0);
        assert(trans(s.drop_last()) == ONE as int);
        lemma_div_multiples_vanish(u, ONE as int);
        assert((ONE as int) * u == u * (ONE as int));
    } else {
        lemma_trans_identical(s.drop_last(), r);
        let t = trans(s.drop_last());
        assert(forall|i: int|
            0 <= i < s.drop_last().len() ==> (#[trigger] s.drop_last()[i]).wf());
        lemma_trans_bound(s.drop_last());
        if a == 0 {
            lemma_div_multiples_vanish(t, ONE as int);
            assert(t * u == (ONE as int) * t) by (nonlinear_arith)
                requires
                    u == 65536,
            {}
        } else if a == ONE {
            assert(t * u == 0) by (nonlinear_arith)
                requires
                    u == 0,
            {}
            vstd::arithmetic::div_mod::lemma_div_of0(ONE as int);
        } else {
            if s.len() == 2 {
                assert(t == u);
                assert(u * a >= 1) by (nonlinear_arith)
                    requires
                        1 <= a <= 65535,
                        u == 65536 - a,
                {}
                assert(u * u <= u * 65536 - 1) by (nonlinear_arith)
                    requires
                        u * a >= 1,
                        u == 65536 - a,
                {}
                vstd::arithmetic::div_mod::lemma_fundamental_div_mod_converse(
                    u * 65536 - 1,
                    65536,
                    u - 1,
                    65535,
                );
                lemma_div_is_ordered(u * u, u * 65536 - 1, 65536);
            } else {
                assert(t <= u - 1);
                assert(t * u <= (u - 1) * u && (u - 1) * u <= (u - 1) * 65536)
                    by (nonlinear_arith)
                    requires
                        0 <= t <= u - 1,
                        1 <= u <= 65536,
                {}
                vstd::arithmetic::div_mod::lemma_fundamental_div_mod_converse(
                    (u - 1) * 65536,
                    65536,
                    u - 1,
                    0,
                );
                lemma_div_is_ordered(t * u, (u - 1) * 65536, 65536);
                lemma_div_pos_is_pos(t * u, 65536);
                assert(t * u >= 0) by (nonlinear_arith)
                    requires
                        t >= 0,
                        u >= 0,
                {}
            }
        }
    }
}

/// Merge conservation: a cluster of identical well-formed records merges
/// into that record. Position, colors and scale come back exactly; the
/// normal and the rotation come back exactly whenever the input direction
/// is exactly unit length; and the combined opacity of two or more
/// partially opaque copies strictly exceeds the single input's opacity,
/// while fully transparent and fully opaque inputs are preserved.
pub proof fn lemma_merge_conservation(s: Seq<Gaussian>, r: Gaussian)
    requires
        s.len() >= 1,
        r.wf(),
        forall|i: int| 0 <= i < s.len() ==> #[trigger] s[i] == r,
    ensures
        forall|j: int|
            (0 <= j < 3 || 6 <= j < 54) ==> #[trigger] merged_attr(s, j) == attr(r, j),
        forall|j: int| 55 <= j < 58 ==> #[trigger] merged_attr(s, j) == attr(r, j),
        norm3_sq(r.normal) == (ONE as int) * (ONE as int) ==> merged_normal(s) == r.normal,
        norm4_sq(r.rot) == (ONE as int) * (ONE as int) ==> merged_rot(s) == r.rot,
        s.len() == 1 ==> merged_attr(s, 54) == attr(r, 54),
        r.opacity == 0 ==> merged_attr(s, 54) == 0,
        r.opacity == ONE ==> merged_attr(s, 54) == attr(r, 54),
        s.len() >= 2 && 0 < r.opacity < ONE ==> merged_attr(s, 54) > attr(r, 54),
{
    r.lemma_wf_bounds();
    assert forall|j: int| (0 <= j < 3 || 6 <= j < 54) implies #[trigger] merged_attr(s, j)
        == attr(r, j) by {
        lemma_identical_mean(s, r, j);
    }
    assert forall|j: int| 55 <= j < 58 implies #[trigger] merged_attr(s, j) == attr(r, j) by {
        lemma_identical_mean(s, r, j - 55);
        lemma_spread_identical(s, r, attr(r, j - 55), j - 55, j);
    }
    if norm3_sq(r.normal) == (ONE as int) * (ONE as int) {
        lemma_identical_mean(s, r, 3);
        lemma_identical_mean(s, r, 4);
        lemma_identical_mean(s, r, 5);
        let m = Vec3 {
            x: mean_attr(s, 3) as i64,
            y: mean_attr(s, 4) as i64,
            z: mean_attr(s, 5) as i64,
        };
        assert(m == r.normal);
        lemma_normalize_exact3(m);
    }
    if norm4_sq(r.rot) == (ONE as int) * (ONE as int) {
        assert(s[0] == r);
        assert(norm4_sq(r.rot) >= 0);
        lemma_identical_sums(s, r, 0);
        let t = s.len() * weight(r);
        assert(t >= 1) by (nonlinear_arith)
            requires
                s.len() >= 1,
                weight(r) >= 1,
                t == s.len() * weight(r),
        {}
        assert forall|j: int| 0 <= j < 4 implies mean_rot(s, r.rot, j) == r4(r.rot, j) by {
            lemma_identical_rot_sums(s, r, j);
            assert(s.len() * (weight(r) * r4(r.rot, j)) == t * r4(r.rot, j))
                by (nonlinear_arith)
                requires
                    t == s.len() * weight(r),
            {}
            crate::math::lemma_sdiv_exact(r4(r.rot, j), t);
        }
        let m = Rot4 {
            r0: mean_rot(s, r.rot, 0) as i64,
            r1: mean_rot(s, r.rot, 1) as i64,
            r2: mean_rot(s, r.rot, 2) as i64,
            r3: mean_rot(s, r.rot, 3) as i64,
        };
        assert(m == r.rot);
        lemma_normalize_exact4(m);
    }
    lemma_trans_identical(s, r);
}

} // verus!

use vstd::prelude::*;
use crate::gaussian::{bounded3, SplatSet, Vec3};
use crate::math::{lemma_sdiv_bound, div_i128};
use crate::{C_MAX, PrecomputeError};
use vstd::arithmetic::div_mod::{lemma_mod_bound, lemma_multiply_divide_lt};

verus! {

/// How a splat set is cut into clusters: iterative centroid (k-means style)
/// clustering, or a regular axis-aligned grid over the bounding box.
#[derive(Clone, Copy, Debug, PartialEq, Eq, Structural)]
pub enum PartitionStrategy {
    Centroid,
    RegularGrid,
}

/// How often `v` occurs in one cluster.
pub open spec fn cnt(s: Seq<usize>, v: usize) -> nat
    decreases s.len(),
{
    if s.len() == 0 {
        0
    } else {
        cnt(s.drop_last(), v) + if s.last() == v {
            1nat
        } else {
            0nat
        }
    }
}

/// How often `v` occurs across all clusters.
pub open spec fn tcnt(cs: Seq<Seq<usize>>, v: usize) -> nat
    decreases cs.len(),
{
    if cs.len() == 0 {
        0
    } else {
        tcnt(cs.drop_last(), v) + cnt(cs.last(), v)
    }
}

pub open spec fn views(cs: Seq<Vec<usize>>) -> Seq<Seq<usize>> {
    cs.map_values(|c: Vec<usize>| c@)
}

/// The clusters are exhaustive and disjoint over the index range `0..n`:
/// every index below `n` appears exactly once over all clusters, and
/// nothing else appears at all.
pub open spec fn is_partition(cs: Seq<Seq<usize>>, n: nat) -> bool {
    forall|v: usize|
        #[trigger] tcnt(cs, v) == if (v as nat) < n {
            1nat
        } else {
            0nat
        }
}

/// Every record sits at the same position.
pub open spec fn all_coincide(s: SplatSet) -> bool {
    forall|i: int|
        0 <= i < s.records@.len() ==> (#[trigger] s.records@[i]).position == s.records@[0].position
}

proof fn lemma_cnt_push(s: Seq<usize>, x: usize, v: usize)
    ensures
        cnt(s.push(x), v) == cnt(s, v) + if x == v {
            1nat
        } else {
            0nat
        },
{
    assert(s.push(x).drop_last() =~= s);
}

proof fn lemma_cnt_remove(s: Seq<usize>, p: int, v: usize)
    requires
        0 <= p < s.len(),
    ensures
        cnt(s.remove(p), v) + if s[p] == v {
            1nat
        } else {
            0nat
        } == cnt(s, v),
    decreases s.len(),
{
    if p == s.len() - 1 {
        assert(s.remove(p) =~= s.drop_last());
    } else {
        assert(s.remove(p).drop_last() =~= s.drop_last().remove(p));
        assert(s.remove(p).last() == s.last());
        lemma_cnt_remove(s.drop_last(), p, v);
    }
}

proof fn lemma_tcnt_push(cs: Seq<Seq<usize>>, c: Seq<usize>, v: usize)
    ensures
        tcnt(cs.push(c), v) == tcnt(cs, v) + cnt(c, v),
{
    assert(cs.push(c).drop_last() =~= cs);
}

proof fn lemma_tcnt_update(cs: Seq<Seq<usize>>, j: int, c2: Seq<usize>, v: usize)
    requires
        0 <= j < cs.len(),
    ensures
        tcnt(cs.update(j, c2), v) + cnt(cs[j], v) == tcnt(cs, v) + cnt(c2, v),
    decreases cs.len(),
{
    if j == cs.len() - 1 {
        assert(cs.update(j, c2).drop_last() =~= cs.drop_last());
        assert(cs.update(j, c2).last() == c2);
    } else {
        assert(cs.update(j, c2).drop_last() =~= cs.drop_last().update(j, c2));
        assert(cs.update(j, c2).last() == cs.last());
        lemma_tcnt_update(cs.drop_last(), j, c2, v);
    }
}

/// Append `x` to cluster `j`.
fn cluster_push(cs: &mut Vec<Vec<usize>>, j: usize, x: usize)
    requires
        j < old(cs)@.len(),
    ensures
        final(cs)@[j as int]@ =~= old(cs)@[j as int]@.push(x),
        final(cs)@.len() == old(cs)@.len(),
        forall|a: int|
            0 <= a < old(cs)@.len() && a != j ==> (#[trigger] final(cs)@[a])@ == old(cs)@[a]@,
        forall|v: usize|
            tcnt(views(final(cs)@), v) == tcnt(views(old(cs)@), v) + if x == v {
                1nat
            } else {
                0nat
            },
{
    let ghost orig = cs@;
    let mut c = cs.remove(j);
    c.push(x);
    cs.insert(j, c);
    proof {
        assert(views(cs@) =~= views(orig).update(j as int, orig[j as int]@.push(x)));
        assert forall|v: usize|
            tcnt(views(cs@), v) == tcnt(views(orig), v) + (if x == v {
                1nat
            } else {
                0nat
            }) by {
            lemma_cnt_push(orig[j as int]@, x, v);
            lemma_tcnt_update(views(orig), j as int, orig[j as int]@.push(x), v);
        }
    }
}

/// Remove the member at position `p` of cluster `a` and return it.
fn cluster_take(cs: &mut Vec<Vec<usize>>, a: usize, p: usize) -> (x: usize)
    requires
        a < old(cs)@.len(),
        p < old(cs)@[a as int]@.len(),
    ensures
        x == old(cs)@[a as int]@[p as int],
        final(cs)@.len() == old(cs)@.len(),
        final(cs)@[a as int]@ =~= old(cs)@[a as int]@.remove(p as int),
        forall|b: int|
            0 <= b < old(cs)@.len() && b != a ==> (#[trigger] final(cs)@[b])@ == old(cs)@[b]@,
        forall|v: usize|
            tcnt(views(final(cs)@), v) + (if x == v {
                1nat
            } else {
                0nat
            }) == tcnt(views(old(cs)@), v),
{
    let ghost orig = cs@;
    let mut c = cs.remove(a);
    let x = c.remove(p);
    cs.insert(a, c);
    proof {
        assert(views(cs@) =~= views(orig).update(a as int, orig[a as int]@.remove(p as int)));
        assert forall|v: usize|
            tcnt(views(cs@), v) + (if x == v {
                1nat
            } else {
                0nat
            }) == tcnt(views(orig), v) by {
            lemma_cnt_remove(orig[a as int]@, p as int, v);
            lemma_tcnt_update(views(orig), a as int, orig[a as int]@.remove(p as int), v);
        }
    }
    x
}

/// Total number of members over all clusters.
pub open spec fn total_len(cs: Seq<Seq<usize>>) -> nat
    decreases cs.len(),
{
    if cs.len() == 0 {
        0
    } else {
        total_len(cs.drop_last()) + cs.last().len()
    }
}

/// Occurrences in one cluster of all values below `m`, summed.
spec fn sum_cnt(c: Seq<usize>, m: nat) -> nat
    decreases m,
{
    if m == 0 {
        0
    } else {
        sum_cnt(c, (m - 1) as nat) + cnt(c, (m - 1) as usize)
    }
}

/// Occurrences over all clusters of all values below `m`, summed.
spec fn sum_tcnt(cs: Seq<Seq<usize>>, m: nat) -> nat
    decreases m,
{
    if m == 0 {
        0
    } else {
        sum_tcnt(cs, (m - 1) as nat) + tcnt(cs, (m - 1) as usize)
    }
}

proof fn lemma_sum_cnt_empty(m: nat)
    ensures
        sum_cnt(Seq::empty(), m) == 0,
    decreases m,
{
    if m > 0 {
        lemma_sum_cnt_empty((m - 1) as nat);
    }
}

proof fn lemma_sum_cnt_push(c: Seq<usize>, x: usize, m: nat)
    requires
        m <= usize::MAX,
    ensures
        sum_cnt(c.push(x), m) == sum_cnt(c, m) + if (x as nat) < m {
            1nat
        } else {
            0nat
        },
    decreases m,
{
    if m > 0 {
        lemma_sum_cnt_push(c, x, (m - 1) as nat);
        lemma_cnt_push(c, x, (m - 1) as usize);
    }
}

/// A cluster whose members all lie below `m` contributes its length to the
/// summed counts.
proof fn lemma_sum_cnt_is_len(c: Seq<usize>, m: nat)
    requires
        m <= usize::MAX,
        forall|b: int| 0 <= b < c.len() ==> (#[trigger] c[b] as nat) < m,
    ensures
        sum_cnt(c, m) == c.len(),
    decreases c.len(),
{
    if c.len() == 0 {
        lemma_sum_cnt_empty(m);
        assert(c =~= Seq::empty());
    } else {
        lemma_sum_cnt_is_len(c.drop_last(), m);
        lemma_sum_cnt_push(c.drop_last(), c.last(), m);
        assert(c.drop_last().push(c.last()) =~= c);
    }
}

proof fn lemma_sum_tcnt_push(cs: Seq<Seq<usize>>, c: Seq<usize>, m: nat)
    ensures
        sum_tcnt(cs.push(c), m) == sum_tcnt(cs, m) + sum_cnt(c, m),
    decreases m,
{
    if m > 0 {
        lemma_sum_tcnt_push(cs, c, (m - 1) as nat);
        lemma_tcnt_push(cs, c, (m - 1) as usize);
    }
}

proof fn lemma_sum_tcnt_empty(m: nat)
    ensures
        sum_tcnt(Seq::empty(), m) == 0,
    decreases m,
{
    if m > 0 {
        lemma_sum_tcnt_empty((m - 1) as nat);
        assert(tcnt(Seq::empty(), (m - 1) as usize) == 0);
    }
}

proof fn lemma_total_len_is_sum(cs: Seq<Seq<usize>>, m: nat)
    requires
        m <= usize::MAX,
        forall|a: int, b: int|
            0 <= a < cs.len() && 0 <= b < cs[a].len() ==> (#[trigger] cs[a][b] as nat) < m,
    ensures
        total_len(cs) == sum_tcnt(cs, m),
    decreases cs.len(),
{
    if cs.len() == 0 {
        lemma_sum_tcnt_empty(m);
        assert(cs =~= Seq::empty());
    } else {
        lemma_total_len_is_sum(cs.drop_last(), m);
        lemma_sum_tcnt_push(cs.drop_last(), cs.last(), m);
        assert(cs.drop_last().push(cs.last()) =~= cs);
        lemma_sum_cnt_is_len(cs.last(), m);
    }
}

proof fn lemma_partition_sum(cs: Seq<Seq<usize>>, n: nat, m: nat)
    requires
        is_partition(cs, n),
        m <= n,
        n <= usize::MAX,
    ensures
        sum_tcnt(cs, m) == m,
    decreases m,
{
    if m > 0 {
        lemma_partition_sum(cs, n, (m - 1) as nat);
        assert(tcnt(cs, (m - 1) as usize) == 1);
    }
}

/// A partition of `0..n` holds exactly `n` members in all.
proof fn lemma_partition_total_len(cs: Seq<Seq<usize>>, n: nat)
    requires
        is_partition(cs, n),
        n <= usize::MAX,
        forall|a: int, b: int|
            0 <= a < cs.len() && 0 <= b < cs[a].len() ==> (#[trigger] cs[a][b] as nat) < n,
    ensures
        total_len(cs) == n,
{
    lemma_partition_sum(cs, n, n);
    lemma_total_len_is_sum(cs, n);
}

/// If every cluster holds at most one member and one holds none, the
/// partition covers fewer values than it has clusters.
proof fn lemma_total_len_sparse(cs: Seq<Seq<usize>>, j: int)
    requires
        forall|a: int| 0 <= a < cs.len() ==> (#[trigger] cs[a]).len() <= 1,
        0 <= j < cs.len(),
        cs[j].len() == 0,
    ensures
        total_len(cs) + 1 <= cs.len(),
    decreases cs.len(),
{
    if j == cs.len() - 1 {
        lemma_total_len_bound(cs.drop_last());
    } else {
        lemma_total_len_sparse(cs.drop_last(), j);
    }
}

proof fn lemma_total_len_bound(cs: Seq<Seq<usize>>)
    requires
        forall|a: int| 0 <= a < cs.len() ==> (#[trigger] cs[a]).len() <= 1,
    ensures
        total_len(cs) <= cs.len(),
    decreases cs.len(),
{
    if cs.len() > 0 {
        lemma_total_len_bound(cs.drop_last());
    }
}

/// All members of all clusters index into `0..n`.
pub open spec fn members_below(cs: Seq<Vec<usize>>, n: nat) -> bool {
    forall|a: int, b: int|
        0 <= a < cs.len() && 0 <= b < cs[a]@.len() ==> (#[trigger] cs[a]@[b]) < n
}

/// Squared Euclidean distance between two positions.
pub open spec fn spec_dist_sq(a: Vec3, b: Vec3) -> int {
    (a.x - b.x) * (a.x - b.x) + (a.y - b.y) * (a.y - b.y) + (a.z - b.z) * (a.z - b.z)
}

fn dist_sq(a: Vec3, b: Vec3) -> (d: i128)
    requires
        bounded3(a),
        bounded3(b),
    ensures
        d == spec_dist_sq(a, b),
        d >= 0,
{
    let dx: i128 = (a.x as i128) - (b.x as i128);
    let dy: i128 = (a.y as i128) - (b.y as i128);
    let dz: i128 = (a.z as i128) - (b.z as i128);
    proof {
        assert(dx * dx >= 0 && dx * dx <= 0x4_0000_0000_0000_0000_0000_0int) by (nonlinear_arith)
            requires
                -0x200_0000_0000i128 <= dx <= 0x200_0000_0000i128,
        {}
        assert(dy * dy >= 0 && dy * dy <= 0x4_0000_0000_0000_0000_0000_0int) by (nonlinear_arith)
            requires
                -0x200_0000_0000i128 <= dy <= 0x200_0000_0000i128,
        {}
        assert(dz * dz >= 0 && dz * dz <= 0x4_0000_0000_0000_0000_0000_0int) by (nonlinear_arith)
            requires
                -0x200_0000_0000i128 <= dz <= 0x200_0000_0000i128,
        {}
    }
    dx * dx + dy * dy + dz * dz
}

/// Componentwise bounding box of all positions; it is tight, so the box
/// degenerates to a point exactly when all positions coincide.
fn bounding_box(set: &SplatSet) -> (r: (Vec3, Vec3))
    requires
        set.wf(),
        set.spec_len() > 0,
    ensures
        bounded3(r.0),
        bounded3(r.1),
        forall|i: int|
            0 <= i < set.records@.len() ==> {
                let p = (#[trigger] set.records@[i]).position;
                r.0.x <= p.x <= r.1.x && r.0.y <= p.y <= r.1.y && r.0.z <= p.z <= r.1.z
            },
        (r.0 == r.1) <==> all_coincide(*set),
{
    proof {
        set.records@[0].lemma_wf_bounds();
    }
    let p0 = set.records[0].position;
    let mut mn = p0;
    let mut mx = p0;
    let mut i: usize = 1;
    while i < set.records.len()
        invariant
            1 <= i <= set.records@.len(),
            set.wf(),
            set.spec_len() > 0,
            bounded3(mn),
            bounded3(mx),
            forall|k: int|
                0 <= k < i ==> {
                    let p = (#[trigger] set.records@[k]).position;
                    mn.x <= p.x <= mx.x && mn.y <= p.y <= mx.y && mn.z <= p.z <= mx.z
                },
            (forall|k: int|
                0 <= k < i ==> (#[trigger] set.records@[k]).position == set.records@[0].position)
                ==> (mn == mx && mn == set.records@[0].position),
        decreases set.records@.len() - i,
    {
        proof {
            set.records@[i as int].lemma_wf_bounds();
        }
        let p = set.records[i].position;
        if p.x < mn.x {
            mn.x = p.x;
        }
        if p.y < mn.y {
            mn.y = p.y;
        }
        if p.z < mn.z {
            mn.z = p.z;
        }
        if p.x > mx.x {
            mx.x = p.x;
        }
        if p.y > mx.y {
            mx.y = p.y;
        }
        if p.z > mx.z {
            mx.z = p.z;
        }
        i += 1;
    }
    (mn, mx)
}

/// The index of the nearest centroid; ties go to the lowest index, so the
/// result is deterministic.
fn nearest_centroid(p: Vec3, cents: &Vec<Vec3>) -> (j: usize)
    requires
        cents@.len() >= 1,
        bounded3(p),
        forall|k: int| 0 <= k < cents@.len() ==> bounded3(#[trigger] cents@[k]),
    ensures
        j < cents@.len(),
        forall|k: int|
            0 <= k < cents@.len() ==> spec_dist_sq(p, cents@[j as int]) <= spec_dist_sq(
                p,
                #[trigger] cents@[k],
            ),
{
    let mut best: usize = 0;
    let mut best_d: i128 = dist_sq(p, cents[0]);
    let mut k: usize = 1;
    while k < cents.len()
        invariant
            1 <= k <= cents@.len(),
            best < k,
            bounded3(p),
            forall|a: int| 0 <= a < cents@.len() ==> bounded3(#[trigger] cents@[a]),
            best_d == spec_dist_sq(p, cents@[best as int]),
            forall|a: int| 0 <= a < k ==> best_d <= spec_dist_sq(p, #[trigger] cents@[a]),
        decreases cents@.len() - k,
    {
        let d = dist_sq(p, cents[k]);
        if d < best_d {
            best = k;
            best_d = d;
        }
        k += 1;
    }
    best
}

/// Assign every record to its nearest centroid. Clusters may come out
/// empty; together they are always a partition of the index range.
fn assign_to_centroids(set: &SplatSet, cents: &Vec<Vec3>) -> (cs: Vec<Vec<usize>>)
    requires
        set.wf(),
        cents@.len() >= 1,
        forall|k: int| 0 <= k < cents@.len() ==> bounded3(#[trigger] cents@[k]),
    ensures
        cs@.len() == cents@.len(),
        is_partition(views(cs@), set.spec_len()),
        members_below(cs@, set.spec_len()),
{
    let n = set.records.len();
    let k = cents.len();
    let mut cs: Vec<Vec<usize>> = Vec::new();
    let mut j: usize = 0;
    while j < k
        invariant
            j <= k,
            cs@.len() == j,
            forall|a: int| 0 <= a < j ==> (#[trigger] cs@[a])@.len() == 0,
            forall|v: usize| tcnt(views(cs@), v) == 0,
        decreases k - j,
    {
        let ghost pre = cs@;
        cs.push(Vec::new());
        proof {
            assert(views(cs@) =~= views(pre).push(Seq::empty()));
            assert forall|v: usize| tcnt(views(cs@), v) == 0 by {
                lemma_tcnt_push(views(pre), Seq::empty(), v);
            }
        }
        j += 1;
    }
    let mut i: usize = 0;
    while i < n
        invariant
            i <= n,
            n == set.spec_len(),
            set.wf(),
            cents@.len() == k,
            k >= 1,
            forall|a: int| 0 <= a < cents@.len() ==> bounded3(#[trigger] cents@[a]),
            cs@.len() == k,
            members_below(cs@, i as nat),
            forall|v: usize|
                #[trigger] tcnt(views(cs@), v) == if (v as nat) < i {
                    1nat
                } else {
                    0nat
                },
        decreases n - i,
    {
        proof {
            set.records@[i as int].lemma_wf_bounds();
        }
        let p = set.records[i].position;
        let best = nearest_centroid(p, cents);
        cluster_push(&mut cs, best, i);
        i += 1;
    }
    cs
}

/// Mean position of the members of one cluster; used as the next centroid.
fn cluster_mean(set: &SplatSet, c: &Vec<usize>) -> (m: Vec3)
    requires
        set.wf(),
        c@.len() >= 1,
        forall|b: int| 0 <= b < c@.len() ==> (#[trigger] c@[b]) < set.spec_len(),
    ensures
        bounded3(m),
{
    let n = c.len();
    let mut sx: i128 = 0;
    let mut sy: i128 = 0;
    let mut sz: i128 = 0;
    let mut b: usize = 0;
    while b < n
        invariant
            b <= n,
            n == c@.len(),
            set.wf(),
            forall|t: int| 0 <= t < c@.len() ==> (#[trigger] c@[t]) < set.spec_len(),
            -((b as int) * (C_MAX as int)) <= sx <= (b as int) * (C_MAX as int),
            -((b as int) * (C_MAX as int)) <= sy <= (b as int) * (C_MAX as int),
            -((b as int) * (C_MAX as int)) <= sz <= (b as int) * (C_MAX as int),
        decreases n - b,
    {
        proof {
            set.records@[c@[b as int] as int].lemma_wf_bounds();
            assert((b as int) * (C_MAX as int) + C_MAX == ((b as int) + 1) * (C_MAX as int))
                by (nonlinear_arith)
            {}
        }
        let p = set.records[c[b]].position;
        sx = sx + (p.x as i128);
        sy = sy + (p.y as i128);
        sz = sz + (p.z as i128);
        b += 1;
    }
    proof {
        lemma_sdiv_bound(sx as int, n as int, C_MAX as int);
        lemma_sdiv_bound(sy as int, n as int, C_MAX as int);
        lemma_sdiv_bound(sz as int, n as int, C_MAX as int);
    }
    let mx = div_i128(sx, n as i128);
    let my = div_i128(sy, n as i128);
    let mz = div_i128(sz, n as i128);
    Vec3 { x: mx as i64, y: my as i64, z: mz as i64 }
}

/// Centroid (k-means style) clustering: deterministic for a fixed seed.
/// Initial centroids are records at evenly strided indices, rotated by the
/// seed; assignment and centroid update alternate until the centroids are
/// stable or the iteration budget is spent. Afterwards any empty cluster is
/// reseeded from the farthest outlier (the member farthest from its own
/// centroid among clusters that can spare one), and clusters that still
/// ended empty are dropped.
fn centroid_partition(set: &SplatSet, k: usize, seed: u64, max_iters: usize) -> (cs: Vec<
    Vec<usize>,
>)
    requires
        set.wf(),
        1 <= k <= set.spec_len(),
        max_iters >= 1,
    ensures
        is_partition(views(cs@), set.spec_len()),
        members_below(cs@, set.spec_len()),
        forall|a: int| 0 <= a < cs@.len() ==> (#[trigger] cs@[a])@.len() > 0,
        cs@.len() == k,
{
    let n = set.records.len();
    let mut cents: Vec<Vec3> = Vec::new();
    let mut j: usize = 0;
    while j < k
        invariant
            j <= k,
            1 <= k <= set.spec_len(),
            n == set.spec_len(),
            set.wf(),
            cents@.len() == j,
            forall|a: int| 0 <= a < j ==> bounded3(#[trigger] cents@[a]),
        decreases k - j,
    {
        proof {
            assert((j as int) * (n as int) < (k as int) * (n as int) && (k as int) * (n as int)
                <= 0xffff_ffff_ffff_ffffint * 0xffff_ffff_ffff_ffffint) by (nonlinear_arith)
                requires
                    0 <= j < k,
                    1 <= n <= 0xffff_ffff_ffff_ffffint,
                    1 <= k <= 0xffff_ffff_ffff_ffffint,
            {}
            lemma_multiply_divide_lt((j as int) * (n as int), k as int, n as int);
        }
        let base: u128 = ((j as u128) * (n as u128)) / (k as u128);
        let idx128: u128 = (base + (seed as u128)) % (n as u128);
        proof {
            lemma_mod_bound(base as int + (seed as int), n as int);
        }
        let idx = idx128 as usize;
        proof {
            set.records@[idx as int].lemma_wf_bounds();
        }
        cents.push(set.records[idx].position);
        j += 1;
    }
    let mut cs = assign_to_centroids(set, &cents);
    let mut it: usize = 1;
    while it < max_iters
        invariant
            set.wf(),
            n == set.spec_len(),
            1 <= k <= set.spec_len(),
            cents@.len() == k,
            forall|a: int| 0 <= a < k ==> bounded3(#[trigger] cents@[a]),
            cs@.len() == k,
            is_partition(views(cs@), set.spec_len()),
            members_below(cs@, set.spec_len()),
        decreases max_iters - it,
    {
        let mut next: Vec<Vec3> = Vec::new();
        let mut j2: usize = 0;
        while j2 < k
            invariant
                j2 <= k,
                set.wf(),
                n == set.spec_len(),
                cents@.len() == k,
                forall|a: int| 0 <= a < k ==> bounded3(#[trigger] cents@[a]),
                cs@.len() == k,
                members_below(cs@, set.spec_len()),
                next@.len() == j2,
                forall|a: int| 0 <= a < j2 ==> bounded3(#[trigger] next@[a]),
            decreases k - j2,
        {
            if cs[j2].len() > 0 {
                let m = cluster_mean(set, &cs[j2]);
                next.push(m);
            } else {
                next.push(cents[j2]);
            }
            j2 += 1;
        }
        let mut same = true;
        let mut j3: usize = 0;
        while j3 < k
            invariant
                j3 <= k,
                cents@.len() == k,
                next@.len() == k,
                same ==> forall|a: int| 0 <= a < j3 ==> cents@[a] == next@[a],
            decreases k - j3,
        {
            if !(cents[j3] == next[j3]) {
                same = false;
            }
            j3 += 1;
        }
        if same {
            break ;
        }
        cents = next;
        cs = assign_to_centroids(set, &cents);
        it += 1;
    }
    // Reseed every empty cluster from the farthest outlier. A donor with
    // at least two members always exists: a partition of at least k
    // indices over k clusters, one of them empty, cannot consist of
    // singletons alone.
    let mut j4: usize = 0;
    while j4 < k
        invariant
            j4 <= k,
            set.wf(),
            n == set.spec_len(),
            1 <= k <= n,
            cents@.len() == k,
            forall|a: int| 0 <= a < k ==> bounded3(#[trigger] cents@[a]),
            cs@.len() == k,
            is_partition(views(cs@), set.spec_len()),
            members_below(cs@, set.spec_len()),
            forall|t: int| 0 <= t < j4 ==> (#[trigger] cs@[t])@.len() > 0,
        decreases k - j4,
    {
        if cs[j4].len() == 0 {
            let mut found = false;
            let mut best_a: usize = 0;
            let mut best_b: usize = 0;
            let mut best_d: i128 = -1;
            let mut a: usize = 0;
            while a < k
                invariant
                    a <= k,
                    set.wf(),
                    n == set.spec_len(),
                    cents@.len() == k,
                    forall|t: int| 0 <= t < k ==> bounded3(#[trigger] cents@[t]),
                    cs@.len() == k,
                    members_below(cs@, set.spec_len()),
                    found ==> best_a < k && cs@[best_a as int]@.len() >= 2 && best_b < cs@[best_a as int]@.len(),
                    !found ==> best_d == -1,
                    !found ==> forall|t: int| 0 <= t < a ==> (#[trigger] cs@[t])@.len() <= 1,
                decreases k - a,
            {
                if cs[a].len() >= 2 {
                    let mut b: usize = 0;
                    while b < cs[a].len()
                        invariant
                            a < k,
                            b <= cs@[a as int]@.len(),
                            set.wf(),
                            n == set.spec_len(),
                            cents@.len() == k,
                            forall|t: int| 0 <= t < k ==> bounded3(#[trigger] cents@[t]),
                            cs@.len() == k,
                            members_below(cs@, set.spec_len()),
                            cs@[a as int]@.len() >= 2,
                            found ==> best_a < k && cs@[best_a as int]@.len() >= 2 && best_b < cs@[best_a as int]@.len(),
                            !found ==> best_d == -1 && b == 0,
                        decreases cs@[a as int]@.len() - b,
                    {
                        let m = cs[a][b];
                        proof {
                            set.records@[m as int].lemma_wf_bounds();
                        }
                        let d = dist_sq(set.records[m].position, cents[a]);
                        if d > best_d {
                            found = true;
                            best_a = a;
                            best_b = b;
                            best_d = d;
                        }
                        b += 1;
                    }
                }
                a += 1;
            }
            proof {
                if !found {
                    assert forall|t: int, u: int|
                        0 <= t < views(cs@).len() && 0 <= u < views(cs@)[t].len() implies (
                        #[trigger] views(cs@)[t][u] as nat) < n as nat by {
                        assert(cs@[t]@[u] < set.spec_len());
                    }
                    lemma_partition_total_len(views(cs@), n as nat);
                    lemma_total_len_sparse(views(cs@), j4 as int);
                    assert(false);
                }
                assert(best_a != j4);
            }
            let ghost pre = cs@;
            let x = cluster_take(&mut cs, best_a, best_b);
            let ghost mid = cs@;
            cluster_push(&mut cs, j4, x);
            proof {
                assert forall|v: usize| #[trigger] tcnt(views(cs@), v) == tcnt(
                    views(pre),
                    v,
                ) by {
                    assert(tcnt(views(mid), v) + (if x == v {
                        1nat
                    } else {
                        0nat
                    }) == tcnt(views(pre), v));
                    assert(tcnt(views(cs@), v) == tcnt(views(mid), v) + (if x == v {
                        1nat
                    } else {
                        0nat
                    }));
                }
            }
        }
        j4 += 1;
    }
    cs
}

fn clone_cluster(c: &Vec<usize>) -> (r: Vec<usize>)
    ensures
        r@ =~= c@,
{
    let mut r: Vec<usize> = Vec::new();
    let mut i: usize = 0;
    while i < c.len()
        invariant
            i <= c@.len(),
            r@ =~= c@.take(i as int),
        decreases c@.len() - i,
    {
        r.push(c[i]);
        proof {
            assert(c@.take(i as int + 1) =~= c@.take(i as int).push(c@[i as int]));
        }
        i += 1;
    }
    r
}

/// Regular grid subdivision: the bounding box is cut into `g` cells per
/// axis, `g` being the smallest count (capped at 32) whose cube reaches the
/// target; every record lands in the cell its position falls in, and
/// non-empty cells become the clusters.
fn grid_partition(set: &SplatSet, target: usize, mn: Vec3, mx: Vec3) -> (cs: Vec<Vec<usize>>)
    requires
        set.wf(),
        set.spec_len() > 0,
        bounded3(mn),
        bounded3(mx),
        forall|i: int|
            0 <= i < set.records@.len() ==> {
                let p = (#[trigger] set.records@[i]).position;
                mn.x <= p.x <= mx.x && mn.y <= p.y <= mx.y && mn.z <= p.z <= mx.z
            },
    ensures
        is_partition(views(cs@), set.spec_len()),
        members_below(cs@, set.spec_len()),
        forall|a: int| 0 <= a < cs@.len() ==> (#[trigger] cs@[a])@.len() > 0,
        1 <= cs@.len() <= 32768,
{
    let n = set.records.len();
    let mut g: usize = 1;
    while g < 32
        invariant
            1 <= g <= 32,
        decreases 32 - g,
    {
        proof {
            assert((g as int) * (g as int) <= 1024 && (g as int) * (g as int) * (g as int)
                <= 32768) by (nonlinear_arith)
                requires
                    1 <= g <= 32,
            {}
        }
        if g * g * g >= target {
            break ;
        }
        g += 1;
    }
    proof {
        assert((g as int) * (g as int) <= 1024 && (g as int) * (g as int) * (g as int) <= 32768)
            by (nonlinear_arith)
            requires
                1 <= g <= 32,
        {}
    }
    let cells = g * g * g;
    let mut buckets: Vec<Vec<usize>> = Vec::new();
    let mut j: usize = 0;
    while j < cells
        invariant
            j <= cells,
            buckets@.len() == j,
            forall|a: int| 0 <= a < j ==> (#[trigger] buckets@[a])@.len() == 0,
            forall|v: usize| tcnt(views(buckets@), v) == 0,
        decreases cells - j,
    {
        let ghost pre = buckets@;
        buckets.push(Vec::new());
        proof {
            assert(views(buckets@) =~= views(pre).push(Seq::empty()));
            assert forall|v: usize| tcnt(views(buckets@), v) == 0 by {
                lemma_tcnt_push(views(pre), Seq::empty(), v);
            }
        }
        j += 1;
    }
    let wx: i128 = (mx.x as i128) - (mn.x as i128) + 1;
    let wy: i128 = (mx.y as i128) - (mn.y as i128) + 1;
    let wz: i128 = (mx.z as i128) - (mn.z as i128) + 1;
    proof {
        assert(mn.x <= set.records@[0].position.x <= mx.x);
        assert(mn.y <= set.records@[0].position.y <= mx.y);
        assert(mn.z <= set.records@[0].position.z <= mx.z);
    }
    let mut i: usize = 0;
    while i < n
        invariant
            i <= n,
            n == set.spec_len(),
            set.wf(),
            1 <= g <= 32,
            cells == g * g * g,
            buckets@.len() == cells,
            wx == (mx.x as int) - (mn.x as int) + 1,
            wy == (mx.y as int) - (mn.y as int) + 1,
            wz == (mx.z as int) - (mn.z as int) + 1,
            wx >= 1,
            wy >= 1,
            wz >= 1,
            bounded3(mn),
            bounded3(mx),
            forall|t: int|
                0 <= t < set.records@.len() ==> {
                    let p = (#[trigger] set.records@[t]).position;
                    mn.x <= p.x <= mx.x && mn.y <= p.y <= mx.y && mn.z <= p.z <= mx.z
                },
            members_below(buckets@, i as nat),
            forall|v: usize|
                #[trigger] tcnt(views(buckets@), v) == if (v as nat) < i {
                    1nat
                } else {
                    0nat
                },
        decreases n - i,
    {
        proof {
            set.records@[i as int].lemma_wf_bounds();
        }
        let p = set.records[i].position;
        let cx = cell_of(p.x, mn.x, wx, g);
        let cy = cell_of(p.y, mn.y, wy, g);
        let cz = cell_of(p.z, mn.z, wz, g);
        proof {
            assert((g as int) * (g as int) <= 1024 && (g as int) * (g as int) * (g as int)
                <= 32768) by (nonlinear_arith)
                requires
                    1 <= g <= 32,
            {}
            assert((cx as int) * (g as int) + (cy as int) < (g as int) * (g as int))
                by (nonlinear_arith)
                requires
                    (cx as int) < (g as int),
                    (cy as int) < (g as int),
                    (g as int) >= 1,
            {}
            assert(((cx as int) * (g as int) + (cy as int)) * (g as int) + (cz as int) < (g as int)
                * (g as int) * (g as int)) by (nonlinear_arith)
                requires
                    (cx as int) * (g as int) + (cy as int) < (g as int) * (g as int),
                    (cz as int) < (g as int),
                    (g as int) >= 1,
            {}
        }
        let b = (cx * g + cy) * g + cz;
        cluster_push(&mut buckets, b, i);
        i += 1;
    }
    // Non-empty cells become the clusters.
    let mut out: Vec<Vec<usize>> = Vec::new();
    let mut j5: usize = 0;
    while j5 < cells
        invariant
            j5 <= cells,
            buckets@.len() == cells,
            n == set.spec_len(),
            members_below(buckets@, set.spec_len()),
            members_below(out@, set.spec_len()),
            out@.len() <= j5,
            forall|a: int| 0 <= a < out@.len() ==> (#[trigger] out@[a])@.len() > 0,
            forall|v: usize| tcnt(views(out@), v) == tcnt(views(buckets@).take(j5 as int), v),
        decreases cells - j5,
    {
        proof {
            assert(views(buckets@).take(j5 as int + 1).drop_last() =~= views(buckets@).take(
                j5 as int,
            ));
            assert(views(buckets@).take(j5 as int + 1).last() == buckets@[j5 as int]@);
        }
        if buckets[j5].len() > 0 {
            let ghost pre = out@;
            let c = clone_cluster(&buckets[j5]);
            out.push(c);
            proof {
                assert(views(out@) =~= views(pre).push(buckets@[j5 as int]@));
                assert forall|v: usize|
                    tcnt(views(out@), v) == tcnt(views(buckets@).take(j5 as int + 1), v) by {
                    lemma_tcnt_push(views(pre), buckets@[j5 as int]@, v);
                }
            }
        }
        j5 += 1;
    }
    proof {
        assert(views(buckets@).take(cells as int) =~= views(buckets@));
        if out@.len() == 0 {
            assert(tcnt(views(out@), 0usize) == 0);
        }
        assert(cells <= 32768) by (nonlinear_arith)
            requires
                1 <= g <= 32,
                cells == (g as int) * (g as int) * (g as int),
        {}
    }
    out
}

/// The grid cell (along one axis) that a coordinate falls in.
fn cell_of(v: i64, mn: i64, w: i128, g: usize) -> (c: usize)
    requires
        mn <= v,
        (v as int) - (mn as int) < w,
        w >= 1,
        1 <= g <= 32,
        -C_MAX <= v <= C_MAX,
        -C_MAX <= mn <= C_MAX,
    ensures
        c < g,
{
    let d: i128 = (v as i128) - (mn as i128);
    proof {
        assert(0 <= d * (g as int) <= d * 32 && d * (g as int) < w * (g as int))
            by (nonlinear_arith)
            requires
                0 <= d < w,
                1 <= (g as int) <= 32,
        {}
    }
    let c128: i128 = (d * (g as i128)) / w;
    proof {
        lemma_multiply_divide_lt(d * (g as int), w as int, g as int);
        vstd::arithmetic::div_mod::lemma_div_pos_is_pos(d * (g as int), w as int);
    }
    c128 as usize
}

/// The cluster count that centroid partitioning delivers for a given
/// target: at least one, and never more clusters than records.
pub open spec fn eff_cluster_count(target: usize, n: nat) -> nat {
    if target == 0 {
        1
    } else if target as nat > n {
        n
    } else {
        target as nat
    }
}

/// Cut a splat set into disjoint, exhaustive, non-empty clusters of record
/// indices. An empty set is refused; so is a degenerate one (all positions
/// coincident) when more than one cluster was asked for. A target of zero
/// or one asks for a single cluster; a target above the record count is
/// clamped to it. Centroid partitioning returns that clamped count
/// exactly; grid partitioning returns as many clusters as occupied cells.
///
/// The function is deterministic: it is pure, so equal arguments (set,
/// strategy, target, seed, iteration budget) always yield the same
/// clusters. The postcondition itself is relational — it characterizes
/// every valid outcome (exhaustiveness, disjointness, non-emptiness,
/// cluster count) rather than pinning the clustering to a closed form.
pub fn partition(
    set: &SplatSet,
    strategy: PartitionStrategy,
    target: usize,
    seed: u64,
    max_iters: usize,
) -> (r: Result<Vec<Vec<usize>>, PrecomputeError>)
    requires
        set.wf(),
        max_iters >= 1,
    ensures
        set.spec_len() == 0 ==> r == Result::<Vec<Vec<usize>>, PrecomputeError>::Err(
            PrecomputeError::EmptyInputError,
        ),
        set.spec_len() > 0 && target > 1 && all_coincide(*set) ==> r == Result::<
            Vec<Vec<usize>>,
            PrecomputeError,
        >::Err(PrecomputeError::DegenerateGeometryError),
        set.spec_len() > 0 && !(target > 1 && all_coincide(*set)) ==> r is Ok,
        r matches Ok(cs) ==> {
            &&& is_partition(views(cs@), set.spec_len())
            &&& members_below(cs@, set.spec_len())
            &&& forall|a: int| 0 <= a < cs@.len() ==> (#[trigger] cs@[a])@.len() > 0
            &&& 1 <= cs@.len()
            &&& strategy == PartitionStrategy::Centroid ==> cs@.len() == eff_cluster_count(
                target,
                set.spec_len(),
            )
        },
{
    let n = set.records.len();
    if n == 0 {
        return Err(PrecomputeError::EmptyInputError);
    }
    let (mn, mx) = bounding_box(set);
    if target > 1 && mn == mx {
        return Err(PrecomputeError::DegenerateGeometryError);
    }
    let k = if target == 0 {
        1
    } else if target > n {
        n
    } else {
        target
    };
    match strategy {
        PartitionStrategy::Centroid => Ok(centroid_partition(set, k, seed, max_iters)),
        PartitionStrategy::RegularGrid => Ok(grid_partition(set, k, mn, mx)),
    }
}

} // verus!

use precompute::gaussian::{Gaussian, Rot4, SplatSet, Vec3};
use precompute::lod::{build_lods, BuildConfig, ConfigLOD};
use precompute::merge::{merge_cluster, normals_within_tolerance};
use precompute::partition::{partition, PartitionStrategy};
use precompute::scene::Scene;
use precompute::{PrecomputeError, ONE};

fn splat(px: i64, py: i64, pz: i64, opacity: i64, dc: i64) -> Gaussian {
    Gaussian {
        position: Vec3 { x: px, y: py, z: pz },
        normal: Vec3 { x: ONE, y: 0, z: 0 },
        f_dc: Vec3 { x: dc, y: dc, z: dc },
        f_rest: vec![0; 45],
        opacity,
        scale: Vec3 { x: 100, y: 100, z: 100 },
        rot: Rot4 { r0: ONE, r1: 0, r2: 0, r3: 0 },
    }
}

fn set_of(records: Vec<Gaussian>) -> SplatSet {
    SplatSet { records, source: String::from("level0.ply") }
}

/// Every index appears in exactly one returned cluster.
fn assert_exhaustive(clusters: &Vec<Vec<usize>>, n: usize) {
    let mut seen = vec![0usize; n];
    for c in clusters {
        assert!(!c.is_empty(), "no returned cluster may be empty");
        for &i in c {
            assert!(i < n);
            seen[i] += 1;
        }
    }
    for (i, &count) in seen.iter().enumerate() {
        assert_eq!(count, 1, "index {} must appear exactly once", i);
    }
}

struct Lcg(u64);

impl Lcg {
    fn next(&mut self) -> u64 {
        self.0 = self
            .0
            .wrapping_mul(6364136223846793005)
            .wrapping_add(1442695040888963407);
        self.0 >> 33
    }
}

fn uniform_cube(n: usize, seed: u64) -> Vec<Gaussian> {
    let mut rng = Lcg(seed);
    let mut records = Vec::new();
    for _ in 0..n {
        let x = (rng.next() % (ONE as u64 + 1)) as i64;
        let y = (rng.next() % (ONE as u64 + 1)) as i64;
        let z = (rng.next() % (ONE as u64 + 1)) as i64;
        // Colors vary by at most two percent around a common base so the
        // per-level weighted averages stay comparable.
        let dc = 32768 + (rng.next() % 1311) as i64 - 655;
        let op = 52429 + (rng.next() % 4000) as i64 - 2000;
        records.push(splat(x, y, z, op, dc));
    }
    records
}

#[test]
fn centroid_partition_is_exhaustive() {
    let set = set_of(uniform_cube(57, 7));
    let clusters = partition(&set, PartitionStrategy::Centroid, 5, 3, 8).unwrap();
    assert!(clusters.len() >= 1 && clusters.len() <= 5);
    assert_exhaustive(&clusters, 57);
}

#[test]
fn grid_partition_is_exhaustive() {
    let set = set_of(uniform_cube(57, 11));
    let clusters = partition(&set, PartitionStrategy::RegularGrid, 8, 0, 1).unwrap();
    assert!(clusters.len() >= 1);
    assert_exhaustive(&clusters, 57);
}

#[test]
fn empty_input_is_refused() {
    let set = set_of(Vec::new());
    assert_eq!(
        partition(&set, PartitionStrategy::Centroid, 4, 0, 1).unwrap_err(),
        PrecomputeError::EmptyInputError
    );
    assert_eq!(
        partition(&set, PartitionStrategy::RegularGrid, 4, 0, 1).unwrap_err(),
        PrecomputeError::EmptyInputError
    );
}

#[test]
fn coincident_positions_are_degenerate() {
    let mut records = Vec::new();
    for i in 0..6 {
        records.push(splat(123, 456, 789, 30000 + i, 32768));
    }
    let set = set_of(records);
    assert_eq!(
        partition(&set, PartitionStrategy::Centroid, 4, 0, 1).unwrap_err(),
        PrecomputeError::DegenerateGeometryError
    );
    // A single cluster is still fine: nothing needs to be told apart.
    let one = partition(&set, PartitionStrategy::Centroid, 1, 0, 1).unwrap();
    assert_exhaustive(&one, 6);
}

#[test]
fn merge_of_empty_cluster_is_invariant_violation() {
    let set = set_of(uniform_cube(4, 5));
    let empty: Vec<usize> = Vec::new();
    assert_eq!(
        merge_cluster(&set, &empty).unwrap_err(),
        PrecomputeError::EmptyClusterError
    );
}

#[test]
fn merge_conservation_on_identical_records() {
    let r = splat(1000, -2000, 3000, 30000, 32768);
    let records = vec![r.clone(), r.clone(), r.clone(), r.clone(), r.clone()];
    let set = set_of(records);
    let cluster = vec![0usize, 1, 2, 3, 4];
    let g = merge_cluster(&set, &cluster).unwrap();
    assert_eq!(g.position, r.position);
    assert_eq!(g.normal, r.normal);
    assert_eq!(g.f_dc, r.f_dc);
    assert_eq!(g.f_rest, r.f_rest);
    assert_eq!(g.scale, r.scale);
    assert_eq!(g.rot, r.rot);
    // Five stacked partial occluders cover strictly more than one.
    assert!(g.opacity > r.opacity);
    assert!(g.opacity <= ONE);
}

#[test]
fn merge_of_single_record_preserves_opacity() {
    let r = splat(10, 20, 30, 12345, 100);
    let set = set_of(vec![r.clone()]);
    let g = merge_cluster(&set, &vec![0usize]).unwrap();
    assert_eq!(g.opacity, r.opacity);
    assert_eq!(g.position, r.position);
}

#[test]
fn merge_keeps_extreme_opacities() {
    let zero = splat(1, 2, 3, 0, 100);
    let set = set_of(vec![zero.clone(), zero.clone(), zero]);
    let g = merge_cluster(&set, &vec![0usize, 1, 2]).unwrap();
    assert_eq!(g.opacity, 0);
    let full = splat(1, 2, 3, ONE, 100);
    let set = set_of(vec![full.clone(), full]);
    let g = merge_cluster(&set, &vec![0usize, 1]).unwrap();
    assert_eq!(g.opacity, ONE);
}

fn norm4_sq(r: &Rot4) -> i128 {
    let a = r.r0 as i128;
    let b = r.r1 as i128;
    let c = r.r2 as i128;
    let d = r.r3 as i128;
    a * a + b * b + c * c + d * d
}

#[test]
fn merged_rotation_has_unit_norm_within_tolerance() {
    // Varied, roughly unit quaternions, some with the opposite sign.
    let mut records = Vec::new();
    let quats = [
        (60000, 20000, 10000, 5000),
        (-60000, -20000, -10000, -5000),
        (40000, 40000, 25000, 0),
        (65000, 0, 8000, 2000),
    ];
    for (i, q) in quats.iter().enumerate() {
        let mut g = splat(i as i64 * 100, 0, 0, 40000, 32768);
        g.rot = Rot4 { r0: q.0, r1: q.1, r2: q.2, r3: q.3 };
        records.push(g);
    }
    let set = set_of(records);
    let g = merge_cluster(&set, &vec![0usize, 1, 2, 3]).unwrap();
    let one_sq = (ONE as i128) * (ONE as i128);
    let diff = norm4_sq(&g.rot) - one_sq;
    assert!(diff.abs() <= 850000, "norm^2 off by {}", diff);
}

#[test]
fn config_lod_carries_its_fields() {
    let c = ConfigLOD::new(2, 5000, String::from("level2.ply"));
    assert_eq!(c.level, 2);
    assert_eq!(c.distance, 5000);
    assert_eq!(c.file, "level2.ply");
}

#[test]
fn scene_starts_empty() {
    let s = Scene::new(String::from("input.ply"));
    assert_eq!(s.num_levels(), 0);
    assert_eq!(s.origin_file, "input.ply");
}

fn three_level_config(targets: [usize; 3]) -> BuildConfig {
    BuildConfig {
        plans: vec![
            ConfigLOD::new(1, 10 * ONE, String::from("lod1.ply")),
            ConfigLOD::new(2, 25 * ONE, String::from("lod2.ply")),
            ConfigLOD::new(3, 60 * ONE, String::from("lod3.ply")),
        ],
        targets: targets.to_vec(),
        strategy: PartitionStrategy::Centroid,
        seed: 42,
        max_iters: 8,
    }
}

#[test]
fn end_to_end_thousand_splats() {
    let level0 = set_of(uniform_cube(1000, 42));
    let base: Vec<Gaussian> = level0.records.clone();
    let scene = build_lods(level0, three_level_config([1000, 100, 10])).unwrap();
    assert_eq!(scene.num_levels(), 4);
    assert_eq!(scene.levels[0].splats.records.len(), 1000);
    assert_eq!(scene.levels[1].splats.records.len(), 1000);
    assert_eq!(scene.levels[2].splats.records.len(), 100);
    assert_eq!(scene.levels[3].splats.records.len(), 10);
    // Thresholds strictly increase with level, starting at zero.
    assert_eq!(scene.levels[0].distance, 0);
    for i in 1..4 {
        assert!(scene.levels[i].distance > scene.levels[i - 1].distance);
        assert_eq!(scene.levels[i].level as usize, i);
    }
    // Every level's opacity-weighted average color stays within five
    // percent of level 0's.
    let avg = |records: &Vec<Gaussian>| -> i128 {
        let mut num: i128 = 0;
        let mut den: i128 = 0;
        for g in records {
            num += (g.opacity as i128) * (g.f_dc.x as i128);
            den += g.opacity as i128;
        }
        num / den
    };
    let base_avg = avg(&base);
    for i in 1..4 {
        let level_avg = avg(&scene.levels[i].splats.records);
        let diff = (level_avg - base_avg).abs();
        assert!(
            diff * 20 <= base_avg.abs(),
            "level {} color average {} vs {}",
            i,
            level_avg,
            base_avg
        );
    }
}

#[test]
fn record_counts_strictly_decrease_with_decreasing_targets() {
    let level0 = set_of(uniform_cube(300, 9));
    let scene = build_lods(level0, three_level_config([120, 40, 6])).unwrap();
    for i in 1..4 {
        assert!(
            scene.levels[i].splats.records.len() < scene.levels[i - 1].splats.records.len(),
            "level {} must hold fewer records than its predecessor",
            i
        );
    }
}

#[test]
fn empty_level_zero_aborts_the_build() {
    let level0 = set_of(Vec::new());
    let err = build_lods(level0, three_level_config([100, 10, 2])).unwrap_err();
    assert_eq!(err.level, 1);
    assert_eq!(err.kind, PrecomputeError::EmptyInputError);
}

#[test]
fn grid_strategy_builds_a_scene_too() {
    let level0 = set_of(uniform_cube(200, 13));
    let mut cfg = three_level_config([64, 27, 8]);
    cfg.strategy = PartitionStrategy::RegularGrid;
    let scene = build_lods(level0, cfg).unwrap();
    assert_eq!(scene.num_levels(), 4);
    for i in 1..4 {
        assert!(scene.levels[i].splats.records.len() >= 1);
    }
}

#[test]
fn centroid_cluster_count_is_clamped_target() {
    let set = set_of(uniform_cube(30, 21));
    // A target of zero asks for a single cluster.
    let cs = partition(&set, PartitionStrategy::Centroid, 0, 1, 4).unwrap();
    assert_eq!(cs.len(), 1);
    // A target above the record count is clamped to it.
    let cs = partition(&set, PartitionStrategy::Centroid, 100, 1, 4).unwrap();
    assert_eq!(cs.len(), 30);
    // An achievable target is met exactly.
    let cs = partition(&set, PartitionStrategy::Centroid, 7, 1, 4).unwrap();
    assert_eq!(cs.len(), 7);
}

#[test]
fn weighted_position_mean_exact_value() {
    // Weights are opacity plus one: 65536 and 32768 here.
    let a = splat(0, 0, 0, ONE - 1, 0);
    let b = splat(1000, 0, 0, 32767, 0);
    let set = set_of(vec![a, b]);
    let g = merge_cluster(&set, &vec![0usize, 1]).unwrap();
    // (65536 * 0 + 32768 * 1000) / (65536 + 32768), truncated.
    assert_eq!(g.position.x, 333);
}

#[test]
fn merged_scale_covers_the_cluster_spread() {
    let a = splat(0, 0, 0, 30000, 0);
    let b = splat(900, 0, 0, 30000, 0);
    let set = set_of(vec![a, b]);
    let g = merge_cluster(&set, &vec![0usize, 1]).unwrap();
    // Equal weights put the center at 450; each member reaches
    // |position - 450| + 100 = 550 along x.
    assert_eq!(g.position.x, 450);
    assert_eq!(g.scale.x, 550);
    // Along y and z the members coincide with the center.
    assert_eq!(g.scale.y, 100);
    assert_eq!(g.scale.z, 100);
}

#[test]
fn opacity_over_compositing_exact_value() {
    // Two half-opaque occluders cover three quarters.
    let a = splat(0, 0, 0, 32768, 0);
    let b = splat(100, 0, 0, 32768, 0);
    let set = set_of(vec![a, b]);
    let g = merge_cluster(&set, &vec![0usize, 1]).unwrap();
    assert_eq!(g.opacity, 49152);
}

#[test]
fn opposite_quaternions_do_not_cancel() {
    let mut a = splat(0, 0, 0, 30000, 0);
    a.rot = Rot4 { r0: 60000, r1: 20000, r2: 10000, r3: 5000 };
    let mut b = splat(100, 0, 0, 30000, 0);
    b.rot = Rot4 { r0: -60000, r1: -20000, r2: -10000, r3: -5000 };
    let set = set_of(vec![a.clone(), b]);
    let g = merge_cluster(&set, &vec![0usize, 1]).unwrap();
    // The sign-resolved mean points the same way as the first input.
    let dot = (g.rot.r0 as i128) * (a.rot.r0 as i128)
        + (g.rot.r1 as i128) * (a.rot.r1 as i128)
        + (g.rot.r2 as i128) * (a.rot.r2 as i128)
        + (g.rot.r3 as i128) * (a.rot.r3 as i128);
    assert!(dot > 0);
    let one_sq = (ONE as i128) * (ONE as i128);
    assert!((norm4_sq(&g.rot) - one_sq).abs() <= 850000);
}

#[test]
fn normal_tolerance_flagging() {
    let good = set_of(vec![splat(0, 0, 0, 100, 0), splat(5, 5, 5, 200, 0)]);
    assert!(normals_within_tolerance(&good));
    let mut off = splat(9, 9, 9, 100, 0);
    off.normal = Vec3 { x: ONE / 2, y: 0, z: 0 };
    let bad = set_of(vec![splat(0, 0, 0, 100, 0), off]);
    assert!(!normals_within_tolerance(&bad));
}

#[test]
fn coincident_level_zero_fails_at_level_one() {
    let mut records = Vec::new();
    for i in 0..8 {
        records.push(splat(7, 7, 7, 20000 + i, 32768));
    }
    let err = build_lods(set_of(records), three_level_config([4, 2, 1])).unwrap_err();
    assert_eq!(err.level, 1);
    assert_eq!(err.kind, PrecomputeError::DegenerateGeometryError);
}

#[test]
fn single_cluster_targets_always_succeed() {
    // Even coincident positions build fine when every level asks for one
    // cluster: nothing needs to be told apart.
    let mut records = Vec::new();
    for i in 0..8 {
        records.push(splat(7, 7, 7, 20000 + i, 32768));
    }
    let scene = build_lods(set_of(records), three_level_config([1, 1, 1])).unwrap();
    assert_eq!(scene.num_levels(), 4);
    for i in 1..4 {
        assert_eq!(scene.levels[i].splats.records.len(), 1);
    }
}

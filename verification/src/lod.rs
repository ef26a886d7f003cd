use vstd::prelude::*;
use crate::gaussian::{Gaussian, SplatSet};
use crate::merge::{merge_cluster, norm3_ok, quat_ok};
use crate::partition::{all_coincide, eff_cluster_count, members_below, partition,
    PartitionStrategy};
use crate::scene::{LodLevel, Scene};
use crate::PrecomputeError;

verus! {

/// Per-level build entry: the level index it will produce, the distance
/// threshold it applies from, and the file the level will be written to.
#[derive(Debug)]
pub struct ConfigLOD {
    pub level: u8,
    pub distance: i64,
    pub file: String,
}

impl ConfigLOD {
    pub fn new(level: u8, distance: i64, file: String) -> (c: ConfigLOD)
        ensures
            c.level == level,
            c.distance == distance,
            c.file@ == file@,
    {
        ConfigLOD { level, distance, file }
    }
}

/// The static configuration of one build run: one entry and one target
/// cluster count per derived level, the partition strategy, the seed for
/// centroid clustering, and the iteration budget.
#[derive(Debug)]
pub struct BuildConfig {
    pub plans: Vec<ConfigLOD>,
    pub targets: Vec<usize>,
    pub strategy: PartitionStrategy,
    pub seed: u64,
    pub max_iters: usize,
}

impl BuildConfig {
    /// Entries are numbered consecutively from level 1, thresholds are
    /// positive and strictly increasing, and one target is given per
    /// level.
    pub open spec fn wf(self) -> bool {
        &&& self.plans@.len() == self.targets@.len()
        &&& self.plans@.len() <= 255
        &&& forall|i: int|
            0 <= i < self.plans@.len() ==> (#[trigger] self.plans@[i]).distance > 0
        &&& forall|i: int, j: int|
            0 <= i < j < self.plans@.len() ==> self.plans@[i].distance < self.plans@[j].distance
        &&& forall|i: int|
            0 <= i < self.plans@.len() ==> (#[trigger] self.plans@[i]).level as int == i + 1
    }
}

/// A failure while deriving one level, carrying the offending level index.
#[derive(Clone, Copy, Debug, PartialEq, Eq, Structural)]
pub struct LevelError {
    pub level: usize,
    pub kind: PrecomputeError,
}

/// Derive one level: partition the given set and merge every cluster
/// into a single record. The partitioner's error conditions pass through
/// unchanged; a returned level is never empty, its records are
/// well-formed, their rotations have unit norm within tolerance, and the
/// normal tolerance of the inputs carries over.
fn derive_level(
    prev: &SplatSet,
    strategy: PartitionStrategy,
    target: usize,
    seed: u64,
    max_iters: usize,
) -> (r: Result<Vec<Gaussian>, PrecomputeError>)
    requires
        prev.wf(),
        max_iters >= 1,
        forall|q: int|
            0 <= q < prev.records@.len() ==> norm3_ok((#[trigger] prev.records@[q]).normal),
    ensures
        prev.spec_len() == 0 ==> r == Result::<Vec<Gaussian>, PrecomputeError>::Err(
            PrecomputeError::EmptyInputError,
        ),
        prev.spec_len() > 0 && target > 1 && all_coincide(*prev) ==> r == Result::<
            Vec<Gaussian>,
            PrecomputeError,
        >::Err(PrecomputeError::DegenerateGeometryError),
        prev.spec_len() > 0 && !(target > 1 && all_coincide(*prev)) ==> r is Ok,
        r matches Ok(recs) ==> {
            &&& recs@.len() >= 1
            &&& (strategy == PartitionStrategy::Centroid ==> recs@.len() == eff_cluster_count(
                target,
                prev.spec_len(),
            ))
            &&& forall|t: int| 0 <= t < recs@.len() ==> (#[trigger] recs@[t]).wf()
            &&& forall|t: int| 0 <= t < recs@.len() ==> quat_ok((#[trigger] recs@[t]).rot)
            &&& forall|t: int| 0 <= t < recs@.len() ==> norm3_ok((#[trigger] recs@[t]).normal)
        },
{
    let clusters = match partition(prev, strategy, target, seed, max_iters) {
        Ok(cs) => cs,
        Err(e) => {
            return Err(e);
        },
    };
    let mut recs: Vec<Gaussian> = Vec::new();
    let mut c: usize = 0;
    while c < clusters.len()
        invariant
            c <= clusters@.len(),
            prev.wf(),
            forall|q: int|
                0 <= q < prev.records@.len() ==> norm3_ok((#[trigger] prev.records@[q]).normal),
            members_below(clusters@, prev.spec_len()),
            forall|a: int| 0 <= a < clusters@.len() ==> (#[trigger] clusters@[a])@.len() > 0,
            recs@.len() == c,
            forall|t: int| 0 <= t < c ==> (#[trigger] recs@[t]).wf(),
            forall|t: int| 0 <= t < c ==> quat_ok((#[trigger] recs@[t]).rot),
            forall|t: int| 0 <= t < c ==> norm3_ok((#[trigger] recs@[t]).normal),
        decreases clusters@.len() - c,
    {
        let cluster = &clusters[c];
        proof {
            assert(forall|t: int|
                0 <= t < cluster@.len() ==> (#[trigger] cluster@[t]) < prev.spec_len());
            assert forall|t: int|
                0 <= t < crate::merge::chosen(*prev, cluster@).len() implies norm3_ok(
                (#[trigger] crate::merge::chosen(*prev, cluster@)[t]).normal,
            ) by {
                assert(crate::merge::chosen(*prev, cluster@)[t] == prev.records@[cluster@[t] as int]);
            }
        }
        match merge_cluster(prev, cluster) {
            Ok(g) => recs.push(g),
            Err(_) => {
                proof {
                    assert(cluster@.len() > 0);
                    assert(false);
                }
                return Err(PrecomputeError::EmptyClusterError);
            },
        }
        c += 1;
    }
    Ok(recs)
}

/// Derive the full hierarchy from the level-0 splat set. Each level is
/// built by partitioning its immediate predecessor (the chained policy:
/// approximation error compounds along the chain, but every level only
/// simplifies the one before it) and merging every cluster into one
/// record. A failure aborts the whole run: no partial scene is returned.
/// The whole pipeline is a pure function of its two arguments — nothing
/// in it reads randomness, time or ambient state — so equal inputs give
/// equal scenes; the contract itself characterizes the derived records
/// relationally (through each level's partition) rather than pinning the
/// clustering to a closed form.
///
/// A degenerate-geometry failure at level 1 happens exactly when the
/// input's positions all coincide and more than one cluster was asked
/// for; at a deeper level it likewise requires a non-trivial target
/// there, and can only arise from the partitioned intermediate set
/// itself degenerating to a point. With targets of at most one cluster
/// per level, success is owed on every non-empty input.
#[verifier::rlimit(60)]
pub fn build_lods(level0: SplatSet, cfg: BuildConfig) -> (r: Result<Scene, LevelError>)
    requires
        level0.wf(),
        forall|i: int|
            0 <= i < level0.records@.len() ==> norm3_ok((#[trigger] level0.records@[i]).normal),
        cfg.wf(),
        cfg.max_iters >= 1,
    ensures
        level0.spec_len() == 0 && cfg.plans@.len() >= 1 ==> r == Result::<
            Scene,
            LevelError,
        >::Err(LevelError { level: 1, kind: PrecomputeError::EmptyInputError }),
        r matches Err(e) ==> (e.kind == PrecomputeError::EmptyInputError ==> level0.spec_len()
            == 0 && e.level == 1),
        level0.spec_len() > 0 ==> (r is Ok || (r matches Err(e) && e.kind
            == PrecomputeError::DegenerateGeometryError)),
        cfg.plans@.len() >= 1 && level0.spec_len() > 0 ==> ((r == Result::<
            Scene,
            LevelError,
        >::Err(LevelError { level: 1, kind: PrecomputeError::DegenerateGeometryError })) <==> (
        cfg.targets@[0] > 1 && all_coincide(level0))),
        r matches Err(e) ==> (e.level >= 2 ==> e.kind
            == PrecomputeError::DegenerateGeometryError && cfg.targets@[e.level - 1] > 1),
        level0.spec_len() > 0 && (forall|t: int|
            0 <= t < cfg.targets@.len() ==> #[trigger] cfg.targets@[t] <= 1) ==> r is Ok,
        r matches Err(e) ==> 1 <= e.level <= cfg.plans@.len(),
        r matches Ok(sc) ==> {
            &&& sc.wf()
            &&& sc.levels@.len() == cfg.plans@.len() + 1
            &&& sc.origin_file@ == level0.source@
            &&& sc.levels@[0].splats == level0
            &&& sc.levels@[0].distance == 0
            &&& forall|i: int|
                1 <= i < sc.levels@.len() ==> (#[trigger] sc.levels@[i]).distance
                    == cfg.plans@[i - 1].distance
            &&& forall|i: int|
                1 <= i < sc.levels@.len() ==> (#[trigger] sc.levels@[i]).splats.spec_len() >= 1
            &&& (cfg.strategy == PartitionStrategy::Centroid ==> forall|i: int|
                1 <= i < sc.levels@.len() ==> (#[trigger] sc.levels@[i]).splats.spec_len()
                    == eff_cluster_count(
                    cfg.targets@[i - 1],
                    sc.levels@[i - 1].splats.spec_len(),
                ))
            &&& forall|i: int, t: int|
                1 <= i < sc.levels@.len() && 0 <= t < sc.levels@[i].splats.records@.len()
                    ==> quat_ok((#[trigger] sc.levels@[i].splats.records@[t]).rot)
            &&& forall|i: int, t: int|
                0 <= i < sc.levels@.len() && 0 <= t < sc.levels@[i].splats.records@.len()
                    ==> norm3_ok((#[trigger] sc.levels@[i].splats.records@[t]).normal)
        },
{
    let origin = level0.source.clone();
    let n_levels = cfg.plans.len();
    let mut plans = cfg.plans;
    let mut targets = cfg.targets;
    let ghost plans0 = plans@;
    let ghost targets0 = targets@;
    let mut scene = Scene::new(origin);
    scene.push_level(LodLevel { level: 0, distance: 0, splats: level0 });
    let mut i: usize = 0;
    while i < n_levels
        invariant
            i <= n_levels,
            n_levels == plans0.len(),
            plans0 == cfg.plans@,
            targets0 == cfg.targets@,
            cfg.max_iters >= 1,
            level0.spec_len() == 0 && n_levels >= 1 ==> i == 0,
            plans0.len() == targets0.len(),
            plans0.len() <= 255,
            plans@ =~= plans0.skip(i as int),
            targets@ =~= targets0.skip(i as int),
            forall|t: int| 0 <= t < plans0.len() ==> (#[trigger] plans0[t]).distance > 0,
            forall|a: int, b: int|
                0 <= a < b < plans0.len() ==> plans0[a].distance < plans0[b].distance,
            forall|t: int| 0 <= t < plans0.len() ==> (#[trigger] plans0[t]).level as int == t + 1,
            scene.wf(),
            scene.levels@.len() == i + 1,
            scene.origin_file@ == level0.source@,
            scene.levels@[0].splats == level0,
            scene.levels@[0].distance == 0,
            forall|t: int|
                1 <= t < scene.levels@.len() ==> (#[trigger] scene.levels@[t]).distance
                    == plans0[t - 1].distance,
            forall|t: int|
                1 <= t < scene.levels@.len() ==> (#[trigger] scene.levels@[t]).splats.spec_len()
                    >= 1,
            i >= 1 ==> scene.levels@[i as int].splats.spec_len() >= 1,
            i >= 1 ==> !(targets0[0] > 1 && all_coincide(level0)),
            forall|t: int, q: int|
                0 <= t < scene.levels@.len() && 0 <= q < scene.levels@[t].splats.records@.len()
                    ==> norm3_ok((#[trigger] scene.levels@[t].splats.records@[q]).normal),
            level0.spec_len() > 0 ==> scene.levels@[i as int].splats.spec_len() >= 1,
            cfg.strategy == PartitionStrategy::Centroid ==> forall|t: int|
                1 <= t < scene.levels@.len() ==> (#[trigger] scene.levels@[t]).splats.spec_len()
                    == eff_cluster_count(
                    targets0[t - 1],
                    scene.levels@[t - 1].splats.spec_len(),
                ),
            forall|t: int, q: int|
                1 <= t < scene.levels@.len() && 0 <= q < scene.levels@[t].splats.records@.len()
                    ==> quat_ok((#[trigger] scene.levels@[t].splats.records@[q]).rot),
        decreases n_levels - i,
    {
        let plan = plans.remove(0);
        let target = targets.remove(0);
        proof {
            assert(plans0.skip(i as int)[0] == plans0[i as int]);
            assert(targets0.skip(i as int)[0] == targets0[i as int]);
            assert(plans0.skip(i as int).remove(0) =~= plans0.skip(i as int + 1));
            assert(targets0.skip(i as int).remove(0) =~= targets0.skip(i as int + 1));
        }
        let prev = &scene.levels[i].splats;
        let recs = match derive_level(prev, cfg.strategy, target, cfg.seed, cfg.max_iters) {
            Ok(rs) => rs,
            Err(e) => {
                return Err(LevelError { level: i + 1, kind: e });
            },
        };
        let new_set = SplatSet { records: recs, source: plan.file };
        scene.push_level(LodLevel { level: plan.level, distance: plan.distance, splats: new_set });
        i += 1;
    }
    Ok(scene)
}

/// Monotonic simplification: along a built hierarchy whose target cluster
/// counts decrease below each predecessor's record count, every level
/// holds strictly fewer records than the one before it.
pub proof fn lemma_monotonic_simplification(sc: Scene, targets: Seq<usize>)
    requires
        sc.levels@.len() == targets.len() + 1,
        forall|i: int|
            1 <= i < sc.levels@.len() ==> (#[trigger] sc.levels@[i]).splats.spec_len()
                <= targets[i - 1],
        forall|i: int|
            1 <= i < sc.levels@.len() ==> (targets[i - 1] as nat) < (
            #[trigger] sc.levels@[i - 1]).splats.spec_len(),
    ensures
        forall|i: int|
            1 <= i < sc.levels@.len() ==> (#[trigger] sc.levels@[i]).splats.spec_len()
                < sc.levels@[i - 1].splats.spec_len(),
{
}

/// Under a decreasing cluster-count policy the chain thins level by
/// level: with positive, strictly decreasing targets whose first entry
/// lies below the level-0 record count, every built level holds exactly
/// its target's worth of records, strictly fewer than its predecessor.
/// The count hypothesis is what `build_lods` ensures for the centroid
/// strategy.
#[verifier::rlimit(50)]
pub proof fn lemma_decreasing_targets_thin_the_chain(sc: Scene, targets: Seq<usize>, i: int)
    requires
        sc.levels@.len() == targets.len() + 1,
        forall|t: int|
            1 <= t < sc.levels@.len() ==> (#[trigger] sc.levels@[t]).splats.spec_len()
                == eff_cluster_count(targets[t - 1], sc.levels@[t - 1].splats.spec_len()),
        forall|t: int| 0 <= t < targets.len() ==> (#[trigger] targets[t]) >= 1,
        forall|t: int| 0 <= t < targets.len() - 1 ==> (#[trigger] targets[t + 1]) < targets[t],
        targets.len() >= 1 ==> (targets[0] as nat) < sc.levels@[0].splats.spec_len(),
        1 <= i < sc.levels@.len(),
    ensures
        sc.levels@[i].splats.spec_len() == targets[i - 1] as nat,
        sc.levels@[i].splats.spec_len() < sc.levels@[i - 1].splats.spec_len(),
    decreases i,
{
    assert(sc.levels@[i].splats.spec_len() == eff_cluster_count(
        targets[i - 1],
        sc.levels@[i - 1].splats.spec_len(),
    ));
    assert(targets[i - 1] >= 1);
    if i == 1 {
        assert((targets[0] as nat) < sc.levels@[0].splats.spec_len());
    } else {
        lemma_decreasing_targets_thin_the_chain(sc, targets, i - 1);
        assert(targets[(i - 2) + 1] < targets[i - 2]);
        assert(sc.levels@[i - 1].splats.spec_len() == targets[i - 2] as nat);
    }
}

} // verus!

use vstd::prelude::*;
use crate::gaussian::SplatSet;

verus! {

/// One level of the hierarchy: its index, the viewing distance beyond
/// which it is meant to be rendered (level 0 carries distance 0 and is
/// used at all closer distances), and its splats.
#[derive(Debug)]
pub struct LodLevel {
    pub level: u8,
    pub distance: i64,
    pub splats: SplatSet,
}

/// The hierarchy manifest: the identity of the original source file and
/// the ordered levels, appended once each during a build and never
/// removed. The distance thresholds strictly increase with the level
/// index.
#[derive(Debug)]
pub struct Scene {
    pub origin_file: String,
    pub levels: Vec<LodLevel>,
}

impl Scene {
    /// Levels are numbered consecutively from zero; level 0 applies from
    /// distance 0; thresholds strictly increase with level; every level's
    /// records are well-formed.
    pub open spec fn wf(self) -> bool {
        &&& forall|i: int|
            0 <= i < self.levels@.len() ==> (#[trigger] self.levels@[i]).level as int == i
        &&& forall|i: int, j: int|
            0 <= i < j < self.levels@.len() ==> self.levels@[i].distance
                < self.levels@[j].distance
        &&& (self.levels@.len() > 0 ==> self.levels@[0].distance == 0)
        &&& forall|i: int|
            0 <= i < self.levels@.len() ==> (#[trigger] self.levels@[i]).splats.wf()
    }

    /// A fresh, empty scene for one precompute run.
    pub fn new(origin_file: String) -> (s: Scene)
        ensures
            s.levels@.len() == 0,
            s.origin_file@ == origin_file@,
            s.wf(),
    {
        Scene { origin_file, levels: Vec::new() }
    }

    pub fn num_levels(&self) -> (n: usize)
        ensures
            n == self.levels@.len(),
    {
        self.levels.len()
    }

    /// Append the next level. Its index must continue the chain and its
    /// threshold must lie strictly above the previous one; level 0 must
    /// carry threshold 0.
    pub fn push_level(&mut self, lvl: LodLevel)
        requires
            old(self).wf(),
            old(self).levels@.len() < 256,
            lvl.level as int == old(self).levels@.len(),
            lvl.splats.wf(),
            old(self).levels@.len() == 0 ==> lvl.distance == 0,
            old(self).levels@.len() > 0 ==> lvl.distance > old(self).levels@.last().distance,
        ensures
            final(self).wf(),
            final(self).levels@ == old(self).levels@.push(lvl),
            final(self).origin_file == old(self).origin_file,
    {
        proof {
            let pre = self.levels@;
            assert forall|i: int, j: int| 0 <= i < j < pre.len() + 1 implies pre.push(
                lvl,
            )[i].distance < pre.push(lvl)[j].distance by {
                if j < pre.len() {
                } else {
                    if i < pre.len() - 1 {
                        assert(pre[i].distance < pre[pre.len() - 1].distance);
                    }
                }
            }
        }
        self.levels.push(lvl);
    }
}

} // verus!

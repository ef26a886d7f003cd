use vstd::prelude::*;
use crate::{C_MAX, ONE, PrecomputeError};

verus! {

/// A three-component fixed-point vector.
#[derive(Clone, Copy, Debug, PartialEq, Eq, Structural)]
pub struct Vec3 {
    pub x: i64,
    pub y: i64,
    pub z: i64,
}

/// A quaternion, stored in the attribute order `rot_0 .. rot_3`.
#[derive(Clone, Copy, Debug, PartialEq, Eq, Structural)]
pub struct Rot4 {
    pub r0: i64,
    pub r1: i64,
    pub r2: i64,
    pub r3: i64,
}

/// One splat: an immutable point primitive. `f_rest` holds the 45
/// higher-order spherical-harmonic coefficients, channel-major: the 15
/// coefficients of the first color channel, then the 15 of the second, then
/// the 15 of the third. `opacity` is the rendered alpha in fixed point,
/// between 0 and `ONE`. `scale` holds linear (not log-space) per-axis
/// extents. `rot` need not be normalized on input; every record produced by
/// the merger carries a quaternion of unit norm within tolerance.
#[derive(Clone, Debug)]
pub struct Gaussian {
    pub position: Vec3,
    pub normal: Vec3,
    pub f_dc: Vec3,
    pub f_rest: Vec<i64>,
    pub opacity: i64,
    pub scale: Vec3,
    pub rot: Rot4,
}

pub open spec fn v3(v: Vec3, j: int) -> int {
    if j == 0 {
        v.x as int
    } else if j == 1 {
        v.y as int
    } else {
        v.z as int
    }
}

pub open spec fn r4(r: Rot4, j: int) -> int {
    if j == 0 {
        r.r0 as int
    } else if j == 1 {
        r.r1 as int
    } else if j == 2 {
        r.r2 as int
    } else {
        r.r3 as int
    }
}

/// The attributes of a record as one flat map, in the persistent order:
/// `x, y, z, nx, ny, nz, f_dc_0..2, f_rest_0..44, opacity, scale_0..2,
/// rot_0..3`.
pub open spec fn attr(g: Gaussian, j: int) -> int {
    if 0 <= j < 3 {
        v3(g.position, j)
    } else if 3 <= j < 6 {
        v3(g.normal, j - 3)
    } else if 6 <= j < 9 {
        v3(g.f_dc, j - 6)
    } else if 9 <= j < 54 {
        g.f_rest@[j - 9] as int
    } else if j == 54 {
        g.opacity as int
    } else if 55 <= j < 58 {
        v3(g.scale, j - 55)
    } else {
        r4(g.rot, j - 58)
    }
}

/// All three components are within the fixed-point range.
pub open spec fn bounded3(v: Vec3) -> bool {
    -C_MAX <= v.x <= C_MAX && -C_MAX <= v.y <= C_MAX && -C_MAX <= v.z <= C_MAX
}

/// All four components are within the fixed-point range.
pub open spec fn bounded4(r: Rot4) -> bool {
    &&& -C_MAX <= r.r0 <= C_MAX
    &&& -C_MAX <= r.r1 <= C_MAX
    &&& -C_MAX <= r.r2 <= C_MAX
    &&& -C_MAX <= r.r3 <= C_MAX
}

impl Gaussian {
    /// Well-formedness: the coefficient vector is complete, every component
    /// is within the fixed-point range, and the opacity is a valid alpha.
    pub open spec fn wf(self) -> bool {
        &&& self.f_rest@.len() == 45
        &&& forall|j: int| 0 <= j < 62 ==> -C_MAX <= #[trigger] attr(self, j) <= C_MAX
        &&& 0 <= self.opacity <= ONE
    }

    /// The attribute bounds of a well-formed record, spelled out per field.
    pub proof fn lemma_wf_bounds(self)
        requires
            self.wf(),
        ensures
            bounded3(self.position),
            bounded3(self.normal),
            bounded3(self.f_dc),
            bounded3(self.scale),
            bounded4(self.rot),
            0 <= self.opacity <= ONE,
            self.f_rest@.len() == 45,
            forall|j: int| 0 <= j < 45 ==> -C_MAX <= #[trigger] self.f_rest@[j] <= C_MAX,
    {
        assert(attr(self, 0) == self.position.x as int);
        assert(attr(self, 1) == self.position.y as int);
        assert(attr(self, 2) == self.position.z as int);
        assert(attr(self, 3) == self.normal.x as int);
        assert(attr(self, 4) == self.normal.y as int);
        assert(attr(self, 5) == self.normal.z as int);
        assert(attr(self, 6) == self.f_dc.x as int);
        assert(attr(self, 7) == self.f_dc.y as int);
        assert(attr(self, 8) == self.f_dc.z as int);
        assert(attr(self, 55) == self.scale.x as int);
        assert(attr(self, 56) == self.scale.y as int);
        assert(attr(self, 57) == self.scale.z as int);
        assert(attr(self, 58) == self.rot.r0 as int);
        assert(attr(self, 59) == self.rot.r1 as int);
        assert(attr(self, 60) == self.rot.r2 as int);
        assert(attr(self, 61) == self.rot.r3 as int);
        assert forall|j: int| 0 <= j < 45 implies -C_MAX <= #[trigger] self.f_rest@[j]
            <= C_MAX by {
            assert(attr(self, 9 + j) == self.f_rest@[j] as int);
        }
    }
}

/// Flatten a record to its 62 attributes, in the persistent order.
pub fn to_attributes(g: &Gaussian) -> (r: Vec<i64>)
    requires
        g.f_rest@.len() == 45,
    ensures
        r@.len() == 62,
        forall|j: int| 0 <= j < 62 ==> #[trigger] r@[j] as int == attr(*g, j),
{
    let mut r: Vec<i64> = Vec::new();
    r.push(g.position.x);
    r.push(g.position.y);
    r.push(g.position.z);
    r.push(g.normal.x);
    r.push(g.normal.y);
    r.push(g.normal.z);
    r.push(g.f_dc.x);
    r.push(g.f_dc.y);
    r.push(g.f_dc.z);
    let mut j: usize = 0;
    while j < 45
        invariant
            r@.len() == 9 + j,
            j <= 45,
            g.f_rest@.len() == 45,
            forall|i: int| 0 <= i < 9 + j ==> #[trigger] r@[i] as int == attr(*g, i),
        decreases 45 - j,
    {
        r.push(g.f_rest[j]);
        j += 1;
    }
    r.push(g.opacity);
    r.push(g.scale.x);
    r.push(g.scale.y);
    r.push(g.scale.z);
    r.push(g.rot.r0);
    r.push(g.rot.r1);
    r.push(g.rot.r2);
    r.push(g.rot.r3);
    r
}

/// The attribute rows that `from_attributes` accepts.
pub open spec fn valid_row(v: Seq<i64>) -> bool {
    &&& v.len() == 62
    &&& forall|j: int| 0 <= j < 62 ==> -C_MAX <= #[trigger] v[j] <= C_MAX
    &&& 0 <= v[54] <= ONE
}

/// Rebuild a record from its 62 attributes. A row of the wrong width is a
/// missing attribute; one with a component outside the fixed-point range, or
/// an opacity outside `[0, ONE]`, is out of range.
pub fn from_attributes(v: &Vec<i64>) -> (r: Result<Gaussian, PrecomputeError>)
    ensures
        r is Ok <==> valid_row(v@),
        r is Err && v@.len() != 62 ==> r == Result::<Gaussian, PrecomputeError>::Err(
            PrecomputeError::MissingAttributeError,
        ),
        r is Err && v@.len() == 62 ==> r == Result::<Gaussian, PrecomputeError>::Err(
            PrecomputeError::ValueOutOfRangeError,
        ),
        r matches Ok(g) ==> g.wf() && g.f_rest@.len() == 45 && forall|j: int|
            0 <= j < 62 ==> #[trigger] attr(g, j) == v@[j] as int,
{
    if v.len() != 62 {
        return Err(PrecomputeError::MissingAttributeError);
    }
    let mut j: usize = 0;
    while j < 62
        invariant
            j <= 62,
            v@.len() == 62,
            forall|i: int| 0 <= i < j ==> -C_MAX <= #[trigger] v@[i] <= C_MAX,
        decreases 62 - j,
    {
        if v[j] < -C_MAX || v[j] > C_MAX {
            return Err(PrecomputeError::ValueOutOfRangeError);
        }
        j += 1;
    }
    if v[54] < 0 || v[54] > ONE {
        return Err(PrecomputeError::ValueOutOfRangeError);
    }
    let mut f_rest: Vec<i64> = Vec::new();
    let mut k: usize = 0;
    while k < 45
        invariant
            k <= 45,
            v@.len() == 62,
            f_rest@.len() == k,
            forall|i: int| 0 <= i < k ==> #[trigger] f_rest@[i] == v@[9 + i],
        decreases 45 - k,
    {
        f_rest.push(v[9 + k]);
        k += 1;
    }
    let g = Gaussian {
        position: Vec3 { x: v[0], y: v[1], z: v[2] },
        normal: Vec3 { x: v[3], y: v[4], z: v[5] },
        f_dc: Vec3 { x: v[6], y: v[7], z: v[8] },
        f_rest,
        opacity: v[54],
        scale: Vec3 { x: v[55], y: v[56], z: v[57] },
        rot: Rot4 { r0: v[58], r1: v[59], r2: v[60], r3: v[61] },
    };
    Ok(g)
}

/// The attributes of a well-formed record always form a valid row, so a
/// persisted record can always be read back: flattening and rebuilding is
/// the identity on the attribute level.
pub proof fn lemma_encoded_row_valid(g: Gaussian, v: Seq<i64>)
    requires
        g.wf(),
        v.len() == 62,
        forall|j: int| 0 <= j < 62 ==> #[trigger] v[j] as int == attr(g, j),
    ensures
        valid_row(v),
{
    assert(forall|j: int| 0 <= j < 62 ==> -C_MAX <= #[trigger] v[j] <= C_MAX);
    assert(v[54] == g.opacity);
}

/// Round trip at the set level: the rows that `to_rows` yields for a
/// well-formed set are all valid, so `from_rows` accepts them and
/// reproduces every attribute of every record bit for bit.
pub proof fn lemma_rows_round_trip(s: SplatSet, rows: Seq<Seq<i64>>)
    requires
        s.wf(),
        rows.len() == s.records@.len(),
        forall|i: int|
            0 <= i < rows.len() ==> (#[trigger] rows[i]).len() == 62 && forall|j: int|
                0 <= j < 62 ==> #[trigger] rows[i][j] as int == attr(s.records@[i], j),
    ensures
        forall|i: int| 0 <= i < rows.len() ==> valid_row(#[trigger] rows[i]),
{
    assert forall|i: int| 0 <= i < rows.len() implies valid_row(#[trigger] rows[i]) by {
        assert(s.records@[i].wf());
        lemma_encoded_row_valid(s.records@[i], rows[i]);
    }
}

/// An ordered collection of splats together with the identity of the file
/// it came from. Order carries no meaning but is preserved, so that an
/// unchanged set written back reads back identically.
#[derive(Debug)]
pub struct SplatSet {
    pub records: Vec<Gaussian>,
    pub source: String,
}

impl SplatSet {
    pub open spec fn wf(self) -> bool {
        forall|i: int| 0 <= i < self.records@.len() ==> (#[trigger] self.records@[i]).wf()
    }

    pub open spec fn spec_len(self) -> nat {
        self.records@.len()
    }

    pub fn new(source: String) -> (s: SplatSet)
        ensures
            s.records@.len() == 0,
            s.source@ == source@,
            s.wf(),
    {
        SplatSet { records: Vec::new(), source }
    }

    pub fn len(&self) -> (n: usize)
        ensures
            n == self.spec_len(),
    {
        self.records.len()
    }

    /// Flatten every record, in order, to its attribute row.
    pub fn to_rows(&self) -> (rows: Vec<Vec<i64>>)
        requires
            self.wf(),
        ensures
            rows@.len() == self.records@.len(),
            forall|i: int|
                0 <= i < rows@.len() ==> (#[trigger] rows@[i])@.len() == 62 && forall|j: int|
                    0 <= j < 62 ==> #[trigger] rows@[i]@[j] as int == attr(self.records@[i], j),
    {
        let mut rows: Vec<Vec<i64>> = Vec::new();
        let mut i: usize = 0;
        while i < self.records.len()
            invariant
                i <= self.records@.len(),
                self.wf(),
                rows@.len() == i,
                forall|k: int|
                    0 <= k < i ==> (#[trigger] rows@[k])@.len() == 62 && forall|j: int|
                        0 <= j < 62 ==> #[trigger] rows@[k]@[j] as int == attr(self.records@[k], j),
            decreases self.records@.len() - i,
        {
            rows.push(to_attributes(&self.records[i]));
            i += 1;
        }
        rows
    }

    /// Rebuild a set from attribute rows; the first bad row's error is
    /// surfaced and nothing is built.
    pub fn from_rows(source: String, rows: &Vec<Vec<i64>>) -> (r: Result<
        SplatSet,
        PrecomputeError,
    >)
        ensures
            r is Ok <==> forall|i: int| 0 <= i < rows@.len() ==> valid_row(#[trigger] rows@[i]@),
            r matches Ok(s) ==> {
                &&& s.wf()
                &&& s.source@ == source@
                &&& s.records@.len() == rows@.len()
                &&& forall|i: int, j: int|
                    0 <= i < rows@.len() && 0 <= j < 62 ==> #[trigger] attr(s.records@[i], j)
                        == rows@[i]@[j] as int
            },
    {
        let mut records: Vec<Gaussian> = Vec::new();
        let mut i: usize = 0;
        while i < rows.len()
            invariant
                i <= rows@.len(),
                records@.len() == i,
                forall|k: int| 0 <= k < i ==> valid_row(#[trigger] rows@[k]@),
                forall|k: int| 0 <= k < i ==> (#[trigger] records@[k]).wf(),
                forall|k: int, j: int|
                    0 <= k < i && 0 <= j < 62 ==> #[trigger] attr(records@[k], j)
                        == rows@[k]@[j] as int,
            decreases rows@.len() - i,
        {
            match from_attributes(&rows[i]) {
                Ok(g) => records.push(g),
                Err(e) => {
                    return Err(e);
                },
            }
            i += 1;
        }
        Ok(SplatSet { records, source })
    }
}

} // verus!

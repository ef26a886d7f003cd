use precompute::gaussian::{from_attributes, to_attributes, Gaussian, Rot4, SplatSet, Vec3};
use precompute::{PrecomputeError, C_MAX, ONE};

fn sample_record(seed: i64) -> Gaussian {
    let mut f_rest = Vec::new();
    for i in 0..45i64 {
        f_rest.push((seed * 31 + i * 7 - 120) % 10_000);
    }
    Gaussian {
        position: Vec3 { x: seed * 3 + 1, y: -seed * 5, z: seed * 11 - 4 },
        normal: Vec3 { x: ONE, y: 0, z: 0 },
        f_dc: Vec3 { x: 32768 + seed, y: 32768 - seed, z: 30000 },
        f_rest,
        opacity: (seed.rem_euclid(ONE)).min(ONE),
        scale: Vec3 { x: 500, y: 600, z: 700 },
        rot: Rot4 { r0: ONE, r1: 0, r2: 0, r3: 0 },
    }
}

#[test]
fn attributes_round_trip_bit_exact() {
    let g = sample_record(17);
    let row = to_attributes(&g);
    assert_eq!(row.len(), 62);
    let g2 = from_attributes(&row).expect("a persisted record must reload");
    let row2 = to_attributes(&g2);
    assert_eq!(row, row2);
    assert_eq!(g2.position, g.position);
    assert_eq!(g2.normal, g.normal);
    assert_eq!(g2.f_dc, g.f_dc);
    assert_eq!(g2.f_rest, g.f_rest);
    assert_eq!(g2.opacity, g.opacity);
    assert_eq!(g2.scale, g.scale);
    assert_eq!(g2.rot, g.rot);
}

#[test]
fn attribute_order_is_documented_layout() {
    let g = sample_record(3);
    let row = to_attributes(&g);
    assert_eq!(row[0], g.position.x);
    assert_eq!(row[1], g.position.y);
    assert_eq!(row[2], g.position.z);
    assert_eq!(row[3], g.normal.x);
    assert_eq!(row[5], g.normal.z);
    assert_eq!(row[6], g.f_dc.x);
    assert_eq!(row[9], g.f_rest[0]);
    assert_eq!(row[53], g.f_rest[44]);
    assert_eq!(row[54], g.opacity);
    assert_eq!(row[55], g.scale.x);
    assert_eq!(row[57], g.scale.z);
    assert_eq!(row[58], g.rot.r0);
    assert_eq!(row[61], g.rot.r3);
}

#[test]
fn short_row_is_missing_attribute() {
    let row = vec![0i64; 61];
    assert_eq!(
        from_attributes(&row).unwrap_err(),
        PrecomputeError::MissingAttributeError
    );
    let row = vec![0i64; 63];
    assert_eq!(
        from_attributes(&row).unwrap_err(),
        PrecomputeError::MissingAttributeError
    );
}

#[test]
fn out_of_range_component_is_rejected() {
    let mut row = vec![0i64; 62];
    row[7] = C_MAX + 1;
    assert_eq!(
        from_attributes(&row).unwrap_err(),
        PrecomputeError::ValueOutOfRangeError
    );
    let mut row = vec![0i64; 62];
    row[54] = ONE + 1;
    assert_eq!(
        from_attributes(&row).unwrap_err(),
        PrecomputeError::ValueOutOfRangeError
    );
    let mut row = vec![0i64; 62];
    row[54] = -1;
    assert_eq!(
        from_attributes(&row).unwrap_err(),
        PrecomputeError::ValueOutOfRangeError
    );
}

#[test]
fn set_rows_round_trip() {
    let records = vec![sample_record(1), sample_record(2), sample_record(9)];
    let set = SplatSet { records, source: String::from("scene.ply") };
    let rows = set.to_rows();
    assert_eq!(rows.len(), 3);
    let set2 = SplatSet::from_rows(String::from("scene.ply"), &rows)
        .expect("rows written by to_rows must reload");
    let rows2 = set2.to_rows();
    assert_eq!(rows, rows2);
    assert_eq!(set2.source, set.source);
}

#[test]
fn from_rows_surfaces_first_bad_row() {
    let good = to_attributes(&sample_record(4));
    let bad = vec![0i64; 10];
    let rows = vec![good, bad];
    assert_eq!(
        SplatSet::from_rows(String::from("x"), &rows).unwrap_err(),
        PrecomputeError::MissingAttributeError
    );
}

//! Unit tests for the fixed-point helpers and the graph data records.

use barnes_hut::bounds::Bounds;
use barnes_hut::database::{Concept, Relation};
use barnes_hut::numeric::{div_trunc_i128, div_trunc_i64, isqrt};
use barnes_hut::vec3::IVec3;

fn v(x: i64, y: i64, z: i64) -> IVec3 {
    IVec3 { x, y, z }
}

#[test]
fn integer_square_roots() {
    assert_eq!(isqrt(0), 0);
    assert_eq!(isqrt(1), 1);
    assert_eq!(isqrt(99), 9);
    assert_eq!(isqrt(100), 10);
    assert_eq!(isqrt(78_643_200), 8868);
    assert_eq!(isqrt(u64::MAX), 4_294_967_295);
}

#[test]
fn truncated_division() {
    assert_eq!(div_trunc_i64(7, 2), 3);
    assert_eq!(div_trunc_i64(-7, 2), -3);
    assert_eq!(div_trunc_i64(0, 5), 0);
    assert_eq!(div_trunc_i128(-5_120_000_000_000_000, 697_407_897_600), -7341);
}

#[test]
fn cube_containment_and_octants() {
    let b = Bounds { center: v(0, 0, 0), half: 512 };
    assert!(b.contains(v(0, 0, 0)));
    assert!(b.contains(v(512, -512, 512)));
    assert!(!b.contains(v(513, 0, 0)));
    // bit 0 = x above center, bit 1 = y, bit 2 = z; ties go low.
    assert_eq!(b.octant(v(1, 1, 1)), 7);
    assert_eq!(b.octant(v(-1, -1, -1)), 0);
    assert_eq!(b.octant(v(1, -1, -1)), 1);
    assert_eq!(b.octant(v(-1, 1, -1)), 2);
    assert_eq!(b.octant(v(-1, -1, 1)), 4);
    assert_eq!(b.octant(v(0, 0, 0)), 0);
    let upper = b.make_octant(7);
    assert_eq!(upper.center, v(256, 256, 256));
    assert_eq!(upper.half, 256);
}

#[test]
fn graph_records() {
    let concept = Concept { id: 3, name: String::from("gravity") };
    assert_eq!(concept.id, 3);
    assert_eq!(concept.name, "gravity");
    let relation = Relation { id: 0, a: 3, b: 5 };
    assert!(relation.involves(3));
    assert!(relation.involves(5));
    assert!(!relation.involves(4));
}

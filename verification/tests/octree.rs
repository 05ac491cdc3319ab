//! Scenario tests for the recursive octree.

use barnes_hut::barnes_hut::OctreeNode;
use barnes_hut::numeric::{div_trunc_i128, isqrt};
use barnes_hut::vec3::{Force3, IVec3};

fn v(x: i64, y: i64, z: i64) -> IVec3 {
    IVec3 { x, y, z }
}

/// Exact pairwise contribution of a unit source on a unit query point,
/// mirroring the library's published force law.
fn pair(q: IVec3, s: IVec3, k: i64) -> (i128, i128, i128) {
    let dx = (q.x - s.x) as i128;
    let dy = (q.y - s.y) as i128;
    let dz = (q.z - s.z) as i128;
    let d2 = dx * dx + dy * dy + dz * dz;
    if d2 < 100 {
        return (0, 0, 0);
    }
    let d = isqrt(d2 as u64) as i128;
    let den = d2 * d;
    (
        div_trunc_i128(k as i128 * dx, den),
        div_trunc_i128(k as i128 * dy, den),
        div_trunc_i128(k as i128 * dz, den),
    )
}

fn next_rand(state: &mut u64) -> u64 {
    *state = state
        .wrapping_mul(6364136223846793005)
        .wrapping_add(1442695040888963407);
    *state >> 33
}

#[test]
fn conservation_of_mass() {
    let mut tree = OctreeNode::new(v(0, 0, 0), 1024);
    assert_eq!(tree.total_mass(), 0);
    assert!(tree.insert(v(100, 200, -300)));
    assert!(tree.insert(v(-1000, 512, 9)));
    assert!(tree.insert(v(1024, 1024, 1024)));
    // outside the root cube: rejected, mass unchanged
    assert!(!tree.insert(v(2000, 0, 0)));
    assert_eq!(tree.total_mass(), 3);
    // coincident points merge down at the depth cap but still count
    for _ in 0..5 {
        assert!(tree.insert(v(7, 7, 7)));
    }
    assert_eq!(tree.total_mass(), 8);
}

#[test]
fn two_point_scenario() {
    // Root cube centered at the origin with half-extent 2.6 source units,
    // at 2560 fixed units per source unit; two unit masses on the diagonal.
    let mut tree = OctreeNode::new(v(0, 0, 0), 6656);
    assert!(tree.insert(v(2560, 2560, 2560)));
    assert!(tree.insert(v(-2560, -2560, -2560)));
    let k: i64 = 1_000_000_000_000;

    let mut f = Force3 { x: 0, y: 0, z: 0 };
    tree.get_force(v(2560, 2560, 2560), k, 1, 1, &mut f);
    // The only contribution is the far point, pushing the query point away
    // along +(1,1,1): k / (2*sqrt(3) units)^2 distributed per component.
    let expected = pair(v(2560, 2560, 2560), v(-2560, -2560, -2560), k);
    assert_eq!((f.x, f.y, f.z), expected);
    assert!(f.x > 0 && f.y > 0 && f.z > 0);
    assert_eq!(f.x, 7341);

    // With theta = 0 (exact evaluation) the result is identical: with two
    // points there is nothing to approximate.
    let mut f0 = Force3 { x: 0, y: 0, z: 0 };
    tree.get_force(v(2560, 2560, 2560), k, 0, 1, &mut f0);
    assert_eq!((f0.x, f0.y, f0.z), expected);
}

#[test]
fn theta_zero_matches_pairwise() {
    let mut tree = OctreeNode::new(v(0, 0, 0), 4096);
    let points = [
        v(1000, -2000, 3000),
        v(-1500, 800, -900),
        v(2500, 2500, -2500),
        v(-3000, -3000, 1000),
        v(10, 20, 30),
    ];
    for p in points.iter() {
        assert!(tree.insert(*p));
    }
    let k: i64 = 500_000_000_000;
    let q = v(123, -456, 789);
    let mut f = Force3 { x: 0, y: 0, z: 0 };
    tree.get_force(q, k, 0, 1, &mut f);
    let mut ex = (0i128, 0i128, 0i128);
    for p in points.iter() {
        let c = pair(q, *p, k);
        ex = (ex.0 + c.0, ex.1 + c.1, ex.2 + c.2);
    }
    assert_eq!((f.x, f.y, f.z), ex);
}

#[test]
fn monotone_visits_in_theta() {
    let mut tree = OctreeNode::new(v(0, 0, 0), 8192);
    let mut state: u64 = 42;
    for _ in 0..200 {
        let x = (next_rand(&mut state) % 16384) as i64 - 8192;
        let y = (next_rand(&mut state) % 16384) as i64 - 8192;
        let z = (next_rand(&mut state) % 16384) as i64 - 8192;
        assert!(tree.insert(v(x, y, z)));
    }
    let q = v(100, 100, 100);
    // theta = 0, 1/2, 1, 2: visited node counts must never increase.
    let v0 = tree.visit_count(q, 0, 1);
    let v1 = tree.visit_count(q, 1, 2);
    let v2 = tree.visit_count(q, 1, 1);
    let v3 = tree.visit_count(q, 2, 1);
    assert!(v0 >= v1);
    assert!(v1 >= v2);
    assert!(v2 >= v3);
}

#[test]
fn random_points_never_misbehave() {
    let mut tree = OctreeNode::new(v(0, 0, 0), 2048);
    let mut state: u64 = 7;
    let mut inserted = 0i64;
    for _ in 0..300 {
        let x = (next_rand(&mut state) % 4096) as i64 - 2048;
        let y = (next_rand(&mut state) % 4096) as i64 - 2048;
        let z = (next_rand(&mut state) % 4096) as i64 - 2048;
        assert!(tree.insert(v(x, y, z)));
        inserted += 1;
    }
    assert_eq!(tree.total_mass(), inserted);
    let k: i64 = 1_000_000_000;
    let mut state2: u64 = 7;
    for _ in 0..300 {
        let x = (next_rand(&mut state2) % 4096) as i64 - 2048;
        let y = (next_rand(&mut state2) % 4096) as i64 - 2048;
        let z = (next_rand(&mut state2) % 4096) as i64 - 2048;
        let mut f = Force3 { x: 0, y: 0, z: 0 };
        tree.get_force(v(x, y, z), k, 1, 2, &mut f);
    }
}

#[test]
fn idempotent_rebuild() {
    let points = [
        v(512, -512, 300),
        v(-700, 900, -100),
        v(1, 2, 3),
        v(1, 2, 3),
        v(-2000, -2000, -2000),
    ];
    let mut tree = OctreeNode::new(v(0, 0, 0), 2048);
    for p in points.iter() {
        assert!(tree.insert(*p));
    }
    let mass_first = tree.total_mass();
    let com_first = tree.center_of_mass();
    let mut f_first = Force3 { x: 0, y: 0, z: 0 };
    tree.get_force(v(100, 100, 100), 1_000_000_000_000, 1, 2, &mut f_first);

    tree.clear();
    assert_eq!(tree.total_mass(), 0);
    for p in points.iter() {
        assert!(tree.insert(*p));
    }
    assert_eq!(tree.total_mass(), mass_first);
    assert_eq!(tree.center_of_mass(), com_first);
    let mut f_second = Force3 { x: 0, y: 0, z: 0 };
    tree.get_force(v(100, 100, 100), 1_000_000_000_000, 1, 2, &mut f_second);
    assert_eq!(f_first, f_second);
}

#[test]
fn mesh_lines_outline_cells() {
    let mut tree = OctreeNode::new(v(0, 0, 0), 1024);
    let lines = tree.mesh_lines();
    assert_eq!(lines.len(), 12);
    assert_eq!(lines[0], (v(-1024, -1024, -1024), v(1024, -1024, -1024)));
    // Two points force one subdivision: root plus eight children.
    assert!(tree.insert(v(512, 512, 512)));
    assert!(tree.insert(v(-512, -512, -512)));
    let lines = tree.mesh_lines();
    assert_eq!(lines.len(), 12 * 9);
}

//! Scenario tests for the flat, stack-free octree.

use barnes_hut::barnes_hut::OctreeNode;
use barnes_hut::barnes_hut_no_stack::Octree;
use barnes_hut::vec3::{Force3, IVec3};

fn v(x: i64, y: i64, z: i64) -> IVec3 {
    IVec3 { x, y, z }
}

fn next_rand(state: &mut u64) -> u64 {
    *state = state
        .wrapping_mul(6364136223846793005)
        .wrapping_add(1442695040888963407);
    *state >> 33
}

#[test]
fn conservation_of_mass_after_backpropagation() {
    let mut tree = Octree::new(v(0, 0, 0), 1024);
    assert_eq!(tree.total_mass(), 0);
    assert!(tree.insert(v(100, 200, -300), 5));
    assert!(tree.insert(v(-1000, 512, 9), 7));
    assert!(tree.insert(v(100, 200, -300), 11)); // coincident: merged
    assert!(!tree.insert(v(4000, 0, 0), 1)); // outside: rejected
    assert_eq!(tree.total_mass(), 23);
    assert!(tree.needs_backpropagation());
    tree.backpropagate();
    assert!(!tree.needs_backpropagation());
    // The root's aggregate equals the exact sum of inserted masses.
    assert_eq!(tree.root_mass(), 23);
}

#[test]
fn empty_and_cleared_trees_are_quiet() {
    let mut tree = Octree::new(v(0, 0, 0), 512);
    tree.backpropagate();
    let f = tree.get_force(v(10, 10, 10), 1, 1_000_000_000, 1, 2);
    assert_eq!((f.x, f.y, f.z), (0, 0, 0));
    assert!(tree.insert(v(1, 2, 3), 4));
    tree.clear();
    assert_eq!(tree.total_mass(), 0);
    tree.backpropagate();
    assert_eq!(tree.root_mass(), 0);
}

#[test]
fn matches_recursive_variant_on_two_points() {
    // The shared scenario: cube of half-extent 2.6 source units at 2560
    // fixed units per unit, two unit masses on the diagonal.
    let mut flat = Octree::new(v(0, 0, 0), 6656);
    assert!(flat.insert(v(2560, 2560, 2560), 1));
    assert!(flat.insert(v(-2560, -2560, -2560), 1));
    flat.backpropagate();
    let k: i64 = 1_000_000_000_000;
    let f = flat.get_force(v(2560, 2560, 2560), 1, k, 1, 1);
    assert_eq!((f.x, f.y, f.z), (7341, 7341, 7341));
    let f0 = flat.get_force(v(2560, 2560, 2560), 1, k, 0, 1);
    assert_eq!((f0.x, f0.y, f0.z), (7341, 7341, 7341));

    let mut rec = OctreeNode::new(v(0, 0, 0), 6656);
    assert!(rec.insert(v(2560, 2560, 2560)));
    assert!(rec.insert(v(-2560, -2560, -2560)));
    let mut fr = Force3 { x: 0, y: 0, z: 0 };
    rec.get_force(v(2560, 2560, 2560), k, 1, 1, &mut fr);
    assert_eq!((fr.x, fr.y, fr.z), (f.x, f.y, f.z));
}

#[test]
fn skip_subtree_over_a_far_cluster() {
    // Sixteen points clustered in one octant, one point far away in
    // another; a query near the lone point must take the cluster as one
    // aggregate when theta is generous, and walk all of it at theta zero.
    let mut tree = Octree::new(v(0, 0, 0), 8192);
    let mut cluster = Vec::new();
    for ix in 0..4 {
        for iy in 0..4 {
            cluster.push(v(4000 + ix * 257, 4000 + iy * 257, 4000));
        }
    }
    for p in cluster.iter() {
        assert!(tree.insert(*p, 1));
    }
    assert!(tree.insert(v(-6000, -6000, -6000), 1));
    tree.backpropagate();
    assert_eq!(tree.root_mass(), 17);

    let q = v(-6000, -6000, -6000);
    let visits_exact = tree.visit_count(q, 0, 1);
    let visits_coarse = tree.visit_count(q, 3, 2);
    // Exact evaluation reaches every one of the 16 cluster leaves; the
    // coarse threshold folds the whole cluster into a single aggregate.
    assert!(visits_coarse < visits_exact);
    assert!(visits_exact - visits_coarse >= 15);

    // The forces still agree in direction: the lone point is pushed away
    // from the cluster.
    let f = tree.get_force(v(-6000, -6000, -6000), 1, 1_000_000_000_000, 3, 2);
    assert!(f.x < 0 && f.y < 0 && f.z <= 0);
}

#[test]
fn rebuild_reproduces_forces() {
    let mut tree = Octree::new(v(0, 0, 0), 4096);
    let mut state: u64 = 99;
    let mut points = Vec::new();
    for _ in 0..100 {
        let x = (next_rand(&mut state) % 8192) as i64 - 4096;
        let y = (next_rand(&mut state) % 8192) as i64 - 4096;
        let z = (next_rand(&mut state) % 8192) as i64 - 4096;
        points.push(v(x, y, z));
    }
    for p in points.iter() {
        assert!(tree.insert(*p, 2));
    }
    tree.backpropagate();
    assert_eq!(tree.root_mass(), 200);
    let f1 = tree.get_force(v(50, -50, 0), 3, 500_000_000_000, 1, 2);

    tree.clear();
    for p in points.iter() {
        assert!(tree.insert(*p, 2));
    }
    tree.backpropagate();
    let f2 = tree.get_force(v(50, -50, 0), 3, 500_000_000_000, 1, 2);
    assert_eq!(f1, f2);
}

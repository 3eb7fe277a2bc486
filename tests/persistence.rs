use khf::{Khf, Node, Topology};
use rand::rngs::StdRng;
use rand::SeedableRng;
use std::collections::HashMap;

fn parts(f: &Khf) -> (Topology, Node, Vec<Node>, u64) {
    let t = Topology::from_levels(f.topology().levels().clone()).unwrap();
    (t, *f.appending_root(), f.roots().clone(), f.keys())
}

#[test]
fn restore_from_parts_keeps_keys() {
    let mut rng = StdRng::seed_from_u64(11);
    let mut f = Khf::new(&[2, 3, 2], &mut rng);
    f.derive(30);
    f.commit(&mut rng);
    f.update(4);
    f.update(5);
    f.update(17);
    f.commit(&mut rng);
    let (t, a, roots, keys) = parts(&f);
    let mut g = Khf::from_parts(t, a, roots, keys).unwrap();
    assert_eq!(g.fragmentation(), f.fragmentation());
    assert_eq!(g.keys(), f.keys());
    for x in 0..40u64 {
        assert_eq!(g.derive(x), f.derive(x));
    }
}

#[test]
fn restore_of_consolidated_forest() {
    let mut rng = StdRng::seed_from_u64(12);
    let mut f = Khf::new(&[4, 4], &mut rng);
    let k = f.derive(3);
    f.commit(&mut rng);
    f.truncate(0);
    f.commit(&mut rng);
    let (t, a, roots, keys) = parts(&f);
    let g = Khf::from_parts(t, a, roots, keys).unwrap();
    assert!(g.is_consolidated());
    assert_eq!(g.keys(), 0);
    let _ = k;
}

#[test]
fn restore_rejects_gaps_and_bad_sizes() {
    let t = || Topology::new(&[2, 2]);
    let a = Node::new([0u8; 32]);
    let gap = vec![Node::with_pos((2, 0), [1u8; 32]), Node::with_pos((2, 2), [2u8; 32])];
    assert!(Khf::from_parts(t(), a, gap, 6).is_none());
    let run = vec![Node::with_pos((2, 0), [1u8; 32]), Node::with_pos((2, 1), [2u8; 32])];
    assert!(Khf::from_parts(t(), a, run.clone(), 3).is_none());
    assert!(Khf::from_parts(t(), a, run.clone(), 4).is_some());
    assert!(Khf::from_parts(t(), a, Vec::new(), 0).is_none());
    let off_root = Node::with_pos((1, 0), [0u8; 32]);
    assert!(Khf::from_parts(t(), off_root, run, 4).is_none());
    let whole = vec![Node::new([5u8; 32])];
    assert!(Khf::from_parts(t(), a, whole, 9).is_some());
    let bad_level = vec![Node::with_pos((4, 0), [1u8; 32])];
    assert!(Khf::from_parts(t(), a, bad_level, 1).is_none());
}

#[test]
fn topology_from_levels() {
    assert!(Topology::from_levels(vec![0, 4, 2, 1]).is_some());
    assert_eq!(Topology::from_levels(vec![0, 6, 3, 1]).unwrap().fanout(1), 2);
    assert!(Topology::from_levels(vec![0, 5, 2, 1]).is_none());
    assert!(Topology::from_levels(vec![0, 2, 2, 1]).is_none());
    assert!(Topology::from_levels(vec![0, 1]).is_none());
    assert!(Topology::from_levels(vec![1, 4, 2, 1]).is_none());
    assert!(Topology::from_levels(vec![0, 4, 2, 2]).is_none());
    let t = Topology::new(&[3, 5]);
    assert_eq!(t.levels(), &vec![0, 15, 5, 1]);
    assert!(t.is_valid());
}

fn pos_id(p: (u64, u64)) -> u128 {
    ((p.0 as u128) << 64) | p.1 as u128
}

#[test]
fn cached_derivation_matches_plain() {
    let t = Topology::new(&[2, 2, 2]);
    let node = Node::new([4u8; 32]);
    let mut cache: HashMap<u128, [u8; 32]> = HashMap::new();
    let k = node.derive_and_cache(&t, (4, 13), &mut cache);
    assert_eq!(k, node.derive(&t, (4, 13)));
    assert_eq!(cache.len(), 4);
    assert_eq!(cache[&pos_id((2, 3))], node.derive(&t, (2, 3)));
    assert_eq!(cache[&pos_id((4, 13))], k);
    assert_eq!(node.derive_cached(&t, (4, 12), &cache), node.derive(&t, (4, 12)));
    assert_eq!(cache.len(), 4);
    let parts = node.coverage_cached(&t, 1, 3, 11, &cache);
    let plain = node.coverage(&t, 1, 3, 11);
    assert_eq!(parts.len(), plain.len());
    for (a, b) in parts.iter().zip(&plain) {
        assert_eq!(a.pos, b.pos);
        assert_eq!(a.key, b.key);
    }
    let more = node.coverage_and_cache(&t, 2, 0, 8, &mut cache);
    assert_eq!(more.len(), 2);
    assert!(cache.contains_key(&pos_id((2, 0))));
    assert_eq!(more[1].key, node.derive(&t, (2, 1)));
}

use hasher::{Hasher, HasherKeccak};
use khf::{Kht, Node, Topology};

fn child(key: &[u8; 32], level: u64, index: u64) -> [u8; 32] {
    let mut msg = key.to_vec();
    msg.extend_from_slice(&level.to_le_bytes());
    msg.extend_from_slice(&index.to_le_bytes());
    let d = HasherKeccak::new().digest(&msg);
    let mut k = [0u8; 32];
    k.copy_from_slice(&d);
    k
}

#[test]
fn topology_levels() {
    let t = Topology::new(&[2, 3]);
    assert_eq!(t.height(), 4);
    assert_eq!(t.descendants(0), 0);
    assert_eq!(t.descendants(1), 6);
    assert_eq!(t.descendants(2), 3);
    assert_eq!(t.descendants(3), 1);
    assert_eq!(t.fanout(0), 0);
    assert_eq!(t.fanout(1), 2);
    assert_eq!(t.fanout(2), 3);
    assert_eq!(t.fanout(3), 1);
}

#[test]
fn default_topology() {
    let t = Topology::default();
    assert_eq!(t.height(), 6);
    assert_eq!(t.descendants(1), 256);
    assert_eq!(t.descendants(4), 4);
}

#[test]
fn positions_and_ranges() {
    let t = Topology::new(&[2, 2]);
    assert_eq!(t.start((2, 3)), 6);
    assert_eq!(t.end((2, 3)), 8);
    assert_eq!(t.range((1, 1)), (4, 8));
    assert_eq!(t.range((0, 0)), (0, 0));
    assert_eq!(t.offset(7, 1), 1);
    assert_eq!(t.offset(7, 2), 3);
    assert_eq!(t.offset(7, 0), 0);
    assert_eq!(t.leaf_position(5), (3, 5));
    assert!(t.is_ancestor((0, 0), (3, 5)));
    assert!(t.is_ancestor((1, 1), (3, 5)));
    assert!(!t.is_ancestor((1, 0), (3, 5)));
    assert!(!t.is_ancestor((1, 1), (0, 0)));
    assert!(t.is_ancestor((2, 2), (2, 2)));
}

#[test]
fn path_goes_down_level_by_level() {
    let t = Topology::new(&[2, 2]);
    let mut path = t.path((0, 0), (3, 5));
    let mut seen = Vec::new();
    while let Some(p) = path.next() {
        seen.push(p);
    }
    assert_eq!(seen, vec![(1, 1), (2, 2), (3, 5)]);
    let mut empty = t.path((2, 2), (2, 2));
    assert_eq!(empty.next(), None);
}

fn collect_coverage(t: &Topology, level: u64, start: u64, end: u64) -> Vec<(u64, u64)> {
    let mut it = t.leveled_coverage(level, start, end);
    let mut out = Vec::new();
    while let Some(p) = it.next() {
        out.push(p);
    }
    out
}

#[test]
fn coverage_is_minimal() {
    let t = Topology::new(&[2, 2]);
    assert_eq!(collect_coverage(&t, 1, 0, 5), vec![(1, 0), (3, 4)]);
    assert_eq!(collect_coverage(&t, 1, 5, 12), vec![(3, 5), (2, 3), (1, 2)]);
    assert_eq!(collect_coverage(&t, 1, 12, 15), vec![(2, 6), (3, 14)]);
    assert_eq!(collect_coverage(&t, 2, 0, 8), vec![(2, 0), (2, 1), (2, 2), (2, 3)]);
    assert_eq!(collect_coverage(&t, 1, 3, 3), vec![]);
    assert_eq!(collect_coverage(&t, 1, 4, 2), vec![]);
    let mut plain = t.coverage(1, 7);
    let mut out = Vec::new();
    while let Some(p) = plain.next() {
        out.push(p);
    }
    assert_eq!(out, vec![(3, 1), (2, 1), (2, 2), (3, 6)]);
}

#[test]
fn node_derive_is_a_hash_chain() {
    let t = Topology::new(&[2, 2]);
    let seed = [9u8; 32];
    let node = Node::new(seed);
    let expected = child(&child(&child(&seed, 1, 1), 2, 2), 3, 5);
    assert_eq!(node.derive(&t, (3, 5)), expected);
    assert_eq!(node.derive(&t, (0, 0)), seed);
    let mid = Node::with_pos((2, 2), child(&child(&seed, 1, 1), 2, 2));
    assert_eq!(mid.derive(&t, (3, 5)), expected);
    assert_ne!(node.derive(&t, (3, 4)), expected);
}

#[test]
fn node_coverage_keeps_keys() {
    let t = Topology::new(&[2, 2]);
    let node = Node::new([1u8; 32]);
    let parts = node.coverage(&t, 1, 1, 7);
    let positions: Vec<_> = parts.iter().map(|n| n.pos).collect();
    assert_eq!(positions, vec![(3, 1), (2, 1), (2, 2), (3, 6)]);
    for p in &parts {
        assert_eq!(p.key, node.derive(&t, p.pos));
    }
    assert_eq!(parts[1].derive(&t, (3, 3)), node.derive(&t, (3, 3)));
}

#[test]
fn kht_derives_from_seed() {
    let seed = [3u8; 32];
    let kht = Kht::new(seed);
    let t = Topology::default();
    let node = Node::new(seed);
    assert_eq!(kht.derive(77), node.derive(&t, (5, 77)));
    assert_ne!(kht.derive(77), kht.derive(78));
}

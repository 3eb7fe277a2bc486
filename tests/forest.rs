use khf::{Consolidation, Khf};
use rand::rngs::StdRng;
use rand::{thread_rng, Rng, SeedableRng};
use std::collections::{BTreeSet, HashSet};

fn rng() -> StdRng {
    StdRng::seed_from_u64(7)
}

fn all_keys(khf: &mut Khf) -> Vec<[u8; 32]> {
    (0..100).map(|i| khf.derive(i)).collect()
}

#[test]
fn random_commit() {
    let mut rng = StdRng::from_entropy();
    let mut pick = thread_rng();
    let mut khf = Khf::new(&[4, 4, 4, 4], &mut rng);

    for _ in 0..10000 {
        let old = all_keys(&mut khf);

        let ks: HashSet<u64> = HashSet::from_iter((0..10).map(|_| {
            let k = pick.gen_range(0..100);
            khf.update(k);
            khf.commit(&mut rng);
            k
        }));

        let new = all_keys(&mut khf);

        for (i, (o, n)) in old.iter().zip(&new).enumerate() {
            if !ks.contains(&(i as u64)) {
                assert_eq!(o, n);
            }
        }
    }
}

#[test]
fn fresh_forest() {
    let mut rng = rng();
    let khf = Khf::new(&[2, 2], &mut rng);
    assert_eq!(khf.fragmentation(), 1);
    assert!(khf.is_consolidated());
    assert_eq!(khf.keys(), 0);
    assert!(khf.updated_keys().is_empty());
}

#[test]
fn derive_then_update() {
    let mut rng = rng();
    let mut khf = Khf::new(&[2, 2], &mut rng);
    let k = khf.derive(4);
    assert_eq!(khf.fragmentation(), 1);
    let k1 = khf.update(1);
    let k2 = khf.update(2);
    assert_eq!(khf.fragmentation(), 1);
    assert_eq!(khf.commit(&mut rng), vec![1, 2]);
    assert_eq!(khf.fragmentation(), 5);
    assert_eq!(khf.keys(), 5);
    assert_eq!(khf.derive(4), k);
    // The updated keys were revoked by the commit.
    assert_ne!(khf.derive(1), k1);
    assert_ne!(khf.derive(2), k2);
}

fn after_ascending_derive(rng: &mut StdRng) -> Khf {
    let mut khf = Khf::new(&[2, 2], rng);
    khf.derive(4);
    khf.update(1);
    khf.update(2);
    khf.commit(rng);
    khf.derive(11);
    assert_eq!(khf.commit(rng), Vec::<u64>::new());
    khf
}

#[test]
fn ascending_derive() {
    let mut rng = rng();
    let khf = after_ascending_derive(&mut rng);
    assert_eq!(khf.fragmentation(), 8);
    assert_eq!(khf.keys(), 12);
}

#[test]
fn update_past_end() {
    let mut rng = rng();
    let mut khf = after_ascending_derive(&mut rng);
    let k13 = khf.derive(13);
    let k15 = khf.update(15);
    assert_eq!(khf.derive(15), k15);
    assert_eq!(khf.derive(13), k13);
    assert_eq!(khf.in_flight_keys(), 16);
    assert_eq!(khf.commit(&mut rng), vec![15]);
    assert_eq!(khf.keys(), 16);
    assert_eq!(khf.derive(13), k13);
    assert_ne!(khf.derive(15), k15);
    // [12, 16) is appended as one level-1 root, then split around 15:
    // (2, 6), (3, 14) and the fresh (3, 15).
    assert_eq!(khf.fragmentation(), 11);
}

#[test]
fn truncate_preserves_pre_commit_derivations() {
    let mut rng = rng();
    let mut khf = after_ascending_derive(&mut rng);
    khf.update(15);
    khf.commit(&mut rng);
    let k0 = khf.derive(0);
    let k1 = khf.derive(1);
    khf.update(5);
    khf.truncate(2);
    assert_eq!(khf.derive(0), k0);
    assert_eq!(khf.commit(&mut rng), Vec::<u64>::new());
    assert_eq!(khf.keys(), 2);
    assert_eq!(khf.derive(0), k0);
    assert_eq!(khf.derive(1), k1);
    assert_eq!(khf.fragmentation(), 2);
}

#[test]
fn derive_twice_is_stable() {
    let mut rng = rng();
    let mut khf = Khf::new(&[3, 2], &mut rng);
    for x in [0u64, 5, 17, 3] {
        let a = khf.derive(x);
        let b = khf.derive(x);
        assert_eq!(a, b);
    }
}

#[test]
fn update_is_deferred_until_commit() {
    let mut rng = rng();
    let mut khf = Khf::new(&[2, 2, 2], &mut rng);
    khf.derive(20);
    khf.commit(&mut rng);
    let before = khf.derive(6);
    let during = khf.update(6);
    assert_eq!(before, during);
    assert_eq!(khf.derive(6), before);
    assert_eq!(khf.updated_keys(), &BTreeSet::from([6]));
    khf.commit(&mut rng);
    assert_ne!(khf.derive(6), before);
}

#[test]
fn update_keeps_other_keys() {
    let mut rng = rng();
    let mut khf = Khf::new(&[4, 4], &mut rng);
    khf.derive(40);
    khf.commit(&mut rng);
    let old: Vec<_> = (0..41).map(|i| khf.derive(i)).collect();
    khf.update(17);
    khf.update(18);
    khf.update(30);
    assert_eq!(khf.commit(&mut rng), vec![17, 18, 30]);
    for i in 0..41u64 {
        if i == 17 || i == 18 || i == 30 {
            assert_ne!(khf.derive(i), old[i as usize]);
        } else {
            assert_eq!(khf.derive(i), old[i as usize]);
        }
    }
}

#[test]
fn appended_keys_survive_commit() {
    let mut rng = rng();
    let mut khf = Khf::new(&[2, 3], &mut rng);
    let pending: Vec<_> = (0..9).map(|i| khf.derive(i)).collect();
    assert_eq!(khf.keys(), 0);
    assert_eq!(khf.in_flight_keys(), 9);
    khf.commit(&mut rng);
    assert_eq!(khf.keys(), 9);
    for i in 0..9u64 {
        assert_eq!(khf.derive(i), pending[i as usize]);
    }
}

#[test]
fn full_update_consolidates() {
    let mut rng = rng();
    let mut khf = Khf::new(&[2, 2], &mut rng);
    khf.derive(7);
    khf.commit(&mut rng);
    assert!(!khf.is_consolidated());
    for i in 0..8 {
        khf.update(i);
    }
    assert_eq!(khf.commit(&mut rng), (0..8).collect::<Vec<u64>>());
    assert!(khf.is_consolidated());
    assert_eq!(khf.fragmentation(), 1);
}

#[test]
fn truncate_drops_pending_updates_past_it() {
    let mut rng = rng();
    let mut khf = Khf::new(&[2, 2], &mut rng);
    khf.derive(9);
    khf.commit(&mut rng);
    khf.update(1);
    khf.update(8);
    khf.truncate(4);
    assert_eq!(khf.commit(&mut rng), vec![1]);
    assert_eq!(khf.keys(), 4);
    assert!(khf.updated_keys().is_empty());
}

#[test]
fn truncate_to_zero_consolidates() {
    let mut rng = rng();
    let mut khf = Khf::new(&[2, 2], &mut rng);
    khf.derive(5);
    khf.commit(&mut rng);
    khf.truncate(0);
    assert_eq!(khf.commit(&mut rng), Vec::<u64>::new());
    assert_eq!(khf.keys(), 0);
    assert!(khf.is_consolidated());
}

#[test]
fn consolidate_full() {
    let mut rng = rng();
    let mut khf = Khf::new(&[2, 2], &mut rng);
    khf.derive(6);
    khf.commit(&mut rng);
    khf.update(2);
    khf.commit(&mut rng);
    khf.update(3);
    let before = khf.derive(0);
    assert!(khf.fragmentation() > 1);
    assert_eq!(khf.consolidate(Consolidation::Full, &mut rng), (0..7).collect::<Vec<u64>>());
    assert_eq!(khf.fragmentation(), 1);
    assert!(khf.is_consolidated());
    assert!(khf.updated_keys().is_empty());
    assert_eq!(khf.keys(), 7);
    assert_ne!(khf.derive(0), before);
}

#[test]
fn consolidate_leveled() {
    let mut rng = rng();
    let mut khf = Khf::new(&[2, 2], &mut rng);
    khf.derive(7);
    khf.commit(&mut rng);
    assert_eq!(
        khf.consolidate(Consolidation::Leveled { level: 2 }, &mut rng),
        (0..8).collect::<Vec<u64>>()
    );
    // [0, 8) at level 2: four subtrees of two leaves.
    assert_eq!(khf.fragmentation(), 4);
    let positions: Vec<_> = khf.roots().iter().map(|n| n.pos).collect();
    assert_eq!(positions, vec![(2, 0), (2, 1), (2, 2), (2, 3)]);
}

#[test]
fn consolidate_ranged_keeps_outside_keys() {
    let mut rng = rng();
    let mut khf = Khf::new(&[2, 2], &mut rng);
    khf.derive(11);
    khf.commit(&mut rng);
    let old: Vec<_> = (0..12).map(|i| khf.derive(i)).collect();
    khf.update(5);
    khf.update(9);
    assert_eq!(
        khf.consolidate(Consolidation::Ranged { start: 3, end: 7 }, &mut rng),
        vec![3, 4, 5, 6]
    );
    assert_eq!(khf.updated_keys(), &BTreeSet::from([9]));
    for i in 0..12u64 {
        if (3..7).contains(&i) {
            assert_ne!(khf.derive(i), old[i as usize]);
        } else {
            assert_eq!(khf.derive(i), old[i as usize]);
        }
    }
}

#[test]
fn consolidate_ranged_extends_domain() {
    let mut rng = rng();
    let mut khf = Khf::new(&[2, 2], &mut rng);
    khf.derive(3);
    khf.commit(&mut rng);
    let k5 = khf.derive(5);
    let k1 = khf.derive(1);
    assert_eq!(
        khf.consolidate(Consolidation::RangedLeveled { level: 1, start: 6, end: 10 }, &mut rng),
        vec![6, 7, 8, 9]
    );
    assert_eq!(khf.keys(), 10);
    assert_eq!(khf.derive(5), k5);
    assert_eq!(khf.derive(1), k1);
}

#[test]
fn consolidate_empty_range_is_noop() {
    let mut rng = rng();
    let mut khf = Khf::new(&[2, 2], &mut rng);
    khf.derive(3);
    khf.commit(&mut rng);
    let before = khf.fragmentation();
    assert_eq!(
        khf.consolidate(Consolidation::Ranged { start: 2, end: 2 }, &mut rng),
        Vec::<u64>::new()
    );
    assert_eq!(khf.fragmentation(), before);
    assert_eq!(khf.keys(), 4);
}

#[test]
fn locate_finds_covering_root() {
    let mut rng = rng();
    let mut khf = after_ascending_derive(&mut rng);
    khf.derive(0);
    for x in 0..12u64 {
        let i = khf.locate(x);
        let root = khf.roots()[i];
        let t = khf.topology();
        assert!(t.is_ancestor(root.pos, t.leaf_position(x)));
    }
    let consolidated = Khf::new(&[2, 2], &mut rng);
    let mut grown = consolidated;
    grown.derive(2);
    grown.commit(&mut rng);
    grown.update(0);
    grown.update(1);
    grown.update(2);
    grown.commit(&mut rng);
    assert!(grown.is_consolidated());
    assert_eq!(grown.locate(1), 0);
}

#[test]
fn updated_key_ranges_are_maximal_runs() {
    let mut rng = rng();
    let mut khf = Khf::new(&[4, 4], &mut rng);
    for x in [3u64, 4, 5, 9, 11, 12] {
        khf.update(x);
    }
    assert_eq!(khf.updated_key_ranges(), vec![(3, 6), (9, 10), (11, 13)]);
    let empty = Khf::new(&[4, 4], &mut rng);
    assert!(empty.updated_key_ranges().is_empty());
}

#[test]
fn updated_keys_mut_edits_pending_updates() {
    let mut rng = rng();
    let mut khf = Khf::new(&[2, 2], &mut rng);
    khf.derive(7);
    khf.commit(&mut rng);
    let k3 = khf.derive(3);
    khf.update(3);
    khf.update(5);
    khf.updated_keys_mut().retain(|k| *k != 3);
    assert_eq!(khf.updated_keys(), &BTreeSet::from([5]));
    assert_eq!(khf.commit(&mut rng), vec![5]);
    assert_eq!(khf.derive(3), k3);
}

#[test]
fn cloned_forest_derives_the_same_keys() {
    let mut rng = rng();
    let mut khf = Khf::new(&[2, 2], &mut rng);
    khf.derive(9);
    khf.commit(&mut rng);
    khf.update(4);
    khf.commit(&mut rng);
    let mut copy = khf.clone();
    for x in 0..12u64 {
        assert_eq!(copy.derive(x), khf.derive(x));
    }
    assert_eq!(copy.fragmentation(), khf.fragmentation());
}

#[test]
fn shrinking_commit_only_cuts_roots() {
    let mut rng = rng();
    let mut khf = Khf::new(&[2, 2], &mut rng);
    khf.derive(7);
    khf.commit(&mut rng);
    let k1 = khf.derive(1);
    khf.update(1);
    khf.truncate(3);
    assert_eq!(khf.commit(&mut rng), vec![1]);
    assert_eq!(khf.keys(), 3);
    assert_eq!(khf.derive(1), k1);
}

#[test]
fn roots_partition_committed_range() {
    let mut rng = rng();
    let mut khf = Khf::new(&[3, 3], &mut rng);
    khf.derive(40);
    khf.commit(&mut rng);
    for x in [2u64, 3, 10, 26, 27, 33] {
        khf.update(x);
    }
    khf.commit(&mut rng);
    khf.truncate(30);
    khf.commit(&mut rng);
    let t = khf.topology();
    let mut next = 0;
    for root in khf.roots() {
        let (start, end) = t.range(root.pos);
        assert_eq!(start, next);
        assert!(end > start);
        next = end;
    }
    assert_eq!(next, khf.keys());
    assert_eq!(khf.keys(), 30);
}

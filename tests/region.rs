use kitsune_p2p_dht::coords::{checked_rectify_index, rectify_index, GridConfig, RegionCoord};
use kitsune_p2p_dht::fixtures::{DhtLocation, FixtureBuckets, HashedFixtures};
use kitsune_p2p_dht::reconcile::reconcile;
use kitsune_p2p_dht::region_data::{array_xor, fake_hash, OpHash, RegionData, RegionHash};
use kitsune_p2p_dht::tree::{CoverageTree, OpData};

fn h(b: u8) -> [u8; 32] {
    let mut x = [0u8; 32];
    x[0] = b;
    x[31] = b.wrapping_mul(3);
    x
}

fn rd(b: u8, size: u32, count: u32) -> RegionData {
    RegionData { hash: RegionHash(h(b)), size, count }
}

#[test]
fn array_xor_bytewise() {
    let mut a = [0b1100u8; 32];
    let b = [0b1010u8; 32];
    array_xor(&mut a, &b);
    assert_eq!(a, [0b0110u8; 32]);
}

#[test]
fn region_hash_xor_and_zero() {
    let mut a = RegionHash(h(5));
    assert!(!a.is_zero());
    a.xor(&RegionHash(h(5)));
    assert!(a.is_zero());
    assert!(a == RegionHash::zero());
    let c = RegionHash(h(1)).add(RegionHash(h(2)));
    assert_eq!(c.0[0], 3);
    assert_eq!(RegionHash::from(OpHash(h(7))).0, h(7));
}

#[test]
fn combine_is_associative_commutative_with_identity() {
    let a = rd(1, 10, 1);
    let b = rd(2, 20, 2);
    let c = rd(4, 40, 3);
    assert!(a.add(b).add(c) == a.add(b.add(c)));
    assert!(a.add(b) == b.add(a));
    assert!(a.add(RegionData::zero()) == a);
    let s = a.add(b);
    assert_eq!(s.size, 30);
    assert_eq!(s.count, 3);
    assert_eq!(s.hash.0[0], 3);
}

#[test]
fn subtract_inverts_combine() {
    let a = rd(9, 100, 4);
    let b = rd(6, 30, 2);
    assert!(a.add(b).sub(b) == a);
    let mut x = a;
    x.add_assign(b);
    x.sub_assign(b);
    assert!(x == a);
}

#[test]
fn triple_invariant_on_zero_and_single() {
    let z = RegionData::zero();
    assert!(z.is_zero());
    assert_eq!(z.size, 0);
    assert!(z.hash.is_zero());
    let one = RegionData::from_op(OpHash(h(3)), 12);
    assert!(!one.is_zero());
    assert_eq!(one.count, 1);
    assert_eq!(one.size, 12);
}

#[test]
fn rectify_index_examples() {
    assert_eq!(rectify_index(5, -1), 4);
    assert_eq!(rectify_index(5, 0), 0);
    assert_eq!(rectify_index(5, 4), 4);
    assert_eq!(rectify_index(5, -4), 1);
    assert_eq!(checked_rectify_index(5, -1), Some(4));
    assert_eq!(checked_rectify_index(5, 5), None);
    assert_eq!(checked_rectify_index(5, -5), None);
}

fn ops_from_fixtures(f: &HashedFixtures) -> Vec<OpData> {
    let mut v = Vec::new();
    for (i, item) in f.items.iter().enumerate() {
        v.push(OpData { hash: *item, size: 10 + i as u32, time: (i as u64) * 7, loc: loc_of(*item) });
    }
    v
}

fn loc_of(h: OpHash) -> u32 {
    u32::from_le_bytes([h.0[0], h.0[1], h.0[2], h.0[3]])
}

fn data(n: usize) -> Vec<u8> {
    let mut d = Vec::new();
    let mut x: u32 = 12345;
    for _ in 0..n {
        x = x.wrapping_mul(1103515245).wrapping_add(12345);
        d.push((x >> 16) as u8);
    }
    d
}

#[test]
fn fixture_generate_one_per_bucket() {
    let bytes = data(200_000);
    let mut u = arbitrary::Unstructured::new(&bytes);
    let f = HashedFixtures::generate(10, &mut u, loc_of).expect("enough data");
    assert_eq!(f.num, 10);
    assert_eq!(f.items.len(), 10);
    let width = (1u64 << 32) / 10;
    assert_eq!(width, 429496729);
    for i in 0..10 {
        assert_eq!(loc_of(f.items[i]) as u64 / width, i as u64);
    }
    assert_eq!(f.get(-1), f.get(9));
    assert_eq!(f.get(0), f.items[0]);
    assert_eq!(f.bucket(0), (DhtLocation(0), DhtLocation(429496729)));
    assert_eq!(f.bucket(-1), (DhtLocation(9 * 429496729), DhtLocation(10 * 429496729)));
}

#[test]
fn fixture_generate_gives_up_without_data() {
    let bytes = [1u8, 2, 3];
    let mut u = arbitrary::Unstructured::new(&bytes);
    assert!(HashedFixtures::generate(10, &mut u, loc_of).is_none());
}

#[test]
fn fixture_single_bucket_spans_ring() {
    let bytes = data(64);
    let mut u = arbitrary::Unstructured::new(&bytes);
    let f = HashedFixtures::generate(1, &mut u, loc_of).expect("one draw fills it");
    assert_eq!(f.bucket(0), (DhtLocation(0), DhtLocation(0)));
}

#[test]
fn buckets_keep_first_offer() {
    let mut b = FixtureBuckets::new(2);
    assert!(b.offer(OpHash(h(1)), 5));
    assert!(!b.offer(OpHash(h(2)), 6));
    assert!(b.finish().is_none());
    assert!(b.offer(OpHash(h(3)), u32::MAX - 1));
    assert!(!b.offer(OpHash(h(4)), u32::MAX));
    let f = b.finish().expect("full");
    assert_eq!(f.items, vec![OpHash(h(1)), OpHash(h(3))]);
}

fn cfg() -> GridConfig {
    GridConfig { time_quantum: 10, depth: 3 }
}

#[test]
fn tree_root_is_fold_of_all_ops() {
    let bytes = data(100_000);
    let mut u = arbitrary::Unstructured::new(&bytes);
    let f = HashedFixtures::generate(8, &mut u, loc_of).expect("enough data");
    let ops = ops_from_fixtures(&f);
    let t = CoverageTree::build(cfg(), &ops);
    let mut direct = RegionData::zero();
    for o in &ops {
        direct = direct.add(RegionData::from_op(o.hash, o.size));
    }
    assert!(t.query(GridConfig::root()) == direct);
    let mut leaves = RegionData::zero();
    for ti in 0..8u32 {
        for li in 0..8u32 {
            leaves = leaves.add(t.query(RegionCoord { level: 3, time_index: ti, loc_index: li }));
        }
    }
    assert!(leaves == direct);
    assert_eq!(direct.count, 8);
}

#[test]
fn reconcile_identical_and_one_extra() {
    let bytes = data(100_000);
    let mut u = arbitrary::Unstructured::new(&bytes);
    let f = HashedFixtures::generate(8, &mut u, loc_of).expect("enough data");
    let ops = ops_from_fixtures(&f);
    let a = CoverageTree::build(cfg(), &ops);
    let b = CoverageTree::build(cfg(), &ops);
    assert!(reconcile(&a, &b).is_empty());
    let extra = OpData { hash: OpHash(fake_hash()), size: 3, time: 55, loc: 0x9000_0000 };
    let mut ops2 = ops.clone();
    ops2.push(extra);
    let c = CoverageTree::build(cfg(), &ops2);
    let d = reconcile(&a, &c);
    assert_eq!(d, vec![RegionCoord { level: 3, time_index: 5, loc_index: 4 }]);
    assert_eq!(cfg().leaf_of(55, 0x9000_0000), d[0]);
}

#[test]
fn children_partition_parent() {
    let c = cfg().children(RegionCoord { level: 1, time_index: 1, loc_index: 0 });
    assert_eq!(c[0], RegionCoord { level: 2, time_index: 2, loc_index: 0 });
    assert_eq!(c[3], RegionCoord { level: 2, time_index: 3, loc_index: 1 });
}

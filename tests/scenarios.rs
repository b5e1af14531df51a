use collider::bit_trie::BitTrie;
use collider::cidr::{random_routers, Cidrv4};
use collider::collider::Collider;
use collider::layered_bit_trie::LayeredBitTrie;
use collider::marks::MarkSet;
use collider::overlap::Overlap;
use collider::range_tree::RangeTree;

fn ip(a: u32, b: u32, c: u32, d: u32) -> u32 {
    (a << 24) | (b << 16) | (c << 8) | d
}

fn canon(v: Vec<Overlap>) -> Vec<(u32, u32, Vec<u32>)> {
    let mut out: Vec<(u32, u32, Vec<u32>)> =
        v.iter().map(|o| (o.start, o.end, o.marks.to_vec())).collect();
    out.sort();
    out
}

fn run<C: Collider>(mut c: C, marks: &[(u32, u8, u32)]) -> Vec<(u32, u32, Vec<u32>)> {
    for &(addr, bits, m) in marks {
        c.mark(&Cidrv4::new(addr, bits), m);
    }
    canon(c.overlaps())
}

fn all(marks: &[(u32, u8, u32)]) -> Vec<(u32, u32, Vec<u32>)> {
    let a = run(BitTrie::default(), marks);
    let b = run(LayeredBitTrie::default(), marks);
    let c = run(RangeTree::default(), marks);
    assert_eq!(a, b);
    assert_eq!(a, c);
    a
}

#[test]
fn nested_blocks_overlap_on_inner_block() {
    let r = all(&[(ip(10, 0, 0, 0), 24, 1), (ip(10, 0, 0, 128), 25, 2)]);
    assert_eq!(r, vec![(ip(10, 0, 0, 128), ip(10, 0, 0, 255), vec![1, 2])]);
}

#[test]
fn three_owners_of_one_block() {
    let b = ip(192, 168, 1, 0);
    let r = all(&[(b, 24, 1), (b, 24, 2), (b, 24, 3)]);
    assert_eq!(r, vec![(b, ip(192, 168, 1, 255), vec![1, 2, 3])]);
}

#[test]
fn disjoint_blocks_do_not_overlap() {
    let r = all(&[(ip(10, 0, 0, 0), 24, 1), (ip(10, 0, 1, 0), 24, 2)]);
    assert!(r.is_empty());
}

#[test]
fn whole_space_and_single_address() {
    let a = ip(10, 0, 0, 5);
    let r = all(&[(0, 0, 1), (a, 32, 2)]);
    assert_eq!(r, vec![(a, a, vec![1, 2])]);
}

#[test]
fn whole_space_with_one_mark_reports_nothing() {
    assert!(all(&[(0, 0, 7)]).is_empty());
}

#[test]
fn empty_collider_reports_nothing() {
    assert!(all(&[]).is_empty());
}

#[test]
fn marking_twice_is_idempotent() {
    let once = all(&[(ip(10, 0, 0, 0), 24, 1), (ip(10, 0, 0, 0), 25, 2)]);
    let twice = all(&[
        (ip(10, 0, 0, 0), 24, 1),
        (ip(10, 0, 0, 0), 25, 2),
        (ip(10, 0, 0, 0), 25, 2),
    ]);
    assert_eq!(once, twice);
    assert_eq!(once, vec![(ip(10, 0, 0, 0), ip(10, 0, 0, 127), vec![1, 2])]);
}

#[test]
fn adjacent_equal_ranges_are_joined() {
    // Both halves of the /24 carry {1, 2}; the report is one maximal range.
    let b = ip(10, 0, 0, 0);
    let r = all(&[(b, 24, 1), (b, 25, 2), (ip(10, 0, 0, 128), 25, 2)]);
    assert_eq!(r, vec![(b, ip(10, 0, 0, 255), vec![1, 2])]);
}

#[test]
fn whole_space_overlap_reaches_top_address() {
    let r = all(&[(0, 0, 1), (0, 0, 2)]);
    assert_eq!(r, vec![(0, u32::MAX, vec![1, 2])]);
}

#[test]
fn top_half_overlap() {
    let r = all(&[(0x8000_0000, 1, 1), (0, 0, 2), (0xFFFF_FFFF, 32, 3)]);
    assert_eq!(
        r,
        vec![
            (0x8000_0000, 0xFFFF_FFFE, vec![1, 2]),
            (0xFFFF_FFFF, 0xFFFF_FFFF, vec![1, 2, 3]),
        ]
    );
}

#[test]
fn coverage_matches_brute_force() {
    let marks: Vec<(u32, u8, u32)> = vec![
        (ip(10, 0, 0, 0), 28, 1),
        (ip(10, 0, 0, 4), 30, 2),
        (ip(10, 0, 0, 8), 29, 3),
        (ip(10, 0, 0, 0), 27, 4),
        (ip(10, 0, 0, 6), 31, 2),
        (ip(10, 0, 0, 16), 32, 5),
    ];
    let r = all(&marks);
    for a in ip(10, 0, 0, 0)..ip(10, 0, 0, 40) {
        let mut owners: Vec<u32> = marks
            .iter()
            .filter(|(s, bits, _)| {
                let size: u64 = 1u64 << (32 - *bits as u64);
                (a as u64) >= (*s as u64) && (a as u64) < (*s as u64) + size
            })
            .map(|(_, _, m)| *m)
            .collect();
        owners.sort();
        owners.dedup();
        let hits: Vec<&(u32, u32, Vec<u32>)> =
            r.iter().filter(|(s, e, _)| *s <= a && a <= *e).collect();
        if owners.len() >= 2 {
            assert_eq!(hits.len(), 1);
            assert_eq!(hits[0].2, owners);
        } else {
            assert!(hits.is_empty());
        }
    }
    for (_, _, m) in &r {
        assert!(m.len() >= 2);
    }
}

#[test]
fn random_blocks_agree_across_strategies() {
    let bits: Vec<u8> = (0..40u32).map(|i| (8 + (i * 7) % 30) as u8).collect();
    let routers = random_routers(40, &bits);
    let marks: Vec<(u32, u8, u32)> =
        routers.iter().map(|(m, c)| (c.ip, c.subnet_bits, *m)).collect();
    let r = all(&marks);
    for (s, e, m) in &r {
        assert!(s <= e);
        assert!(m.len() >= 2);
    }
}

#[test]
fn after_block() {
    assert_eq!(Cidrv4::new(ip(10, 0, 0, 0), 24).after(), Some(ip(10, 0, 1, 0)));
    assert_eq!(Cidrv4::new(ip(10, 0, 0, 5), 32).after(), Some(ip(10, 0, 0, 6)));
    assert_eq!(Cidrv4::new(0, 0).after(), None);
    assert_eq!(Cidrv4::new(0xFFFF_FF00, 24).after(), None);
    assert_eq!(Cidrv4::new(0x8000_0000, 1).after(), None);
    assert_eq!(Cidrv4::new(0, 1).after(), Some(0x8000_0000));
}

#[test]
fn random_blocks_are_aligned() {
    for bits in [0u8, 1, 8, 16, 24, 31, 32, 40, 255] {
        let c = Cidrv4::random(bits);
        let expected = if bits > 32 { 32 } else { bits };
        assert_eq!(c.subnet_bits, expected);
        let size: u64 = 1u64 << (32 - expected as u64);
        assert_eq!(c.ip as u64 % size, 0);
    }
}

#[test]
fn random_routers_are_numbered() {
    let r = random_routers(5, &vec![3, 50, 16, 0, 32]);
    assert_eq!(r.len(), 5);
    let got: Vec<(u32, u8)> = r.iter().map(|(m, c)| (*m, c.subnet_bits)).collect();
    assert_eq!(got, vec![(0, 3), (1, 32), (2, 16), (3, 0), (4, 32)]);
}

#[test]
fn mark_set_operations() {
    let mut s = MarkSet::new();
    assert_eq!(s.len(), 0);
    s.insert(5);
    s.insert(1);
    s.insert(5);
    s.insert(3);
    assert_eq!(s.to_vec(), vec![1, 3, 5]);
    assert_eq!(s.len(), 3);
    let mut t = MarkSet::new();
    t.insert(4);
    t.insert(1);
    t.insert_all(&s);
    assert_eq!(t.to_vec(), vec![1, 3, 4, 5]);
    assert!(!t.same_as(&s));
    let c = s.copy();
    assert!(c.same_as(&s));
    assert_eq!(c.to_vec(), vec![1, 3, 5]);
}

#[test]
fn overlap_new_keeps_fields() {
    let mut s = MarkSet::new();
    s.insert(2);
    s.insert(9);
    let o = Overlap::new(10, 20, s);
    assert_eq!((o.start, o.end, o.marks.to_vec()), (10, 20, vec![2, 9]));
}

#[test]
fn aligned_rounds_down_to_block() {
    let c = Cidrv4::aligned(ip(10, 0, 0, 200), 25);
    assert_eq!((c.ip, c.subnet_bits), (ip(10, 0, 0, 128), 25));
    let c = Cidrv4::aligned(ip(10, 0, 0, 200), 40);
    assert_eq!((c.ip, c.subnet_bits), (ip(10, 0, 0, 200), 32));
    let c = Cidrv4::aligned(0xFFFF_FFFF, 0);
    assert_eq!((c.ip, c.subnet_bits), (0, 0));
    let c = Cidrv4::aligned(ip(172, 16, 5, 4), 12);
    assert_eq!((c.ip, c.subnet_bits), (ip(172, 16, 0, 0), 12));
}

fn breakpoints(t: &RangeTree) -> Vec<(u32, Vec<u32>)> {
    t.map.iter().map(|b| (b.at, b.marks.to_vec())).collect()
}

#[test]
fn range_tree_starts_with_one_empty_breakpoint() {
    let t = RangeTree::default();
    assert_eq!(breakpoints(&t), vec![(0, vec![])]);
}

#[test]
fn range_tree_splits_around_single_address() {
    let mut t = RangeTree::default();
    t.mark(&Cidrv4::new(0, 0), 1);
    t.mark(&Cidrv4::new(ip(10, 0, 0, 5), 32), 2);
    assert_eq!(
        breakpoints(&t),
        vec![(0, vec![1]), (ip(10, 0, 0, 5), vec![1, 2]), (ip(10, 0, 0, 6), vec![1])]
    );
}

#[test]
fn range_tree_adds_no_breakpoint_past_top() {
    let mut t = RangeTree::default();
    t.mark(&Cidrv4::new(ip(255, 255, 255, 0), 24), 7);
    assert_eq!(breakpoints(&t), vec![(0, vec![]), (ip(255, 255, 255, 0), vec![7])]);
}

#[test]
fn try_new_rejects_bad_blocks() {
    assert!(Cidrv4::try_new(ip(10, 0, 0, 1), 24).is_none());
    assert!(Cidrv4::try_new(0, 33).is_none());
    let c = Cidrv4::try_new(ip(10, 0, 0, 0), 24).unwrap();
    assert_eq!((c.ip, c.subnet_bits), (ip(10, 0, 0, 0), 24));
    assert!(Cidrv4::try_new(ip(10, 0, 0, 1), 32).is_some());
    assert!(Cidrv4::try_new(1, 0).is_none());
}

use uf2conv::regions::{MemoryRegions, Region};

fn region(start: u32, end: u32) -> Region {
    Region { start, end }
}

#[test]
fn new_is_empty() {
    let m = MemoryRegions::new();
    assert!(m.regions.is_empty());
}

#[test]
fn standalone_insert() {
    let mut m = MemoryRegions::new();
    m.add_region(100, 200);
    assert_eq!(m.regions, vec![region(100, 200)]);
}

#[test]
fn adjacent_merge_low_first() {
    let mut m = MemoryRegions::new();
    m.add_region(0, 10);
    m.add_region(10, 20);
    assert_eq!(m.regions, vec![region(0, 20)]);
}

#[test]
fn adjacent_merge_high_first() {
    let mut m = MemoryRegions::new();
    m.add_region(10, 20);
    m.add_region(0, 10);
    assert_eq!(m.regions, vec![region(0, 20)]);
}

#[test]
fn zero_length_skip_on_empty() {
    let mut m = MemoryRegions::new();
    m.add_region(5, 5);
    assert!(m.regions.is_empty());
}

#[test]
fn zero_length_skip_leaves_set_unchanged() {
    let mut m = MemoryRegions::new();
    m.add_region(0, 10);
    m.add_region(20, 30);
    m.add_region(15, 15);
    m.add_region(25, 25);
    assert_eq!(m.regions, vec![region(0, 10), region(20, 30)]);
}

#[test]
fn overlap_merge() {
    let mut m = MemoryRegions::new();
    m.add_region(0, 10);
    m.add_region(5, 15);
    assert_eq!(m.regions, vec![region(0, 15)]);
}

#[test]
fn engulfing_merge() {
    let mut m = MemoryRegions::new();
    m.add_region(0, 5);
    m.add_region(10, 15);
    m.add_region(20, 25);
    m.add_region(2, 22);
    assert_eq!(m.regions, vec![region(0, 25)]);
}

#[test]
fn contained_interval_changes_nothing() {
    let mut m = MemoryRegions::new();
    m.add_region(0, 100);
    m.add_region(40, 60);
    assert_eq!(m.regions, vec![region(0, 100)]);
}

#[test]
fn out_of_order_inserts_stay_sorted() {
    let mut m = MemoryRegions::new();
    m.add_region(200, 300);
    m.add_region(0, 10);
    m.add_region(50, 60);
    assert_eq!(m.regions, vec![region(0, 10), region(50, 60), region(200, 300)]);
}

#[test]
fn gap_of_one_is_kept() {
    let mut m = MemoryRegions::new();
    m.add_region(0, 5);
    m.add_region(6, 10);
    assert_eq!(m.regions, vec![region(0, 5), region(6, 10)]);
}

#[test]
fn non_overlap_invariant_holds() {
    let mut m = MemoryRegions::new();
    let inserts = [
        (30u32, 40u32),
        (0, 10),
        (10, 20),
        (35, 50),
        (100, 101),
        (60, 60),
        (49, 61),
        (0, 1),
    ];
    for (s, e) in inserts {
        m.add_region(s, e);
        for w in m.regions.windows(2) {
            assert!(w[0].end < w[1].start);
        }
        for r in &m.regions {
            assert!(r.start < r.end);
        }
    }
    assert_eq!(m.regions, vec![region(0, 20), region(30, 61), region(100, 101)]);
}

#[test]
fn merge_at_address_space_top() {
    let mut m = MemoryRegions::new();
    m.add_region(0xFFFF_FFF0, 0xFFFF_FFFF);
    m.add_region(0xFFFF_FFE0, 0xFFFF_FFF0);
    assert_eq!(m.regions, vec![region(0xFFFF_FFE0, 0xFFFF_FFFF)]);
}

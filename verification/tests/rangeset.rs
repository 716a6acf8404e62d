use flugzeug::rangeset::{Range, RangeSet};

fn ranges(rs: &RangeSet) -> Vec<(u64, u64)> {
    rs.entries().iter().map(|r| (r.start, r.end)).collect()
}

#[test]
fn insert_remove_test() {
    let mut rs = RangeSet::new();

    rs.insert(Range { start: 0x1000, end: 0x1fff });
    assert_eq!(ranges(&rs), vec![(0x1000, 0x1fff)]);

    rs.insert(Range { start: 0x2000, end: 0x3fff });
    rs.insert(Range { start: 0x8000, end: 0x9fff });
    assert_eq!(ranges(&rs), vec![(0x1000, 0x3fff), (0x8000, 0x9fff)]);

    rs.remove(Range { start: 0x7000, end: 0x10000 });
    assert_eq!(ranges(&rs), vec![(0x1000, 0x3fff)]);

    rs.insert(Range { start: 0x8000, end: 0x9fff });
    rs.remove(Range { start: 0x7000, end: 0x8000 });
    assert_eq!(ranges(&rs), vec![(0x1000, 0x3fff), (0x8001, 0x9fff)]);

    rs.remove(Range { start: 0x9000, end: 0x10000 });
    assert_eq!(ranges(&rs), vec![(0x1000, 0x3fff), (0x8001, 0x8fff)]);

    rs.remove(Range { start: 0x8070, end: 0x8200 });
    assert_eq!(ranges(&rs), vec![(0x1000, 0x3fff), (0x8201, 0x8fff), (0x8001, 0x806f)]);

    rs.insert(Range { start: 0x800, end: 0x10000 });
    assert_eq!(ranges(&rs), vec![(0x800, 0x10000)]);
}

#[test]
fn allocate_test() {
    let mut rs = RangeSet::new();

    rs.insert(Range { start: 0x1000, end: 0x4000 });
    rs.insert(Range { start: 0x80000, end: 0x400000 });
    rs.insert(Range { start: 0x9999111100000, end: 0x9f99111100012 });

    assert_eq!(rs.allocate(0x1000, 0x100), Some(0x1000));
    assert_eq!(
        ranges(&rs),
        vec![(0x2000, 0x4000), (0x80000, 0x400000), (0x9999111100000, 0x9f99111100012)]
    );
}

#[test]
fn allocate_prefers_least_padding() {
    let mut rs = RangeSet::new();
    rs.insert(Range { start: 0x1010, end: 0x3000 });
    rs.insert(Range { start: 0x8000, end: 0x9000 });

    // The second region needs no padding for 0x1000 alignment, the first needs 0xff0 bytes.
    assert_eq!(rs.allocate(0x100, 0x1000), Some(0x8000));
    assert_eq!(ranges(&rs), vec![(0x1010, 0x3000), (0x8100, 0x9000)]);
}

#[test]
fn allocate_pads_and_removes_padding() {
    let mut rs = RangeSet::new();
    rs.insert(Range { start: 0x1010, end: 0x3000 });

    assert_eq!(rs.allocate(0x100, 0x1000), Some(0x2000));
    // The padding in front of the allocation leaves the set as well.
    assert_eq!(ranges(&rs), vec![(0x2100, 0x3000)]);
}

#[test]
fn allocate_rejects_bad_requests() {
    let mut rs = RangeSet::new();
    rs.insert(Range { start: 0x1000, end: 0x1fff });

    assert_eq!(rs.allocate(0, 0x10), None);
    assert_eq!(rs.allocate(0x10, 0), None);
    assert_eq!(rs.allocate(0x10, 0x30), None);
    assert_eq!(rs.allocate(0x2000, 0x1000), None);
    assert_eq!(ranges(&rs), vec![(0x1000, 0x1fff)]);
}

#[test]
fn allocate_limited_respects_maximum() {
    let mut rs = RangeSet::new();
    rs.insert(Range { start: 0x1000, end: 0x1fff });
    rs.insert(Range { start: 0x100000, end: 0x1fffff });

    assert_eq!(rs.allocate_limited(0x1000, 0x1000, Some(0xfff)), None);
    // Equal padding: the region with the smaller start alignment wins.
    assert_eq!(rs.allocate_limited(0x1000, 0x1000, Some(0x200000)), Some(0x1000));
    assert_eq!(ranges(&rs), vec![(0x100000, 0x1fffff)]);
}

#[test]
fn remove_after_insert_restores_set() {
    let mut rs = RangeSet::new();
    rs.insert(Range { start: 0x1000, end: 0x1fff });
    rs.insert(Range { start: 0x5000, end: 0x5fff });
    rs.remove(Range { start: 0x5000, end: 0x5fff });
    assert_eq!(ranges(&rs), vec![(0x1000, 0x1fff)]);
}

#[test]
fn range_size_is_inclusive() {
    assert_eq!(Range { start: 0x1000, end: 0x1fff }.size(), 0x1000);
    assert_eq!(Range { start: 5, end: 5 }.size(), 1);
}

#[test]
fn entry_order_follows_merges_and_splits() {
    let mut rs = RangeSet::new();
    rs.insert(Range { start: 10, end: 20 });
    rs.insert(Range { start: 30, end: 40 });
    rs.insert(Range { start: 50, end: 60 });
    // The merged entry goes to the end; the others keep their order.
    rs.insert(Range { start: 5, end: 12 });
    assert_eq!(ranges(&rs), vec![(30, 40), (50, 60), (5, 20)]);
    // A split keeps the right part in place and puts the left part at the end.
    rs.remove(Range { start: 33, end: 35 });
    assert_eq!(ranges(&rs), vec![(36, 40), (50, 60), (5, 20), (30, 32)]);
    // A trimmed entry stays in place; a covered one is taken out.
    rs.remove(Range { start: 0, end: 7 });
    rs.remove(Range { start: 50, end: 60 });
    assert_eq!(ranges(&rs), vec![(36, 40), (8, 20), (30, 32)]);
}

use exhume::region::{regions_are_disjoint, Region, RegionMap, RegionStatus};

fn statuses(map: &RegionMap) -> Vec<(u64, u64, RegionStatus)> {
    map.regions()
        .iter()
        .map(|r| (r.start, r.length, r.status))
        .collect()
}

fn region(start: u64, length: u64, status: RegionStatus) -> Region {
    Region { start, length, status }
}

#[test]
fn fresh_map_is_one_untried_region() {
    let map = RegionMap::from_total(1000);
    assert_eq!(statuses(&map), vec![(0, 1000, RegionStatus::Untried)]);
}

#[test]
fn empty_total_is_empty_map() {
    let map = RegionMap::from_total(0);
    assert!(map.regions().is_empty());
    assert_eq!(map.covered_end(), 0);
}

#[test]
fn marking_the_front_splits_and_merges() {
    let mut map = RegionMap::from_total(1000);
    map.mark(0, 100, RegionStatus::Done);
    map.mark(100, 100, RegionStatus::Done);
    // Two adjacent Done marks collapse into one region.
    assert_eq!(
        statuses(&map),
        vec![
            (0, 200, RegionStatus::Done),
            (200, 800, RegionStatus::Untried),
        ]
    );
}

#[test]
fn marking_the_middle_bad_splits_into_three() {
    let mut map = RegionMap::from_total(1000);
    map.mark(400, 100, RegionStatus::Bad);
    assert_eq!(
        statuses(&map),
        vec![
            (0, 400, RegionStatus::Untried),
            (400, 100, RegionStatus::Bad),
            (500, 500, RegionStatus::Untried),
        ]
    );
    assert_eq!(map.bytes_with(RegionStatus::Bad), 100);
    assert_eq!(map.bytes_with(RegionStatus::Untried), 900);
}

#[test]
fn remarking_overrides_previous_status() {
    let mut map = RegionMap::from_total(1000);
    map.mark(400, 100, RegionStatus::Bad);
    // A later successful retry of the same block flips it to Done.
    map.mark(400, 100, RegionStatus::Done);
    assert_eq!(map.bytes_with(RegionStatus::Bad), 0);
    assert_eq!(map.bytes_with(RegionStatus::Done), 100);
}

#[test]
fn overlapping_mark_clips_neighbours() {
    let mut map = RegionMap::from_total(1000);
    map.mark(100, 200, RegionStatus::Done); // [100,300) Done
    map.mark(250, 100, RegionStatus::Bad); // overlaps the tail of Done
    assert_eq!(
        statuses(&map),
        vec![
            (0, 100, RegionStatus::Untried),
            (100, 150, RegionStatus::Done),
            (250, 100, RegionStatus::Bad),
            (350, 650, RegionStatus::Untried),
        ]
    );
}

#[test]
fn reconcile_fills_a_grown_domain_as_untried() {
    let mut map = RegionMap::from_total(1000);
    map.mark(0, 1000, RegionStatus::Done);
    map.reconcile(1500);
    assert_eq!(
        statuses(&map),
        vec![
            (0, 1000, RegionStatus::Done),
            (1000, 500, RegionStatus::Untried),
        ]
    );
}

#[test]
fn reconcile_clips_a_shrunk_domain() {
    let mut map = RegionMap::from_total(1000);
    map.mark(900, 100, RegionStatus::Bad);
    map.reconcile(950);
    assert_eq!(
        statuses(&map),
        vec![
            (0, 900, RegionStatus::Untried),
            (900, 50, RegionStatus::Bad),
        ]
    );
}

#[test]
fn reconcile_fills_interior_gaps() {
    // A hand-edited state file may leave holes between regions.
    let mut map = RegionMap::from_regions(vec![region(200, 100, RegionStatus::Done)]);
    map.reconcile(400);
    assert_eq!(
        statuses(&map),
        vec![
            (0, 200, RegionStatus::Untried),
            (200, 100, RegionStatus::Done),
            (300, 100, RegionStatus::Untried),
        ]
    );
}

#[test]
fn reconcile_leaves_a_matching_map_and_unknown_domain_alone() {
    let mut map = RegionMap::from_total(1000);
    map.mark(0, 500, RegionStatus::Done);
    let before = map.clone();
    map.reconcile(1000);
    assert_eq!(map, before);
    map.reconcile(0); // unknown size: untouched
    assert_eq!(map, before);
}

#[test]
fn covers_checks_status_over_a_range() {
    let mut map = RegionMap::from_total(1000);
    map.mark(0, 500, RegionStatus::Done);
    map.mark(200, 100, RegionStatus::Bad);

    assert!(map.covers(0, 200, RegionStatus::Done));
    assert!(map.covers(300, 500, RegionStatus::Done));
    assert!(!map.covers(0, 500, RegionStatus::Done), "bad hole inside");
    assert!(!map.covers(400, 600, RegionStatus::Done), "untried tail");
    assert!(map.covers(200, 300, RegionStatus::Bad));
    assert!(map.covers(100, 100, RegionStatus::Bad), "empty range");
    assert!(
        !map.covers(900, 1100, RegionStatus::Untried),
        "past the end"
    );
}

#[test]
fn from_regions_normalises() {
    let map = RegionMap::from_regions(vec![
        region(100, 100, RegionStatus::Done),
        region(0, 100, RegionStatus::Done),
    ]);
    assert_eq!(statuses(&map), vec![(0, 200, RegionStatus::Done)]);
}

#[test]
fn from_regions_drops_empty_regions_and_sorts() {
    let map = RegionMap::from_regions(vec![
        region(500, 0, RegionStatus::Bad),
        region(300, 50, RegionStatus::Bad),
        region(0, 100, RegionStatus::Done),
        region(100, 50, RegionStatus::Untried),
    ]);
    assert_eq!(
        statuses(&map),
        vec![
            (0, 100, RegionStatus::Done),
            (100, 50, RegionStatus::Untried),
            (300, 50, RegionStatus::Bad),
        ]
    );
    assert_eq!(map.covered_end(), 350);
}

#[test]
fn overlapping_regions_are_told_apart_from_disjoint_ones() {
    let a = region(0, 100, RegionStatus::Done);
    assert!(regions_are_disjoint(&[a, region(100, 5, RegionStatus::Bad)]));
    assert!(!regions_are_disjoint(&[a, region(99, 5, RegionStatus::Bad)]));
    // An empty region overlaps nothing, and an end past u64 is refused.
    assert!(regions_are_disjoint(&[a, region(50, 0, RegionStatus::Bad)]));
    assert!(!regions_are_disjoint(&[region(u64::MAX, 1, RegionStatus::Bad)]));
}

#[test]
fn marks_in_any_order_give_the_same_map() {
    let mut one = RegionMap::from_total(4096);
    one.mark(0, 1024, RegionStatus::Done);
    one.mark(2048, 512, RegionStatus::Bad);
    let mut two = RegionMap::from_total(4096);
    two.mark(2048, 512, RegionStatus::Bad);
    two.mark(512, 512, RegionStatus::Done);
    two.mark(0, 512, RegionStatus::Done);
    assert_eq!(one, two);
}

#[test]
fn a_fully_copied_map_is_one_region() {
    let mut map = RegionMap::from_total(1000);
    map.mark(500, 500, RegionStatus::Done);
    map.mark(0, 250, RegionStatus::Done);
    map.mark(250, 250, RegionStatus::Done);
    assert_eq!(statuses(&map), vec![(0, 1000, RegionStatus::Done)]);
}

#[test]
fn totals_add_up_to_the_domain() {
    let mut map = RegionMap::from_total(1000);
    map.mark(10, 90, RegionStatus::Done);
    map.mark(50, 20, RegionStatus::Bad);
    let sum = map.bytes_with(RegionStatus::Untried)
        + map.bytes_with(RegionStatus::Done)
        + map.bytes_with(RegionStatus::Bad);
    assert_eq!(sum, 1000);
    assert_eq!(map.bytes_with(RegionStatus::Done), 70);
}

#[test]
fn reset_turns_one_status_into_another_and_merges() {
    let mut map = RegionMap::from_total(1000);
    map.mark(0, 400, RegionStatus::Done);
    map.mark(400, 100, RegionStatus::Bad);
    map.reset(RegionStatus::Done, RegionStatus::Untried);
    assert_eq!(
        statuses(&map),
        vec![
            (0, 400, RegionStatus::Untried),
            (400, 100, RegionStatus::Bad),
            (500, 500, RegionStatus::Untried),
        ]
    );
    map.reset(RegionStatus::Bad, RegionStatus::Untried);
    assert_eq!(statuses(&map), vec![(0, 1000, RegionStatus::Untried)]);
}

#[test]
fn next_with_finds_the_first_stretch() {
    let mut map = RegionMap::from_total(1000);
    map.mark(100, 100, RegionStatus::Bad);
    map.mark(300, 50, RegionStatus::Bad);
    assert_eq!(map.next_with(RegionStatus::Bad, 0), Some((100, 200)));
    assert_eq!(map.next_with(RegionStatus::Bad, 200), Some((300, 350)));
    assert_eq!(map.next_with(RegionStatus::Bad, 350), None);
    assert_eq!(map.next_with(RegionStatus::Done, 0), None);
    let listed: Vec<u64> = map
        .regions_with(RegionStatus::Bad)
        .iter()
        .map(|r| r.end())
        .collect();
    assert_eq!(listed, vec![200, 350]);
}

use exhume::mapfile::render;
use exhume::region::{RegionMap, RegionStatus};

#[test]
fn renders_a_partial_rescue() {
    let mut map = RegionMap::from_total(0x4000);
    map.mark(0, 0x1000, RegionStatus::Done);
    map.mark(0x1000, 0x200, RegionStatus::Bad);
    map.mark(0x1200, 0xE00, RegionStatus::Done);

    let text = render(&map, 0);
    let lines: Vec<&str> = text.lines().filter(|l| !l.starts_with('#')).collect();
    assert_eq!(
        lines,
        vec![
            // current_pos = first non-done region; still copying.
            "0x00001000     ?               1",
            "0x00000000  0x00001000  +",
            "0x00001000  0x00000200  -",
            "0x00001200  0x00000E00  +",
            "0x00002000  0x00002000  ?",
        ]
    );
}

#[test]
fn positions_are_shifted_by_skip() {
    let mut map = RegionMap::from_total(0x1000);
    map.mark(0, 0x1000, RegionStatus::Done);

    let text = render(&map, 0x10000);
    let lines: Vec<&str> = text.lines().filter(|l| !l.starts_with('#')).collect();
    assert_eq!(
        lines,
        vec![
            // Everything done: finished status, current_pos at the end.
            "0x00011000     +               1",
            "0x00010000  0x00001000  +",
        ]
    );
}

#[test]
fn the_head_names_the_program_and_the_columns() {
    let text = render(&RegionMap::from_total(0), 0x1_2345_6789);
    assert_eq!(
        text,
        "# Mapfile. Created by exhume 0.1.0\n\
         # current_pos  current_status  current_pass\n\
         0x123456789     +               1\n\
         #      pos        size  status\n"
    );
}

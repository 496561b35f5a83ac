use terrain_impostors::geometry::{check_loc_sequence, enclosing_square, get_group_bounds, get_group_scan_limits, GroupError};
use terrain_impostors::region::RegionData;
use terrain_impostors::regionorder::{AdvanceStatus, ColumnCursor, ColumnCursors, RecentColumnInfo, RecentRegionType, SimpleColumnCursors};
use terrain_impostors::vizgroup::VizGroups;

fn region(x: u32, y: u32, s: u32) -> RegionData {
    RegionData::new("t".to_string(), x, y, s, s, format!("r{}_{}", x, y))
}

fn drain(mut c: ColumnCursors) -> Vec<(u8, u32, u32, u32)> {
    let mut out = Vec::new();
    while let Some(d) = c.next() {
        out.push((d.lod, d.region_coords_x, d.region_coords_y, d.size_x));
    }
    out
}

fn block(n: u32, s: u32) -> Vec<RegionData> {
    let mut v = Vec::new();
    for x in 0..n {
        for y in 0..n {
            v.push(region(x * s, y * s, s));
        }
    }
    v
}

#[test]
fn test_region_order() {
    let pattern: [(u32, u32, u32, u32); 24] = [
        (0, 0, 100, 100), (0, 100, 100, 100), (0, 200, 100, 100), (0, 300, 100, 100),
        (0, 400, 100, 100), (100, 0, 100, 100), (200, 0, 100, 100), (200, 300, 100, 100),
        (300, 0, 100, 100), (300, 300, 100, 100), (400, 0, 100, 100), (500, 0, 100, 100),
        (500, 100, 100, 100), (500, 200, 100, 100), (500, 300, 100, 100), (500, 400, 100, 100),
        (600, 400, 100, 100), (700, 100, 100, 200), (700, 400, 100, 100), (800, 400, 100, 100),
        (900, 100, 100, 100), (900, 200, 100, 100), (900, 300, 100, 100), (900, 400, 100, 100),
    ];
    let mut viz_groups = VizGroups::new(false);
    for (x, y, sx, sy) in pattern.iter() {
        let item = RegionData::new("Test".to_string(), *x, *y, *sx, *sy, "r".to_string());
        let grid_break = viz_groups.add_region_data(item);
        assert_eq!(grid_break, Ok(None));
    }
    let results = viz_groups.end_grid();
    for group in results {
        let mut prev_loc_opt = None;
        for item in &group {
            let loc = (item.region_coords_x, item.region_coords_y);
            if let Some(prev_loc) = prev_loc_opt {
                check_loc_sequence(prev_loc, loc);
            }
            prev_loc_opt = Some(loc);
        }
        match ColumnCursors::new(group.clone()) {
            Ok(c) => {
                let out = drain(c);
                assert!(out.iter().filter(|d| d.0 == 0).count() == group.len());
            }
            Err(e) => assert!(e == GroupError::NotHomogeneous || e == GroupError::Unaligned),
        }
    }
}

#[test]
fn single_region_group_yields_only_lod0() {
    let c = ColumnCursors::new(vec![region(512, 768, 256)]).expect("valid group");
    assert_eq!(drain(c), vec![(0, 512, 768, 256)]);
}

#[test]
fn two_by_two_group_yields_one_lod1() {
    let c = ColumnCursors::new(block(2, 256)).expect("valid group");
    let out = drain(c);
    assert_eq!(out.iter().filter(|d| d.0 == 0).count(), 4);
    assert_eq!(out.iter().filter(|d| d.0 == 1).collect::<Vec<_>>(), vec![&(1, 0, 0, 512)]);
    assert_eq!(out.len(), 5);
    assert_eq!(out[4], (1, 0, 0, 512));
}

#[test]
fn four_by_four_group_order() {
    let c = ColumnCursors::new(block(4, 256)).expect("valid group");
    let out = drain(c);
    let lod0: Vec<_> = out.iter().filter(|d| d.0 == 0).map(|d| (d.1, d.2)).collect();
    let mut expected0 = Vec::new();
    for x in 0..4u32 {
        for y in 0..4u32 {
            expected0.push((x * 256, y * 256));
        }
    }
    assert_eq!(lod0, expected0);
    let lod1: Vec<_> = out.iter().filter(|d| d.0 == 1).map(|d| (d.1, d.2, d.3)).collect();
    assert_eq!(lod1, vec![(0, 0, 512), (0, 512, 512), (512, 0, 512), (512, 512, 512)]);
    let lod2: Vec<_> = out.iter().filter(|d| d.0 == 2).map(|d| (d.1, d.2, d.3)).collect();
    assert_eq!(lod2, vec![(0, 0, 1024)]);
    assert_eq!(out.len(), 21);
    assert_eq!(out[20], (2, 0, 0, 1024));
    // Each coarser tile comes right after the column pair it is built from.
    assert_eq!(out[8], (1, 0, 0, 512));
    assert_eq!(out[9], (1, 0, 512, 512));
    assert_eq!(out[18], (1, 512, 0, 512));
    assert_eq!(out[19], (1, 512, 512, 512));
}

#[test]
fn water_child_still_builds_parent() {
    let regions = vec![region(0, 0, 256), region(0, 256, 256), region(256, 256, 256)];
    let c = ColumnCursors::new(regions).expect("valid group");
    let out = drain(c);
    assert_eq!(out, vec![(0, 0, 0, 256), (0, 0, 256, 256), (0, 256, 256, 256), (1, 0, 0, 512)]);
}

#[test]
fn all_water_parent_is_skipped() {
    // Two far-apart regions: the LOD 1 tiles over empty quadrants are water.
    let regions = vec![region(0, 0, 256), region(768, 768, 256)];
    let c = ColumnCursors::new(regions).expect("valid group");
    let out = drain(c);
    assert_eq!(
        out,
        vec![(0, 0, 0, 256), (1, 0, 0, 512), (0, 768, 768, 256), (1, 512, 512, 512), (2, 0, 0, 1024)]
    );
}

#[test]
fn empty_and_mixed_groups_are_refused() {
    assert_eq!(ColumnCursors::new(vec![]).err(), Some(GroupError::EmptyGroup));
    let mixed = vec![region(0, 0, 256), region(256, 0, 512)];
    assert_eq!(ColumnCursors::new(mixed).err(), Some(GroupError::NotHomogeneous));
    let unaligned = vec![region(0, 0, 256), region(300, 0, 256)];
    assert_eq!(ColumnCursors::new(unaligned).err(), Some(GroupError::Unaligned));
    let unordered = vec![region(256, 0, 256), region(0, 0, 256)];
    assert_eq!(ColumnCursors::new(unordered).err(), Some(GroupError::UnorderedInput));
}

#[test]
fn simple_cursors_give_lod0_in_order() {
    let regions = vec![region(0, 0, 256), region(256, 0, 512)];
    let mut c = SimpleColumnCursors::new(regions.clone());
    assert_eq!(c.next(), Some(regions[0].clone()));
    assert_eq!(c.next(), Some(regions[1].clone()));
    assert_eq!(c.next(), None);
}

#[test]
fn group_bounds_of_members() {
    let g = vec![region(256, 512, 256), region(0, 768, 256), region(512, 0, 256)];
    assert_eq!(get_group_bounds(&g), Ok(((0, 0), (768, 1024))));
    assert_eq!(get_group_bounds(&vec![]), Err(GroupError::EmptyGroup));
}

#[test]
fn enclosing_square_examples() {
    assert_eq!(enclosing_square((0, 0), (1, 1)), Ok((0, (0, 0), (1, 1))));
    assert_eq!(enclosing_square((0, 0), (4, 4)), Ok((2, (0, 0), (4, 4))));
    // Cells 1..3 straddle the 2-aligned boundary, so a 4-square is needed.
    assert_eq!(enclosing_square((1, 1), (3, 3)), Ok((2, (0, 0), (4, 4))));
    assert_eq!(enclosing_square((5, 2), (6, 3)), Ok((0, (5, 2), (6, 3))));
    assert_eq!(enclosing_square((0, 0), (70000, 1)), Err(GroupError::BoundsTooLarge));
}

#[test]
fn scan_limits_round_outwards() {
    assert_eq!(get_group_scan_limits(((0, 0), (1024, 1024)), (256, 256), 0), ((0, 0), (1024, 1024), (256, 256)));
    assert_eq!(get_group_scan_limits(((300, 700), (1000, 900)), (256, 256), 1), ((0, 512), (1024, 1024), (512, 512)));
}

#[test]
fn loc_sequence_accepts_increasing() {
    check_loc_sequence((0, 0), (0, 1));
    check_loc_sequence((0, 5), (1, 0));
}

#[test]
fn column_info_rows_and_cells() {
    let info = RecentColumnInfo::new(((0, 256), (512, 768)), (256, 256), 2);
    assert_eq!(info.try_calc_y_index(256), Some(0));
    assert_eq!(info.try_calc_y_index(600), Some(1));
    assert_eq!(info.try_calc_y_index(768), None);
    assert_eq!(info.try_calc_y_index(0), None);
    assert_eq!(info.calc_y_index(700), 1);
    assert!(!info.is_full_coverage());
    assert_eq!(info.test_cell((0, 256)), RecentRegionType::Unknown);
    assert_eq!(info.test_cell((256, 256)), RecentRegionType::Water);

    let mut c = ColumnCursor::new(((0, 0), (512, 512)), (256, 256), 2, 0, "t".to_string());
    assert!(c.mark_as_land((0, 256)));
    // Not at a cell corner: nothing is marked.
    assert!(!c.mark_as_land((0, 100)));
    // The column is full (water below, land on top): a later column shifts
    // it and marks the cell there.
    assert!(c.mark_as_land((256, 0)));
    // A column break with the last cell unknown finishes the column only.
    assert!(!c.mark_as_land((512, 0)));
    c.column_finished();
}

#[test]
fn advance_lod_0_walks_the_regions() {
    let regions = vec![region(0, 0, 256), region(0, 256, 256), region(256, 256, 256)];
    let mut c = ColumnCursor::new(((0, 0), (512, 512)), (256, 256), 2, 0, "t".to_string());
    assert!(matches!(c.advance_lod_0(&regions), AdvanceStatus::Data(d) if d == regions[0]));
    assert!(matches!(c.advance_lod_0(&regions), AdvanceStatus::Data(d) if d == regions[1]));
    assert!(matches!(c.advance_lod_0(&regions), AdvanceStatus::Data(d) if d == regions[2]));
    assert!(matches!(c.advance_lod_0(&regions), AdvanceStatus::Idle));
    let gap = vec![region(0, 0, 256), region(256, 0, 256)];
    let mut c = ColumnCursor::new(((0, 0), (512, 512)), (256, 256), 2, 0, "t".to_string());
    assert!(matches!(c.advance_lod_0(&gap), AdvanceStatus::Data(_)));
    // The column's top cell is unknown: the column is finished first.
    assert!(matches!(c.advance_lod_0(&gap), AdvanceStatus::Progress));
    assert!(matches!(c.advance_lod_0(&gap), AdvanceStatus::Data(d) if d == gap[1]));
}

#[test]
fn four_cells_decide_parent() {
    let info = RecentColumnInfo::new(((0, 0), (512, 512)), (256, 256), 2);
    assert_eq!(info.test_four_cells((0, 0)), RecentRegionType::Unknown);
    assert_eq!(info.parent_states(), vec![RecentRegionType::Unknown]);
}

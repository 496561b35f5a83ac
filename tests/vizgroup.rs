use terrain_impostors::region::RegionData;
use terrain_impostors::vizgroup::{order_groups_by_size, CompletedGroups, VizError, VizGroups};

fn region(grid: &str, x: u32, y: u32, sx: u32, sy: u32, name: &str) -> RegionData {
    RegionData::new(grid.to_string(), x, y, sx, sy, name.to_string())
}

fn run_groups(corners: bool, items: Vec<RegionData>) -> CompletedGroups {
    let mut viz_groups = VizGroups::new(corners);
    for item in items {
        let grid_break = viz_groups.add_region_data(item);
        assert_eq!(grid_break, Ok(None));
    }
    viz_groups.end_grid()
}

fn sorted_sizes(groups: &CompletedGroups) -> Vec<usize> {
    let mut sizes: Vec<usize> = groups.iter().map(|g| g.len()).collect();
    sizes.sort();
    sizes.reverse();
    sizes
}

const TEST_PATTERN: [(&str, u32, u32, u32, u32, &str); 24] = [
    ("Test", 0, 0, 100, 100, "Bottom left"),
    ("Test", 0, 100, 100, 100, "Left 100"),
    ("Test", 0, 200, 100, 100, "Left 200"),
    ("Test", 0, 300, 100, 100, "Left 300"),
    ("Test", 0, 400, 100, 100, "Left 400"),
    ("Test", 100, 0, 100, 100, "Bottom 100"),
    ("Test", 200, 0, 100, 100, "Bottom 200"),
    ("Test", 200, 300, 100, 100, "Tiny West"),
    ("Test", 300, 0, 100, 100, "Bottom 300"),
    ("Test", 300, 300, 100, 100, "Tiny East"),
    ("Test", 400, 0, 100, 100, "Bottom 400"),
    ("Test", 500, 0, 100, 100, "Bottom 500"),
    ("Test", 500, 100, 100, 100, "Column 5-1"),
    ("Test", 500, 200, 100, 100, "Column 5-2"),
    ("Test", 500, 300, 100, 100, "Column 5-3"),
    ("Test", 500, 400, 100, 100, "Column 5-4"),
    ("Test", 600, 400, 100, 100, "Top 600"),
    ("Test", 700, 100, 100, 200, "Tall skinny region"),
    ("Test", 700, 400, 100, 100, "Top 700"),
    ("Test", 800, 400, 100, 100, "Top 800"),
    ("Test", 900, 100, 100, 100, "Right 100"),
    ("Test", 900, 200, 100, 100, "Right 200"),
    ("Test", 900, 300, 100, 100, "Right 300"),
    ("Test", 900, 400, 100, 100, "Right 400"),
];

fn test_pattern() -> Vec<RegionData> {
    TEST_PATTERN
        .iter()
        .map(|(grid, x, y, sx, sy, name)| region(grid, *x, *y, *sx, *sy, name))
        .collect()
}

#[test]
fn test_visgroup() {
    let mut viz_groups = VizGroups::new(false);
    for item in test_pattern() {
        let grid_break = viz_groups.add_region_data(item);
        //  This example is all one grid, so there's no control break.
        assert_eq!(grid_break, Ok(None));
    }
    let results = viz_groups.end_grid();
    assert_eq!(results.len(), 3); // 3 groups in this test case.
}

#[test]
fn three_component_pattern_group_sizes() {
    // The two tiny blocks share an edge, and the tall block touches nothing.
    let results = run_groups(false, test_pattern());
    assert_eq!(sorted_sizes(&results), vec![21, 2, 1]);
    let total: usize = results.iter().map(|g| g.len()).sum();
    assert_eq!(total, 24);
}

#[test]
fn plus_pattern_is_one_group() {
    let items = vec![
        region("t", 0, 100, 100, 100, "w"),
        region("t", 100, 0, 100, 100, "s"),
        region("t", 100, 100, 100, 100, "c"),
        region("t", 100, 200, 100, 100, "n"),
        region("t", 200, 100, 100, 100, "e"),
    ];
    let results = run_groups(false, items);
    assert_eq!(results.len(), 1);
    assert_eq!(results[0].len(), 5);
}

#[test]
fn diagonal_pair_without_corners() {
    let items = vec![region("t", 0, 0, 100, 100, "a"), region("t", 100, 100, 100, 100, "b")];
    let results = run_groups(false, items);
    assert_eq!(sorted_sizes(&results), vec![1, 1]);
}

#[test]
fn diagonal_pair_with_corners() {
    let items = vec![region("t", 0, 0, 100, 100, "a"), region("t", 100, 100, 100, 100, "b")];
    let results = run_groups(true, items);
    assert_eq!(sorted_sizes(&results), vec![2]);
}

#[test]
fn grid_change_returns_previous_grid() {
    let mut viz_groups = VizGroups::new(false);
    assert_eq!(viz_groups.add_region_data(region("a", 0, 0, 256, 256, "a1")), Ok(None));
    assert_eq!(viz_groups.add_region_data(region("a", 256, 0, 256, 256, "a2")), Ok(None));
    let done = viz_groups.add_region_data(region("b", 0, 0, 256, 256, "b1"));
    let groups = done.expect("ordered").expect("grid break");
    assert_eq!(groups.len(), 1);
    assert_eq!(groups[0].len(), 2);
    let rest = viz_groups.end_grid();
    assert_eq!(rest.len(), 1);
    assert_eq!(rest[0][0].grid, "b");
}

#[test]
fn unordered_input_is_refused() {
    let mut viz_groups = VizGroups::new(false);
    assert_eq!(viz_groups.add_region_data(region("a", 256, 0, 256, 256, "a2")), Ok(None));
    assert_eq!(viz_groups.add_region_data(region("a", 0, 0, 256, 256, "a1")), Err(VizError::UnorderedInput));
    let groups = viz_groups.end_grid();
    assert_eq!(groups.len(), 1);
}

#[test]
fn duplicate_region_is_collapsed() {
    let mut viz_groups = VizGroups::new(false);
    assert_eq!(viz_groups.add_region_data(region("a", 0, 0, 256, 256, "a")), Ok(None));
    assert_eq!(viz_groups.add_region_data(region("a", 0, 0, 256, 256, "a")), Ok(None));
    let groups = viz_groups.end_grid();
    assert_eq!(groups.len(), 1);
    assert_eq!(groups[0].len(), 1);
}

#[test]
fn empty_grid_has_no_groups() {
    let mut viz_groups = VizGroups::new(false);
    assert_eq!(viz_groups.end_grid().len(), 0);
}

#[test]
fn groups_are_sorted_by_location() {
    let results = run_groups(false, test_pattern());
    for group in &results {
        for w in group.windows(2) {
            let a = (w[0].region_coords_x, w[0].region_coords_y);
            let b = (w[1].region_coords_x, w[1].region_coords_y);
            assert!(a < b);
        }
    }
}

#[test]
fn groups_ordered_largest_first() {
    let results = run_groups(false, test_pattern());
    let ordered = order_groups_by_size(results);
    let sizes: Vec<usize> = ordered.iter().map(|g| g.len()).collect();
    assert_eq!(sizes, vec![21, 2, 1]);
    assert_eq!(ordered[2][0].name, "Tall skinny region");
}

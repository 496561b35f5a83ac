use terrain_impostors::sculpt::{content_hash, sculpt_resample};
use terrain_impostors::heightgrid::{HeightError, HeightGrid};

/// A grid from rows listed bottom to top, each running along X.
fn from_rows(rows: &Vec<Vec<f32>>) -> HeightGrid<f32> {
    let ny = rows.len();
    let nx = rows[0].len();
    let mut samples = Vec::new();
    for x in 0..nx {
        for y in 0..ny {
            samples.push(rows[y][x]);
        }
    }
    HeightGrid::from_samples(nx, ny, samples).expect("valid grid")
}

#[test]
fn test_combine() {
    let ll = vec![
        vec![101.0, 102.0, 103.0, 104.0, 105.0],
        vec![201.0, 202.0, 203.0, 204.0, 205.0],
        vec![301.0, 302.0, 303.0, 304.0, 305.0],
        vec![401.0, 402.0, 403.0, 404.0, 405.0],
        vec![501.0, 502.0, 503.0, 504.0, 505.0]];
    let lr = vec![
        vec![105.0, 106.0, 107.0, 108.0, 109.0],
        vec![205.0, 206.0, 207.0, 208.0, 209.0],
        vec![305.0, 306.0, 307.0, 308.0, 309.0],
        vec![405.0, 406.0, 407.0, 408.0, 409.0],
        vec![505.0, 506.0, 507.0, 508.0, 509.0]];
    let ul = vec![
        vec![501.0, 502.0, 503.0, 504.0, 505.0],
        vec![601.0, 602.0, 603.0, 604.0, 605.0],
        vec![701.0, 702.0, 703.0, 704.0, 705.0],
        vec![801.0, 802.0, 803.0, 804.0, 805.0],
        vec![901.0, 902.0, 903.0, 904.0, 905.0]];
    let ur = vec![
        vec![505.0, 506.0, 507.0, 508.0, 509.0],
        vec![605.0, 606.0, 607.0, 608.0, 609.0],
        vec![705.0, 706.0, 707.0, 708.0, 709.0],
        vec![805.0, 806.0, 807.0, 808.0, 809.0],
        vec![905.0, 906.0, 907.0, 908.0, 909.0]];
    let quadrants = [Some(from_rows(&ll)), Some(from_rows(&lr)), Some(from_rows(&ul)), Some(from_rows(&ur))];
    let combined = HeightGrid::combine(&quadrants, 0.0).expect("HeightGrid combine failed");
    assert_eq!(combined.num_x(), 9);
    assert_eq!(combined.num_y(), 9);
    for x in 0..combined.num_x() {
        for y in 0..combined.num_y() {
            let expected = x as f32 + 1.0 + (y as f32 + 1.0) * 100.0;
            let actual = combined.get(x, y);
            if expected != actual {
                panic!("Test combine failed at ({}, {}): expected {}, actual {}", x, y, expected, actual);
            }
        }
    }
}

fn ramp(nx: usize, ny: usize, base: i64) -> HeightGrid<i64> {
    let mut samples = Vec::new();
    for x in 0..nx {
        for y in 0..ny {
            samples.push(base + (x as i64) * 1000 + y as i64);
        }
    }
    HeightGrid::from_samples(nx, ny, samples).expect("valid grid")
}

#[test]
fn missing_quadrant_is_filled() {
    let a = ramp(3, 3, 0);
    let quadrants = [Some(a.clone()), None, Some(ramp(3, 3, 50)), None];
    let combined = HeightGrid::combine(&quadrants, -7).expect("combine");
    assert_eq!(combined.num_x(), 5);
    assert_eq!(combined.num_y(), 5);
    assert_eq!(combined.get(0, 0), 0);
    assert_eq!(combined.get(2, 1), 2001);
    // Lower right is missing: its samples past the shared column are fill.
    assert_eq!(combined.get(3, 0), -7);
    assert_eq!(combined.get(4, 1), -7);
    // Upper left overwrites the shared row.
    assert_eq!(combined.get(1, 2), 50 + 1000);
    assert_eq!(combined.get(4, 4), -7);
}

#[test]
fn combine_errors() {
    let none: [Option<HeightGrid<i64>>; 4] = [None, None, None, None];
    assert_eq!(HeightGrid::combine(&none, 0).err(), Some(HeightError::EmptyCombine));
    let mixed = [Some(ramp(3, 3, 0)), Some(ramp(5, 5, 0)), None, None];
    assert_eq!(HeightGrid::combine(&mixed, 0).err(), Some(HeightError::DimensionMismatch));
    assert_eq!(HeightGrid::from_samples(3, 3, vec![0i64; 8]).err(), Some(HeightError::InvalidDimensions));
    assert_eq!(HeightGrid::<i64>::from_samples(0, 3, vec![]).err(), Some(HeightError::InvalidDimensions));
}

#[test]
fn halve_keeps_edges() {
    let g = ramp(5, 3, 0);
    let h = g.halve();
    assert_eq!((h.num_x(), h.num_y()), (3, 2));
    assert_eq!(h.get(0, 0), 0);
    assert_eq!(h.get(2, 0), 4000);
    assert_eq!(h.get(1, 1), 2002);
    assert_eq!(h.get(2, 1), 4002);
}

#[test]
fn halve_then_combine_equals_combine_then_halve() {
    // Four neighbouring 5 by 5 tiles cut from one 9 by 9 field.
    let whole = ramp(9, 9, 0);
    let tile = |x0: usize, y0: usize| {
        let mut s = Vec::new();
        for x in 0..5 {
            for y in 0..5 {
                s.push(whole.get(x0 + x, y0 + y));
            }
        }
        HeightGrid::from_samples(5, 5, s).expect("tile")
    };
    let tiles = [Some(tile(0, 0)), Some(tile(4, 0)), Some(tile(0, 4)), Some(tile(4, 4))];
    let combined = HeightGrid::combine(&tiles, 0).expect("combine");
    assert_eq!(combined, whole);
    let halves = [
        Some(tile(0, 0).halve()),
        Some(tile(4, 0).halve()),
        Some(tile(0, 4).halve()),
        Some(tile(4, 4).halve()),
    ];
    let a = HeightGrid::combine(&halves, 0).expect("combine halves");
    assert_eq!(a, combined.halve());
    assert_eq!(a, whole.halve());
}

#[test]
fn height_grid_dimensions_must_be_odd() {
    assert_eq!(HeightGrid::from_samples(4, 3, vec![0i64; 12]).err(), Some(HeightError::InvalidDimensions));
    assert_eq!(HeightGrid::from_samples(1, 1, vec![0i64; 1]).err(), Some(HeightError::InvalidDimensions));
    assert!(HeightGrid::from_samples(3, 5, vec![0i64; 15]).is_ok());
}

#[test]
fn sculpt_resample_keeps_peaks() {
    // 3 by 3 with one peak in the middle.
    let g = HeightGrid::from_samples(3, 3, vec![0u8, 0, 0, 0, 200, 0, 0, 0, 0]).expect("grid");
    let r = sculpt_resample(&g);
    assert_eq!((r.num_x(), r.num_y()), (64, 64));
    // Output 0 reads source rows 0 and 0; output 1 reads 0 and 1 (ceil of 3/64).
    assert_eq!(r.get(0, 0), 0);
    assert_eq!(r.get(1, 1), 200);
    assert_eq!(r.get(63, 63), 0);
    assert_eq!(r.get(40, 20), 200);
    // FNV-1a reference values.
    assert_eq!(content_hash(&vec![]), 0x811c9dc5);
    assert_eq!(content_hash(&b"a".to_vec()), 0xe40c292c);
    assert_eq!(content_hash(&b"foobar".to_vec()), 0xbf9cf968);
}

//! Ordering of impostor tiles over levels of detail.
//!
//! The regions of a viz group arrive sorted by (x, y). LOD 0 tiles are the
//! regions themselves; a LOD k tile covers a 2 by 2 block of LOD k-1 tiles.
//! The scheduler sweeps across the group column by column, keeping for each
//! LOD only its current and its previous column of cell states. When a LOD's
//! odd column is complete, the pair of columns decides the next coarser
//! column: a coarser cell is land if any of its four children is land, and
//! each land cell is emitted as a tile. All-water cells are not emitted.
use vstd::prelude::*;
use crate::region::RegionData;
use crate::geometry::{get_group_bounds, enclosing_square, homogeneous, all_wf, is_group_bounds, square_fits, round_down, pow2, lemma_pow2_mono, GroupError, MAX_LOD, loc_before};

verus! {

/// What is known of one cell.
#[derive(Debug, Clone, Copy, PartialEq, Eq, Structural)]
pub enum RecentRegionType {
    /// Not checked yet
    Unknown,
    /// Empty water
    Water,
    /// Land
    Land,
}

/// a * s + s <= n * s when a < n.
proof fn lemma_cell_fits(a: int, n: int, s: int)
    requires
        0 <= a < n,
        s >= 0,
    ensures
        0 <= a * s,
        a * s + s <= n * s,
{
    assert(0 <= a * s) by (nonlinear_arith)
        requires 0 <= a, s >= 0;
    assert(a * s + s <= n * s) by (nonlinear_arith)
        requires 0 <= a < n, s >= 0;
}

/// Four child states decide the parent: unknown if any child is unknown,
/// water if all are water, land otherwise.
pub open spec fn quad_status(a: RecentRegionType, b: RecentRegionType, c: RecentRegionType, d: RecentRegionType) -> RecentRegionType {
    if a == RecentRegionType::Unknown || b == RecentRegionType::Unknown || c == RecentRegionType::Unknown || d == RecentRegionType::Unknown {
        RecentRegionType::Unknown
    } else if a == RecentRegionType::Water && b == RecentRegionType::Water && c == RecentRegionType::Water && d == RecentRegionType::Water {
        RecentRegionType::Water
    } else {
        RecentRegionType::Land
    }
}

/// The most recent two columns of one LOD.
/// This is how we decide which coarser tiles get impostored, and when.
#[derive(Debug)]
pub struct RecentColumnInfo {
    /// Impostor tile size at this LOD. Meters.
    size: (u32, u32),
    /// Lower left of the current column. Meters.
    start: (u32, u32),
    /// Bounds of the whole square at this LOD. Meters.
    lod_bounds: ((u32, u32), (u32, u32)),
    /// Cell states of the current column
    current: Vec<RecentRegionType>,
    /// Cell states of the previous column
    previous: Vec<RecentRegionType>,
    /// Index of the current column, counted from the left edge of the bounds
    column: usize,
    /// True if this LOD needs only one tile to cover the entire area
    full_coverage: bool,
}

impl RecentColumnInfo {
    /// Tile size.
    pub closed spec fn tile_size(&self) -> (u32, u32) {
        self.size
    }

    /// Lower left of the current column.
    pub closed spec fn column_start(&self) -> (u32, u32) {
        self.start
    }

    /// Bounds of the square.
    pub closed spec fn bounds(&self) -> ((u32, u32), (u32, u32)) {
        self.lod_bounds
    }

    /// The row holding `y`, if it is inside the column.
    pub open spec fn try_y_index(&self, y: u32) -> Option<usize> {
        if y >= self.bounds().0.1 && (y - self.bounds().0.1) / (self.tile_size().1 as int) < self.current_column().len() {
            Some(((y - self.bounds().0.1) / (self.tile_size().1 as int)) as usize)
        } else {
            None::<usize>
        }
    }

    /// The row whose cell starts exactly at `y`, if there is one.
    pub open spec fn exact_row(&self, y: u32) -> Option<usize> {
        match self.try_y_index(y) {
            Some(r) => if self.bounds().0.1 + r * self.tile_size().1 == y { Some(r) } else { None::<usize> },
            None => None::<usize>,
        }
    }

    /// Index of the current column.
    pub closed spec fn column_index(&self) -> int {
        self.column as int
    }

    /// States of the current column.
    pub closed spec fn current_column(&self) -> Seq<RecentRegionType> {
        self.current@
    }

    /// States of the previous column.
    pub closed spec fn previous_column(&self) -> Seq<RecentRegionType> {
        self.previous@
    }

    /// Columns are as long as the square is high, in tiles.
    pub closed spec fn wf(&self) -> bool {
        &&& self.size.0 > 0
        &&& self.size.1 > 0
        &&& self.current@.len() == self.previous@.len()
        &&& self.current@.len() > 0
        &&& self.lod_bounds.0.1 + self.current@.len() * self.size.1 == self.lod_bounds.1.1
        &&& self.lod_bounds.0.0 + self.current@.len() * self.size.0 == self.lod_bounds.1.0
        &&& self.start.1 == self.lod_bounds.0.1
        &&& self.column <= self.current@.len()
        &&& self.start.0 == self.lod_bounds.0.0 + self.column * self.size.0
        &&& self.full_coverage == (self.current@.len() == 1 && self.lod_bounds.0.0 + self.size.0 >= self.lod_bounds.1.0)
        &&& self.lod_bounds.1.0 <= u32::MAX
        &&& self.lod_bounds.1.1 <= u32::MAX
    }

    /// New. Sizes the recent column info for one LOD, with both columns
    /// unknown, the current column at the left edge of the bounds.
    pub fn new(lod_bounds: ((u32, u32), (u32, u32)), size: (u32, u32), rows: usize) -> (r: RecentColumnInfo)
        requires
            size.0 > 0,
            size.1 > 0,
            rows > 0,
            lod_bounds.0.1 + rows * size.1 == lod_bounds.1.1,
            lod_bounds.0.0 + rows * size.0 == lod_bounds.1.0,
            lod_bounds.1.0 <= u32::MAX,
            lod_bounds.1.1 <= u32::MAX,
        ensures
            r.wf(),
            r.tile_size() == size,
            r.bounds() == lod_bounds,
            r.column_start() == lod_bounds.0,
            r.column_index() == 0,
            r.current_column() == Seq::new(rows as nat, |i: int| RecentRegionType::Unknown),
            r.previous_column() == Seq::new(rows as nat, |i: int| RecentRegionType::Unknown),
    {
        let current = unknown_column(rows);
        let previous = unknown_column(rows);
        let full_coverage = rows == 1 && lod_bounds.0.0 as u64 + size.0 as u64 >= lod_bounds.1.0 as u64;
        RecentColumnInfo { size, start: lod_bounds.0, lod_bounds, current, previous, column: 0, full_coverage }
    }

    /// Array index for a Y value, if it is inside the column.
    pub fn try_calc_y_index(&self, y: u32) -> (r: Option<usize>)
        requires
            self.wf(),
        ensures
            r == (if y >= self.bounds().0.1 && (y - self.bounds().0.1) / (self.tile_size().1 as int) < self.current_column().len() {
                Some(((y - self.bounds().0.1) / (self.tile_size().1 as int)) as usize)
            } else {
                None::<usize>
            }),
    {
        let ll_y = self.lod_bounds.0.1;
        if y >= ll_y {
            let yix = ((y - ll_y) / self.size.1) as usize;
            if yix < self.current.len() {
                Some(yix)
            } else {
                None
            }
        } else {
            None
        }
    }

    /// As above, for a Y value known to be inside the column.
    pub fn calc_y_index(&self, y: u32) -> (r: usize)
        requires
            self.wf(),
            y >= self.bounds().0.1,
            y < self.bounds().1.1,
        ensures
            r == (y - self.bounds().0.1) / (self.tile_size().1 as int),
            r < self.current_column().len(),
    {
        let ll_y = self.lod_bounds.0.1;
        let yix = ((y - ll_y) / self.size.1) as usize;
        proof {
            let d = y - ll_y;
            let n = self.current@.len() as int;
            let s = self.size.1 as int;
            assert(d < n * s);
            assert(d / s < n) by (nonlinear_arith)
                requires 0 <= d < n * s, s > 0;
        }
        yix
    }

    /// Shift the current column to the previous one and start a new,
    /// unknown current column one tile to the right.
    fn shift(&mut self)
        requires
            old(self).wf(),
            old(self).column < old(self).current@.len(),
        ensures
            final(self).column == old(self).column + 1,
            final(self).wf(),
            final(self).size == old(self).size,
            final(self).lod_bounds == old(self).lod_bounds,
            final(self).full_coverage == old(self).full_coverage,
            final(self).start.0 == old(self).start.0 + old(self).size.0,
            final(self).start.1 == old(self).start.1,
            final(self).previous@ == old(self).current@,
            final(self).current@ == Seq::new(old(self).current@.len(), |i: int| RecentRegionType::Unknown),
    {
        let rows = self.current.len();
        proof {
            lemma_cell_fits(self.column as int, rows as int, self.size.0 as int);
        }
        let mut fresh = unknown_column(rows);
        std::mem::swap(&mut self.current, &mut fresh);
        self.previous = fresh;
        let ghost c0 = self.column as int;
        let ghost x0 = self.start.0 as int;
        self.start = (self.start.0 + self.size.0, self.start.1);
        self.column = self.column + 1;
        proof {
            let c = self.column as int;
            let sz = self.size.0 as int;
            let l = self.lod_bounds.0.0 as int;
            assert(x0 + sz == l + c * sz) by (nonlinear_arith)
                requires x0 == l + c0 * sz, c == c0 + 1;
        }
    }

    /// Does one tile of this LOD cover the whole square?
    pub fn is_full_coverage(&self) -> (r: bool)
        requires
            self.wf(),
        ensures
            r == (self.current_column().len() == 1 && self.bounds().0.0 + self.tile_size().0 >= self.bounds().1.0),
    {
        self.full_coverage
    }

    /// State of the cell whose lower left is `loc`: in the current column,
    /// in the previous one, or else water. Rows outside the square are water.
    pub fn test_cell(&self, loc: (u64, u64)) -> (r: RecentRegionType)
        requires
            self.wf(),
        ensures
            r == self.cell_at(loc),
    {
        let (x, y) = loc;
        let ll_y = self.lod_bounds.0.1 as u64;
        if y < ll_y {
            return RecentRegionType::Water;
        }
        let yix = (y - ll_y) / (self.size.1 as u64);
        if x == self.start.0 as u64 {
            if yix < self.current.len() as u64 {
                self.current[yix as usize]
            } else {
                RecentRegionType::Water
            }
        } else if x < self.start.0 as u64 && self.start.0 as u64 - x == self.size.0 as u64 {
            if yix < self.previous.len() as u64 {
                self.previous[yix as usize]
            } else {
                RecentRegionType::Water
            }
        } else {
            RecentRegionType::Water
        }
    }

    /// What `test_cell` reports: the state of the row holding y in the
    /// current column when x is its left edge, in the previous column when x
    /// is one tile further left, and water otherwise or outside the rows.
    pub open spec fn cell_at(&self, loc: (u64, u64)) -> RecentRegionType {
        let (x, y) = loc;
        let yix = (y - self.bounds().0.1) / (self.tile_size().1 as int);
        if y < self.bounds().0.1 {
            RecentRegionType::Water
        } else if x == self.column_start().0 {
            if yix < self.current_column().len() { self.current_column()[yix] } else { RecentRegionType::Water }
        } else if x + self.tile_size().0 == self.column_start().0 {
            if yix < self.previous_column().len() { self.previous_column()[yix] } else { RecentRegionType::Water }
        } else {
            RecentRegionType::Water
        }
    }

    /// State of the 2 by 2 block of cells whose lower left is `loc`.
    /// The next coarser LOD uses this to decide what to do.
    pub fn test_four_cells(&self, loc: (u64, u64)) -> (r: RecentRegionType)
        requires
            self.wf(),
            loc.0 <= u32::MAX,
            loc.1 <= u32::MAX,
        ensures
            r == quad_status(
                self.cell_at(loc),
                self.cell_at((loc.0, (loc.1 + self.tile_size().1) as u64)),
                self.cell_at(((loc.0 + self.tile_size().0) as u64, loc.1)),
                self.cell_at(((loc.0 + self.tile_size().0) as u64, (loc.1 + self.tile_size().1) as u64)),
            ),
    {
        let (x, y) = loc;
        let sx = self.size.0 as u64;
        let sy = self.size.1 as u64;
        let s00 = self.test_cell((x, y));
        let s01 = self.test_cell((x, y + sy));
        let s10 = self.test_cell((x + sx, y));
        let s11 = self.test_cell((x + sx, y + sy));
        if s00 == RecentRegionType::Unknown || s01 == RecentRegionType::Unknown
            || s10 == RecentRegionType::Unknown || s11 == RecentRegionType::Unknown {
            return RecentRegionType::Unknown;
        }
        if s00 == RecentRegionType::Water && s01 == RecentRegionType::Water
            && s10 == RecentRegionType::Water && s11 == RecentRegionType::Water {
            return RecentRegionType::Water;
        }
        RecentRegionType::Land
    }
}

impl RecentColumnInfo {
    /// States of the next coarser LOD's column built from this LOD's
    /// previous and current columns: one state per pair of rows.
    pub fn parent_states(&self) -> (r: Vec<RecentRegionType>)
        requires
            self.wf(),
        ensures
            r@.len() == self.current_column().len() / 2,
            forall|i: int| 0 <= i < r@.len() ==> #[trigger] r@[i] == quad_status(
                self.previous_column()[2 * i], self.previous_column()[2 * i + 1],
                self.current_column()[2 * i], self.current_column()[2 * i + 1]),
    {
        let len = self.current.len();
        let half = len / 2;
        let mut out: Vec<RecentRegionType> = Vec::new();
        let mut i: usize = 0;
        while i < half
            invariant
                self.wf(),
                len == self.current@.len(),
                half == len / 2,
                0 <= i <= half,
                out@.len() == i,
                forall|j: int| 0 <= j < i ==> #[trigger] out@[j] == quad_status(
                    self.previous@[2 * j], self.previous@[2 * j + 1],
                    self.current@[2 * j], self.current@[2 * j + 1]),
            decreases half - i,
        {
            assert(2 * i + 1 < self.current@.len());
            let lo = i + i;
            let s = quad_of(self.previous[lo], self.previous[lo + 1], self.current[lo], self.current[lo + 1]);
            out.push(s);
            i += 1;
        }
        out
    }
}

/// The state of a 2 by 2 block from its four cells.
fn quad_of(a: RecentRegionType, b: RecentRegionType, c: RecentRegionType, d: RecentRegionType) -> (r: RecentRegionType)
    ensures
        r == quad_status(a, b, c, d),
{
    if a == RecentRegionType::Unknown || b == RecentRegionType::Unknown || c == RecentRegionType::Unknown || d == RecentRegionType::Unknown {
        RecentRegionType::Unknown
    } else if a == RecentRegionType::Water && b == RecentRegionType::Water && c == RecentRegionType::Water && d == RecentRegionType::Water {
        RecentRegionType::Water
    } else {
        RecentRegionType::Land
    }
}

/// Outcome of one step of a cursor.
#[derive(Debug)]
pub enum AdvanceStatus {
    /// Nothing left to take; did not mark anything
    Idle,
    /// Marked something; go do this again
    Progress,
    /// A tile to return
    Data(RegionData),
}

/// Unknown becomes water; a decided cell stays as it is.
pub open spec fn filled(t: RecentRegionType) -> RecentRegionType {
    if t == RecentRegionType::Unknown { RecentRegionType::Water } else { t }
}

/// Two cursors have the same column state.
pub open spec fn same_columns(o: ColumnCursor, f: ColumnCursor) -> bool {
    &&& f.info() == o.info()
    &&& f.next_row() == o.next_row()
    &&& f.level() == o.level()
    &&& f.grid_name() == o.grid_name()
}

/// `f` is `o` with the cell at y of its current column marked as land,
/// the unknown cells below it water, when that cell exists and is unknown
/// (`r`); otherwise unchanged.
pub open spec fn cell_marked(o: ColumnCursor, f: ColumnCursor, y: u32, r: bool) -> bool {
    let row = o.info().exact_row(y);
    let oc = o.info().current_column();
    let fc = f.info().current_column();
    &&& f.info().previous_column() == o.info().previous_column()
    &&& f.info().column_index() == o.info().column_index()
    &&& f.info().column_start() == o.info().column_start()
    &&& f.info().tile_size() == o.info().tile_size()
    &&& f.info().bounds() == o.info().bounds()
    &&& f.level() == o.level()
    &&& f.grid_name() == o.grid_name()
    &&& fc.len() == oc.len()
    &&& r == (row is Some && oc[row->Some_0 as int] == RecentRegionType::Unknown)
    &&& r ==> {
        &&& fc[row->Some_0 as int] == RecentRegionType::Land
        &&& forall|i: int| 0 <= i < row->Some_0 ==> #[trigger] fc[i] == filled(oc[i])
        &&& forall|i: int| row->Some_0 < i < oc.len() ==> #[trigger] fc[i] == oc[i]
        &&& f.next_row() == row->Some_0 + 1
    }
    &&& !r ==> fc == oc && f.next_row() == o.next_row()
}

/// What `mark_as_land` does with the cell at `loc`:
/// - left of the current column: nothing;
/// - in it: `cell_marked`;
/// - right of it, last cell unknown: every unknown cell becomes water, the
///   next row is past the end, nothing is marked;
/// - right of it, column finished and not the last: the column is shifted
///   (it becomes the previous one and the new current one is unknown, one
///   tile to the right), and the cell is then marked if `loc` is in the new
///   column;
/// - right of the last column: nothing.
pub open spec fn land_marked(o: ColumnCursor, f: ColumnCursor, loc: (u32, u32), r: bool) -> bool {
    let oc = o.info().current_column();
    let fc = f.info().current_column();
    let start = o.info().column_start().0;
    if loc.0 < start {
        !r && same_columns(o, f)
    } else if loc.0 == start {
        cell_marked(o, f, loc.1, r)
    } else if oc[oc.len() - 1] == RecentRegionType::Unknown {
        &&& !r
        &&& f.info().previous_column() == o.info().previous_column()
        &&& f.info().column_index() == o.info().column_index()
        &&& f.info().column_start() == o.info().column_start()
        &&& f.info().tile_size() == o.info().tile_size()
        &&& f.info().bounds() == o.info().bounds()
        &&& f.level() == o.level()
        &&& f.grid_name() == o.grid_name()
        &&& fc.len() == oc.len()
        &&& forall|i: int| 0 <= i < oc.len() ==> #[trigger] fc[i] == filled(oc[i])
        &&& f.next_row() == oc.len()
    } else if o.info().column_index() >= oc.len() {
        !r && same_columns(o, f)
    } else {
        let row = o.info().exact_row(loc.1);
        &&& f.info().previous_column() == oc
        &&& f.info().column_index() == o.info().column_index() + 1
        &&& f.info().column_start().0 == start + o.info().tile_size().0
        &&& f.info().column_start().1 == o.info().column_start().1
        &&& f.info().tile_size() == o.info().tile_size()
        &&& f.info().bounds() == o.info().bounds()
        &&& f.level() == o.level()
        &&& f.grid_name() == o.grid_name()
        &&& fc.len() == oc.len()
        &&& r == (loc.0 == f.info().column_start().0 && row is Some)
        &&& r ==> {
            &&& fc[row->Some_0 as int] == RecentRegionType::Land
            &&& forall|i: int| 0 <= i < row->Some_0 ==> #[trigger] fc[i] == RecentRegionType::Water
            &&& forall|i: int| row->Some_0 < i < oc.len() ==> #[trigger] fc[i] == RecentRegionType::Unknown
            &&& f.next_row() == row->Some_0 + 1
        }
        &&& !r ==> (forall|i: int| 0 <= i < oc.len() ==> #[trigger] fc[i] == RecentRegionType::Unknown) && f.next_row() == 0
    }
}

/// A tile of `lod` at `loc` with the given size.
pub open spec fn is_tile(d: RegionData, grid: String, loc: (u32, u32), size: (u32, u32), lod: u8) -> bool {
    &&& d.grid == grid
    &&& d.region_coords_x == loc.0
    &&& d.region_coords_y == loc.1
    &&& d.size_x == size.0
    &&& d.size_y == size.1
    &&& d.lod == lod
}

/// Advance across one LOD a column at a time.
pub struct ColumnCursor {
    /// The last two columns.
    recent_column_info: RecentColumnInfo,
    /// Next row of the current column to be filled, at LOD 0. Every row
    /// below it is known.
    next_y_index: usize,
    /// Index into region data, for LOD 0 only
    region_data_index: usize,
    /// LOD
    lod: u8,
    /// Grid, for output
    grid: String,
}

impl ColumnCursor {
    /// The column state.
    pub closed spec fn info(&self) -> &RecentColumnInfo {
        &self.recent_column_info
    }

    /// LOD of this cursor.
    pub closed spec fn level(&self) -> u8 {
        self.lod
    }

    /// Grid of the emitted tiles.
    pub closed spec fn grid_name(&self) -> String {
        self.grid
    }

    /// Next row of the current column to be filled.
    pub closed spec fn next_row(&self) -> int {
        self.next_y_index as int
    }

    /// Index of the next input region, at LOD 0.
    pub closed spec fn region_index(&self) -> int {
        self.region_data_index as int
    }

    /// Row index and column state agree.
    pub closed spec fn wf(&self) -> bool {
        &&& self.recent_column_info.wf()
        &&& self.next_y_index <= self.recent_column_info.current@.len()
        &&& forall|i: int| 0 <= i < self.next_y_index ==> #[trigger] self.recent_column_info.current@[i] != RecentRegionType::Unknown
    }

    /// Usual new
    pub fn new(lod_bounds: ((u32, u32), (u32, u32)), size: (u32, u32), rows: usize, lod: u8, grid: String) -> (r: ColumnCursor)
        requires
            size.0 > 0,
            size.1 > 0,
            rows > 0,
            lod_bounds.0.1 + rows * size.1 == lod_bounds.1.1,
            lod_bounds.0.0 + rows * size.0 == lod_bounds.1.0,
            lod_bounds.1.0 <= u32::MAX,
            lod_bounds.1.1 <= u32::MAX,
        ensures
            r.wf(),
            r.level() == lod,
            r.grid_name() == grid,
            r.info().tile_size() == size,
            r.info().bounds() == lod_bounds,
            r.info().column_index() == 0,
            r.info().current_column().len() == rows,
            r.info().current_column() == Seq::new(rows as nat, |i: int| RecentRegionType::Unknown),
    {
        let recent_column_info = RecentColumnInfo::new(lod_bounds, size, rows);
        ColumnCursor { recent_column_info, next_y_index: 0, region_data_index: 0, lod, grid }
    }

    /// Mark one cell of the current column, which must still be unknown:
    /// a cell is decided once.
    pub fn mark_region_type(&mut self, yix: usize, recent_region_type: RecentRegionType)
        requires
            old(self).wf(),
            yix < old(self).info().current_column().len(),
            old(self).info().current_column()[yix as int] == RecentRegionType::Unknown,
            recent_region_type != RecentRegionType::Unknown || yix >= old(self).next_row(),
        ensures
            final(self).wf(),
            final(self).next_row() == old(self).next_row(),
            final(self).region_index() == old(self).region_index(),
            final(self).info().current_column() == old(self).info().current_column().update(yix as int, recent_region_type),
            final(self).info().previous_column() == old(self).info().previous_column(),
            final(self).info().column_index() == old(self).info().column_index(),
            final(self).info().tile_size() == old(self).info().tile_size(),
            final(self).info().bounds() == old(self).info().bounds(),
            final(self).info().column_start() == old(self).info().column_start(),
            final(self).level() == old(self).level(),
            final(self).grid_name() == old(self).grid_name(),
    {
        self.recent_column_info.current.set(yix, recent_region_type);
    }

    /// Mark the cell of the current column holding `loc` as land. Unknown
    /// cells below it are water; cells above it are left alone. Returns
    /// false, marking nothing, when `loc` is not the corner of a cell of the
    /// current column, or that cell is already decided.
    fn mark_cell(&mut self, loc: (u32, u32)) -> (r: bool)
        requires
            old(self).wf(),
        ensures
            final(self).wf(),
            final(self).region_index() == old(self).region_index(),
            r ==> final(self).next_row() == old(self).info().exact_row(loc.1)->Some_0 + 1,
            !r ==> final(self).next_row() == old(self).next_row(),
            final(self).info().previous_column() == old(self).info().previous_column(),
            final(self).info().column_index() == old(self).info().column_index(),
            final(self).info().tile_size() == old(self).info().tile_size(),
            final(self).info().bounds() == old(self).info().bounds(),
            final(self).info().column_start() == old(self).info().column_start(),
            final(self).level() == old(self).level(),
            final(self).grid_name() == old(self).grid_name(),
            final(self).info().current_column().len() == old(self).info().current_column().len(),
            r == (loc.0 == old(self).info().column_start().0 && old(self).info().exact_row(loc.1) is Some
                && old(self).info().current_column()[old(self).info().exact_row(loc.1)->Some_0 as int] == RecentRegionType::Unknown),
            r ==> final(self).info().current_column()[old(self).info().exact_row(loc.1)->Some_0 as int] == RecentRegionType::Land,
            r ==> forall|i: int| 0 <= i < old(self).info().exact_row(loc.1)->Some_0 ==> #[trigger] final(self).info().current_column()[i]
                == if old(self).info().current_column()[i] == RecentRegionType::Unknown { RecentRegionType::Water } else { old(self).info().current_column()[i] },
            r ==> forall|i: int| old(self).info().exact_row(loc.1)->Some_0 < i < old(self).info().current_column().len()
                ==> #[trigger] final(self).info().current_column()[i] == old(self).info().current_column()[i],
            !r ==> final(self).info().current_column() == old(self).info().current_column(),
            forall|i: int| 0 <= i < final(self).info().current_column().len() ==> {
                ||| #[trigger] final(self).info().current_column()[i] == old(self).info().current_column()[i]
                ||| (old(self).info().current_column()[i] == RecentRegionType::Unknown && final(self).info().current_column()[i] == RecentRegionType::Water)
                ||| (r && i == old(self).info().exact_row(loc.1)->Some_0 && final(self).info().current_column()[i] == RecentRegionType::Land)
            },
    {
        if loc.0 != self.recent_column_info.start.0 {
            return false;
        }
        let yix = match self.recent_column_info.try_calc_y_index(loc.1) {
            Some(v) => v,
            None => { return false; },
        };
        let ll_y = self.recent_column_info.lod_bounds.0.1;
        let size_y = self.recent_column_info.size.1;
        proof {
            lemma_cell_fits(yix as int, self.recent_column_info.current@.len() as int, size_y as int);
        }
        if ll_y as u64 + yix as u64 * size_y as u64 != loc.1 as u64 {
            return false;
        }
        if self.recent_column_info.current[yix] != RecentRegionType::Unknown {
            return false;
        }
        let ghost c0 = self.recent_column_info.current@;
        let mut n = self.next_y_index;
        while n < yix
            invariant
                self.wf(),
                self.next_y_index == old(self).next_y_index,
                self.region_data_index == old(self).region_data_index,
                old(self).next_y_index <= n <= yix,
                yix < self.recent_column_info.current@.len(),
                self.recent_column_info.current@.len() == c0.len(),
                self.recent_column_info.previous@ == old(self).recent_column_info.previous@,
                self.recent_column_info.column == old(self).recent_column_info.column,
                self.recent_column_info.size == old(self).recent_column_info.size,
                self.recent_column_info.lod_bounds == old(self).recent_column_info.lod_bounds,
                self.recent_column_info.start == old(self).recent_column_info.start,
                self.lod == old(self).lod,
                self.grid == old(self).grid,
                forall|i: int| 0 <= i < n ==> #[trigger] self.recent_column_info.current@[i]
                    == if c0[i] == RecentRegionType::Unknown { RecentRegionType::Water } else { c0[i] },
                forall|i: int| n <= i < c0.len() ==> #[trigger] self.recent_column_info.current@[i] == c0[i],
            decreases yix - n,
        {
            if self.recent_column_info.current[n] == RecentRegionType::Unknown {
                self.mark_region_type(n, RecentRegionType::Water);
            }
            n += 1;
        }
        self.mark_region_type(yix, RecentRegionType::Land);
        let len = self.recent_column_info.current.len();
        assert(yix < len);
        self.next_y_index = yix + 1;
        true
    }

    /// Mark the cell holding `loc` as land, moving on a column first when
    /// `loc` is past the current one. On such a column break an unfinished
    /// column (last cell unknown) is finished instead: its unknown cells
    /// become water and nothing is marked, so coarser LODs can use the
    /// column before it is shifted; a finished column is shifted, and the
    /// cell is then marked in the new column. See `land_marked`.
    pub fn mark_as_land(&mut self, loc: (u32, u32)) -> (r: bool)
        requires
            old(self).wf(),
        ensures
            final(self).wf(),
            final(self).region_index() == old(self).region_index(),
            land_marked(*old(self), *final(self), loc, r),
    {
        let start = self.recent_column_info.start.0;
        if loc.0 < start {
            return false;
        }
        if loc.0 > start {
            let len = self.recent_column_info.current.len();
            if self.recent_column_info.current[len - 1] == RecentRegionType::Unknown {
                self.column_finished();
                return false;
            }
            if self.recent_column_info.column >= len {
                return false;
            }
            self.shift();
            if loc.0 != self.recent_column_info.start.0 {
                return false;
            }
        }
        self.mark_cell(loc)
    }

    /// Take the next input region at LOD 0: Idle when all regions are taken; Data with the region, now marked as
    /// land, when `mark_as_land` marks it, moving on to the next region;
    /// Progress, staying on the region, when it does not (a column was
    /// finished or shifted, and the region must be taken again).
    pub fn advance_lod_0(&mut self, regions: &Vec<RegionData>) -> (r: AdvanceStatus)
        requires
            old(self).wf(),
        ensures
            final(self).wf(),
            old(self).region_index() >= regions@.len() ==> r is Idle && *final(self) == *old(self),
            old(self).region_index() < regions@.len() ==> {
                let d = regions@[old(self).region_index()];
                exists|b: bool| {
                    &&& #[trigger] land_marked(*old(self), *final(self), (d.region_coords_x, d.region_coords_y), b)
                    &&& b ==> r == AdvanceStatus::Data(d) && final(self).region_index() == old(self).region_index() + 1
                    &&& !b ==> r is Progress && final(self).region_index() == old(self).region_index()
                }
            },
    {
        let n = self.region_data_index;
        if n < regions.len() {
            let region = &regions[n];
            let loc = (region.region_coords_x, region.region_coords_y);
            let b = self.mark_as_land(loc);
            if !b {
                proof { assert(land_marked(*old(self), *self, loc, b)); }
                return AdvanceStatus::Progress;
            }
            self.region_data_index = n + 1;
            let d = region.duplicate();
            proof { assert(land_marked(*old(self), *self, loc, b)); }
            AdvanceStatus::Data(d)
        } else {
            AdvanceStatus::Idle
        }
    }

    /// The column is complete: every cell still unknown is water.
    pub fn column_finished(&mut self)
        requires
            old(self).wf(),
        ensures
            final(self).wf(),
            final(self).next_row() == final(self).info().current_column().len(),
            final(self).region_index() == old(self).region_index(),
            final(self).info().previous_column() == old(self).info().previous_column(),
            final(self).info().column_index() == old(self).info().column_index(),
            final(self).info().tile_size() == old(self).info().tile_size(),
            final(self).info().bounds() == old(self).info().bounds(),
            final(self).info().column_start() == old(self).info().column_start(),
            final(self).level() == old(self).level(),
            final(self).grid_name() == old(self).grid_name(),
            final(self).info().current_column().len() == old(self).info().current_column().len(),
            forall|i: int| 0 <= i < final(self).info().current_column().len() ==> #[trigger] final(self).info().current_column()[i]
                == if old(self).info().current_column()[i] == RecentRegionType::Unknown { RecentRegionType::Water } else { old(self).info().current_column()[i] },
    {
        let ghost c0 = self.recent_column_info.current@;
        let len = self.recent_column_info.current.len();
        let mut n: usize = 0;
        while n < len
            invariant
                self.wf(),
                len == c0.len(),
                0 <= n <= len,
                self.recent_column_info.current@.len() == c0.len(),
                self.recent_column_info.previous@ == old(self).recent_column_info.previous@,
                self.recent_column_info.column == old(self).recent_column_info.column,
                self.recent_column_info.size == old(self).recent_column_info.size,
                self.recent_column_info.lod_bounds == old(self).recent_column_info.lod_bounds,
                self.recent_column_info.start == old(self).recent_column_info.start,
                self.lod == old(self).lod,
                self.grid == old(self).grid,
                self.region_data_index == old(self).region_data_index,
                forall|i: int| 0 <= i < c0.len() ==> #[trigger] self.recent_column_info.current@[i]
                    == if i < n && c0[i] == RecentRegionType::Unknown { RecentRegionType::Water } else { c0[i] },
            decreases len - n,
        {
            if self.recent_column_info.current[n] == RecentRegionType::Unknown {
                self.mark_region_type(n, RecentRegionType::Water);
            }
            n += 1;
        }
        self.next_y_index = len;
    }

    /// Move on to the next column.
    fn shift(&mut self)
        requires
            old(self).wf(),
            old(self).info().column_index() < old(self).info().current_column().len(),
        ensures
            final(self).wf(),
            final(self).info().column_index() == old(self).info().column_index() + 1,
            final(self).info().current_column().len() == old(self).info().current_column().len(),
            final(self).info().tile_size() == old(self).info().tile_size(),
            final(self).info().bounds() == old(self).info().bounds(),
            final(self).level() == old(self).level(),
            final(self).grid_name() == old(self).grid_name(),
            final(self).info().previous_column() == old(self).info().current_column(),
            final(self).info().current_column() == Seq::new(old(self).info().current_column().len(), |i: int| RecentRegionType::Unknown),
            final(self).info().column_start().0 == old(self).info().column_start().0 + old(self).info().tile_size().0,
            final(self).info().column_start().1 == old(self).info().column_start().1,
            final(self).next_row() == 0,
            final(self).region_index() == old(self).region_index(),
    {
        self.recent_column_info.shift();
        self.next_y_index = 0;
    }

    /// Build a new tile of this LOD.
    fn build_new_tile(&self, loc: (u32, u32), size: (u32, u32)) -> (r: RegionData)
        ensures
            is_tile(r, self.grid, loc, size, self.lod),
            r.name@ == Seq::<char>::empty(),
    {
        RegionData {
            grid: self.grid.clone(),
            region_coords_x: loc.0,
            region_coords_y: loc.1,
            size_x: size.0,
            size_y: size.1,
            name: String::new(),
            lod: self.lod,
        }
    }

    /// Fill the current column of this LOD (k > 0) from the states of the
    /// finer LOD's two most recent columns. Each land cell is emitted as a
    /// tile onto `out`, in row order; water cells are not emitted.
    pub fn advance_lod_n(&mut self, finer_states: &Vec<RecentRegionType>, out: &mut Vec<RegionData>)
        requires
            old(self).wf(),
            finer_states@.len() == old(self).info().current_column().len(),
        ensures
            final(self).wf(),
            final(self).info().current_column() == finer_states@,
            final(self).info().previous_column() == old(self).info().previous_column(),
            final(self).info().column_index() == old(self).info().column_index(),
            final(self).info().tile_size() == old(self).info().tile_size(),
            final(self).info().bounds() == old(self).info().bounds(),
            final(self).info().column_start() == old(self).info().column_start(),
            final(self).level() == old(self).level(),
            final(self).grid_name() == old(self).grid_name(),
            final(out)@.subrange(0, old(out)@.len() as int) == old(out)@,
            final(out)@.len() >= old(out)@.len(),
            tiles_for_rows(final(out)@.subrange(old(out)@.len() as int, final(out)@.len() as int), *old(self),
                land_rows(finer_states@, finer_states@.len() as int)),
    {
        let len = self.recent_column_info.current.len();
        let mut y: usize = 0;
        let ghost out0 = out@;
        self.next_y_index = 0;
        while y < len
            invariant
                self.wf(),
                len == self.recent_column_info.current@.len(),
                finer_states@.len() == len,
                0 <= y <= len,
                self.recent_column_info.previous@ == old(self).recent_column_info.previous@,
                self.recent_column_info.column == old(self).recent_column_info.column,
                self.recent_column_info.size == old(self).recent_column_info.size,
                self.recent_column_info.lod_bounds == old(self).recent_column_info.lod_bounds,
                self.recent_column_info.start == old(self).recent_column_info.start,
                self.lod == old(self).lod,
                self.grid == old(self).grid,
                self.next_y_index == 0,
                forall|i: int| 0 <= i < y ==> #[trigger] self.recent_column_info.current@[i] == finer_states@[i],
                out@.len() >= out0.len(),
                out@.subrange(0, out0.len() as int) == out0,
                tiles_for_rows(out@.subrange(out0.len() as int, out@.len() as int), *old(self), land_rows(finer_states@, y as int)),
            decreases len - y,
        {
            let st = finer_states[y];
            self.recent_column_info.current.set(y, st);
            if st == RecentRegionType::Land {
                let info = &self.recent_column_info;
                proof {
                    lemma_cell_fits(y as int, len as int, info.size.1 as int);
                }
                let yy = info.lod_bounds.0.1 as u64 + (y as u64) * (info.size.1 as u64);
                let loc = (info.start.0, yy as u32);
                let tile = self.build_new_tile(loc, info.size);
                let ghost before = out@;
                out.push(tile);
                proof {
                    assert(out@.subrange(0, out0.len() as int) =~= out0);
                    let fresh = out@.subrange(out0.len() as int, out@.len() as int);
                    let prev = before.subrange(out0.len() as int, before.len() as int);
                    assert(fresh =~= prev.push(tile));
                    let rows = land_rows(finer_states@, y + 1);
                    assert(rows == land_rows(finer_states@, y as int).push(y as int));
                    assert forall|t: int| 0 <= t < rows.len() implies {
                        &&& is_tile(#[trigger] fresh[t], old(self).grid_name(),
                            (old(self).info().column_start().0, (old(self).info().bounds().0.1 + rows[t] * old(self).info().tile_size().1) as u32),
                            old(self).info().tile_size(), old(self).level())
                        &&& fresh[t].name@.len() == 0
                    } by {
                        if t < prev.len() {
                            assert(fresh[t] == prev[t]);
                        }
                    }
                }
            }
            y += 1;
        }
        proof {
            assert(self.recent_column_info.current@ =~= finer_states@);
        }
    }
}

/// The land rows among the first `n` rows of `states`, in row order.
pub open spec fn land_rows(states: Seq<RecentRegionType>, n: int) -> Seq<int>
    decreases n,
{
    if n <= 0 {
        Seq::empty()
    } else if states[n - 1] == RecentRegionType::Land {
        land_rows(states, n - 1).push(n - 1)
    } else {
        land_rows(states, n - 1)
    }
}

/// `tiles` are the tiles of cursor `c` for `rows` of its current column.
pub open spec fn tiles_for_rows(tiles: Seq<RegionData>, c: ColumnCursor, rows: Seq<int>) -> bool {
    &&& tiles.len() == rows.len()
    &&& forall|t: int| 0 <= t < rows.len() ==> {
        &&& is_tile(#[trigger] tiles[t], c.grid_name(),
            (c.info().column_start().0, (c.info().bounds().0.1 + rows[t] * c.info().tile_size().1) as u32),
            c.info().tile_size(), c.level())
        &&& tiles[t].name@.len() == 0
    }
}

/// Every region lies on the grid of its own size: coordinates are
/// multiples of the region size.
pub open spec fn aligned(g: Seq<RegionData>) -> bool {
    forall|i: int| 0 <= i < g.len() ==> (#[trigger] g[i]).region_coords_x % g[i].size_x == 0
        && g[i].region_coords_y % g[i].size_y == 0
}

/// Regions are strictly increasing in (x, y).
pub open spec fn strictly_sorted(g: Seq<RegionData>) -> bool {
    forall|i: int| 0 < i < g.len() ==> loc_before(g[i - 1].loc(), (#[trigger] g[i]).loc())
}

/// K is the least number of levels whose aligned square of 2^K cells of
/// size `base` encloses the bounds.
pub open spec fn least_square(k: nat, b: ((u32, u32), (u32, u32)), base: (u32, u32)) -> bool {
    let ll = ((b.0.0 / base.0) as u32, (b.0.1 / base.1) as u32);
    let ur = ((b.1.0 / base.0) as u32, (b.1.1 / base.1) as u32);
    &&& square_fits(k, ll, ur)
    &&& forall|j: nat| j < k ==> !square_fits(j, ll, ur)
}

/// Some square of at most `MAX_LOD` levels, the smallest, encloses the
/// bounds in cells of size `base`, and its far corner in meters is a u32.
pub open spec fn square_in_range(b: ((u32, u32), (u32, u32)), base: (u32, u32)) -> bool {
    let ll = ((b.0.0 / base.0) as u32, (b.0.1 / base.1) as u32);
    let ur = ((b.1.0 / base.0) as u32, (b.1.1 / base.1) as u32);
    exists|k: nat| {
        &&& k <= MAX_LOD
        &&& #[trigger] square_fits(k, ll, ur)
        &&& forall|j: nat| j < k ==> !square_fits(j, ll, ur)
        &&& (round_down(ll.0 as int, pow2(k) as int) + pow2(k)) * base.0 <= u32::MAX
        &&& (round_down(ll.1 as int, pow2(k) as int) + pow2(k)) * base.1 <= u32::MAX
    }
}

/// Every LOD 0 item of `h` is among its LOD 0 tiles.
proof fn lemma_lod0_member(h: Seq<RegionData>, i: int)
    requires
        0 <= i < h.len(),
        h[i].lod == 0,
    ensures
        lod0_tiles(h).contains(h[i]),
    decreases h.len(),
{
    if i == h.len() - 1 {
        let t = lod0_tiles(h.drop_last());
        assert(lod0_tiles(h) == t.push(h[i]));
        assert(t.push(h[i])[t.len() as int] == h[i]);
    } else {
        lemma_lod0_member(h.drop_last(), i);
        let t = lod0_tiles(h.drop_last());
        let k = choose|k: int| 0 <= k < t.len() && t[k] == h.drop_last()[i];
        if h.last().lod == 0 {
            assert(lod0_tiles(h) == t.push(h.last()));
            assert(t.push(h.last())[k] == h[i]);
        } else {
            assert(lod0_tiles(h) == t);
        }
    }
}

/// In a strictly sorted sequence, earlier locations come before later ones.
proof fn lemma_sorted_before(g: Seq<RegionData>, a: int, b: int)
    requires
        strictly_sorted(g),
        0 <= a < b < g.len(),
    ensures
        loc_before(g[a].loc(), g[b].loc()),
    decreases b - a,
{
    assert(loc_before(g[b - 1].loc(), g[b].loc()));
    if a < b - 1 {
        lemma_sorted_before(g, a, b - 1);
    }
}

/// A multiple of b inside [lo, hi), with the grid of p cells from s * b
/// covering [lo, hi), lies on a cell of that grid.
proof fn lemma_on_grid(x: int, lo: int, hi: int, b: int, s: int, p: int)
    requires
        b > 0,
        s >= 0,
        x % b == 0,
        s * b <= lo <= x,
        x + b <= hi,
        hi / b <= s + p,
    ensures
        s * b <= x,
        (x - s * b) % b == 0,
        (x - s * b) / b < p,
        x == s * b + ((x - s * b) / b) * b,
{
    let q = x / b;
    vstd::arithmetic::div_mod::lemma_fundamental_div_mod(x, b);
    assert(x == q * b) by (nonlinear_arith) requires x == b * (x / b) + x % b, x % b == 0, q == x / b;
    assert(x - s * b == (q - s) * b) by (nonlinear_arith) requires x == q * b;
    vstd::arithmetic::div_mod::lemma_mod_multiples_basic(q - s, b);
    vstd::arithmetic::div_mod::lemma_div_multiples_vanish(q - s, b);
    vstd::arithmetic::mul::lemma_mul_is_commutative(q - s, b);
    assert((q + 1) * b <= hi) by (nonlinear_arith) requires x == q * b, x + b <= hi;
    vstd::arithmetic::div_mod::lemma_div_is_ordered((q + 1) * b, hi, b);
    vstd::arithmetic::div_mod::lemma_div_multiples_vanish(q + 1, b);
    vstd::arithmetic::mul::lemma_mul_is_commutative(q + 1, b);
}

/// On a grid from o with step b, x at index c has index c.
proof fn lemma_grid_index(x: int, o: int, b: int, c: int)
    requires
        b > 0,
        c >= 0,
        x == o + c * b,
    ensures
        (x - o) / b == c,
        (x - o) % b == 0,
{
    vstd::arithmetic::div_mod::lemma_div_multiples_vanish(c, b);
    vstd::arithmetic::div_mod::lemma_mod_multiples_basic(c, b);
    vstd::arithmetic::mul::lemma_mul_is_commutative(c, b);
}

/// A point of the grid from o with step b is o plus its index times b.
proof fn lemma_grid_point(x: int, o: int, b: int)
    requires
        b > 0,
        o <= x,
        (x - o) % b == 0,
    ensures
        x == o + ((x - o) / b) * b,
        (x - o) / b >= 0,
{
    vstd::arithmetic::div_mod::lemma_fundamental_div_mod(x - o, b);
    vstd::arithmetic::mul::lemma_mul_is_commutative(b, (x - o) / b);
    vstd::arithmetic::div_mod::lemma_div_pos_is_pos(x - o, b);
}

/// A group has one bounding box.
proof fn lemma_bounds_unique(g: Seq<RegionData>, a: ((u32, u32), (u32, u32)), b: ((u32, u32), (u32, u32)))
    requires
        is_group_bounds(g, a),
        is_group_bounds(g, b),
    ensures
        a == b,
{
    let i0 = choose|i: int| 0 <= i < g.len() && (#[trigger] g[i]).region_coords_x == a.0.0;
    let j0 = choose|i: int| 0 <= i < g.len() && (#[trigger] g[i]).region_coords_x == b.0.0;
    let i1 = choose|i: int| 0 <= i < g.len() && (#[trigger] g[i]).region_coords_y == a.0.1;
    let j1 = choose|i: int| 0 <= i < g.len() && (#[trigger] g[i]).region_coords_y == b.0.1;
    let i2 = choose|i: int| 0 <= i < g.len() && (#[trigger] g[i]).region_coords_x + g[i].size_x == a.1.0;
    let j2 = choose|i: int| 0 <= i < g.len() && (#[trigger] g[i]).region_coords_x + g[i].size_x == b.1.0;
    let i3 = choose|i: int| 0 <= i < g.len() && (#[trigger] g[i]).region_coords_y + g[i].size_y == a.1.1;
    let j3 = choose|i: int| 0 <= i < g.len() && (#[trigger] g[i]).region_coords_y + g[i].size_y == b.1.1;
    assert(g[i0].region_coords_x >= b.0.0 && g[j0].region_coords_x >= a.0.0);
    assert(g[i1].region_coords_y >= b.0.1 && g[j1].region_coords_y >= a.0.1);
    assert(g[i2].region_coords_x + g[i2].size_x <= b.1.0 && g[j2].region_coords_x + g[j2].size_x <= a.1.0);
    assert(g[i3].region_coords_y + g[i3].size_y <= b.1.1 && g[j3].region_coords_y + g[j3].size_y <= a.1.1);
}

/// Fallback ordering for groups that cannot be scheduled over several
/// LODs: each region once, at LOD 0, in input order.
pub struct SimpleColumnCursors {
    /// The regions
    regions: Vec<RegionData>,
    /// The cursor
    cursor: usize,
}

impl SimpleColumnCursors {
    /// The regions still to come.
    pub closed spec fn remaining(&self) -> Seq<RegionData> {
        self.regions@.subrange(self.cursor as int, self.regions@.len() as int)
    }

    /// Cursor within bounds.
    pub closed spec fn wf(&self) -> bool {
        self.cursor <= self.regions@.len()
    }

    /// Iterate over the regions.
    pub fn new(regions: Vec<RegionData>) -> (r: SimpleColumnCursors)
        ensures
            r.wf(),
            r.remaining() == regions@,
    {
        proof {
            assert(regions@.subrange(0, regions@.len() as int) =~= regions@);
        }
        SimpleColumnCursors { regions, cursor: 0 }
    }

    /// The next region, or None after the last.
    #[verifier::rlimit(100)]
    pub fn next(&mut self) -> (r: Option<RegionData>)
        requires
            old(self).wf(),
        ensures
            final(self).wf(),
            old(self).remaining().len() == 0 ==> r is None && final(self).remaining().len() == 0,
            old(self).remaining().len() > 0 ==> r == Some(old(self).remaining()[0])
                && final(self).remaining() == old(self).remaining().drop_first(),
    {
        if self.cursor < self.regions.len() {
            let i = self.cursor;
            self.cursor += 1;
            proof {
                assert(self.remaining() =~= old(self).remaining().drop_first());
            }
            Some(self.regions[i].duplicate())
        } else {
            None
        }
    }
}

/// (lod, x, y) of a tile.
pub open spec fn tile_key(d: RegionData) -> (int, int, int) {
    (d.lod as int, d.region_coords_x as int, d.region_coords_y as int)
}

/// The LOD 0 tiles of `h`, in order.
pub open spec fn lod0_tiles(h: Seq<RegionData>) -> Seq<RegionData>
    decreases h.len(),
{
    if h.len() == 0 {
        Seq::empty()
    } else if h.last().lod == 0 {
        lod0_tiles(h.drop_last()).push(h.last())
    } else {
        lod0_tiles(h.drop_last())
    }
}

/// A region taken as a LOD 0 tile.
pub open spec fn at_lod0(d: RegionData) -> RegionData {
    RegionData { lod: 0, ..d }
}

/// Appending coarser tiles adds no LOD 0 tile.
proof fn lemma_lod0_append_coarse(h: Seq<RegionData>, t: Seq<RegionData>)
    requires
        forall|k: int| 0 <= k < t.len() ==> (#[trigger] t[k]).lod >= 1,
    ensures
        lod0_tiles(h + t) == lod0_tiles(h),
    decreases t.len(),
{
    if t.len() > 0 {
        assert((h + t).drop_last() =~= h + t.drop_last());
        assert((h + t).last() == t.last());
        assert(t.last() == t[t.len() - 1]);
        lemma_lod0_append_coarse(h, t.drop_last());
    } else {
        assert(h + t =~= h);
    }
}

/// (lod, x, y) of a region taken as a LOD 0 tile.
pub open spec fn base_key(d: RegionData) -> (int, int, int) {
    (0, d.region_coords_x as int, d.region_coords_y as int)
}

/// A tile with this key is among the first `i` of `h`.
pub open spec fn emitted_before(h: Seq<RegionData>, i: int, key: (int, int, int)) -> bool {
    exists|j: int| 0 <= j < i && #[trigger] tile_key(h[j]) == key
}

/// Key of the child (dx, dy) of a tile: the finer tile at that quadrant.
pub open spec fn child_key(d: RegionData, dx: int, dy: int) -> (int, int, int) {
    (d.lod - 1, d.region_coords_x + dx * (d.size_x / 2), d.region_coords_y + dy * (d.size_y / 2))
}

/// Child (dx, dy) of tile i came earlier, or is known water.
pub open spec fn child_resolved(h: Seq<RegionData>, i: int, water: Set<(int, int, int)>, dx: int, dy: int) -> bool {
    emitted_before(h, i, child_key(h[i], dx, dy)) || water.contains(child_key(h[i], dx, dy))
}

/// All four children of tile i, if it is coarser than LOD 0, came earlier
/// or are known water, and at least one of them came earlier: an all-water
/// tile is never emitted.
pub open spec fn children_resolved(h: Seq<RegionData>, i: int, water: Set<(int, int, int)>) -> bool {
    h[i].lod >= 1 ==> {
        &&& child_resolved(h, i, water, 0, 0)
        &&& child_resolved(h, i, water, 0, 1)
        &&& child_resolved(h, i, water, 1, 0)
        &&& child_resolved(h, i, water, 1, 1)
        &&& (emitted_before(h, i, child_key(h[i], 0, 0)) || emitted_before(h, i, child_key(h[i], 0, 1))
            || emitted_before(h, i, child_key(h[i], 1, 0)) || emitted_before(h, i, child_key(h[i], 1, 1)))
    }
}

/// Every coarser tile comes after its land children.
pub open spec fn coarse_after_children(h: Seq<RegionData>, water: Set<(int, int, int)>) -> bool {
    forall|i: int| 0 <= i < h.len() ==> #[trigger] children_resolved(h, i, water)
}

/// Key of row r of a cursor's column at x.
pub open spec fn cell_key(c: ColumnCursor, x: int, r: int) -> (int, int, int) {
    (c.level() as int, x, c.info().bounds().0.1 + r * c.info().tile_size().1)
}

/// Land cells of a cursor's two columns have been emitted, and its water
/// cells are known water.
pub open spec fn state_recorded(c: ColumnCursor, h: Seq<RegionData>, water: Set<(int, int, int)>) -> bool {
    let x = c.info().column_start().0 as int;
    let px = x - c.info().tile_size().0;
    &&& forall|r: int| 0 <= r < c.info().current_column().len() ==> {
        &&& (#[trigger] c.info().current_column()[r] == RecentRegionType::Land ==> emitted_before(h, h.len() as int, cell_key(c, x, r)))
        &&& (c.info().current_column()[r] == RecentRegionType::Water ==> water.contains(cell_key(c, x, r)))
    }
    &&& c.info().column_index() > 0 ==> forall|r: int| 0 <= r < c.info().previous_column().len() ==> {
        &&& (#[trigger] c.info().previous_column()[r] == RecentRegionType::Land ==> emitted_before(h, h.len() as int, cell_key(c, px, r)))
        &&& (c.info().previous_column()[r] == RecentRegionType::Water ==> water.contains(cell_key(c, px, r)))
    }
}

/// The water cells of a cursor's current column.
pub open spec fn column_water(c: ColumnCursor) -> Set<(int, int, int)> {
    Set::new(|t: (int, int, int)| exists|r: int| 0 <= r < c.info().current_column().len()
        && c.info().current_column()[r] == RecentRegionType::Water && t == #[trigger] cell_key(c, c.info().column_start().0 as int, r))
}

/// Growing the history and the water set keeps what was recorded.
proof fn lemma_recorded_mono(c: ColumnCursor, h: Seq<RegionData>, w: Set<(int, int, int)>, h2: Seq<RegionData>, w2: Set<(int, int, int)>)
    requires
        state_recorded(c, h, w),
        h.len() <= h2.len(),
        h2.subrange(0, h.len() as int) == h,
        w.subset_of(w2),
    ensures
        state_recorded(c, h2, w2),
{
    let x = c.info().column_start().0 as int;
    let px = x - c.info().tile_size().0;
    assert forall|r: int| 0 <= r < c.info().current_column().len() implies {
        &&& (#[trigger] c.info().current_column()[r] == RecentRegionType::Land ==> emitted_before(h2, h2.len() as int, cell_key(c, x, r)))
        &&& (c.info().current_column()[r] == RecentRegionType::Water ==> w2.contains(cell_key(c, x, r)))
    } by {
        if c.info().current_column()[r] == RecentRegionType::Land {
            let j = choose|j: int| 0 <= j < h.len() && #[trigger] tile_key(h[j]) == cell_key(c, x, r);
            assert(h2[j] == h[j]);
        }
    }
    if c.info().column_index() > 0 {
        assert forall|r: int| 0 <= r < c.info().previous_column().len() implies {
            &&& (#[trigger] c.info().previous_column()[r] == RecentRegionType::Land ==> emitted_before(h2, h2.len() as int, cell_key(c, px, r)))
            &&& (c.info().previous_column()[r] == RecentRegionType::Water ==> w2.contains(cell_key(c, px, r)))
        } by {
            if c.info().previous_column()[r] == RecentRegionType::Land {
                let j = choose|j: int| 0 <= j < h.len() && #[trigger] tile_key(h[j]) == cell_key(c, px, r);
                assert(h2[j] == h[j]);
            }
        }
    }
}

/// Growing the history at its end and the water set keeps the order law
/// for what was there.
proof fn lemma_order_mono(h: Seq<RegionData>, w: Set<(int, int, int)>, h2: Seq<RegionData>, w2: Set<(int, int, int)>)
    requires
        coarse_after_children(h, w),
        h.len() <= h2.len(),
        h2.subrange(0, h.len() as int) == h,
        w.subset_of(w2),
    ensures
        forall|i: int| 0 <= i < h.len() ==> #[trigger] children_resolved(h2, i, w2),
{
    assert forall|i: int| 0 <= i < h.len() implies #[trigger] children_resolved(h2, i, w2) by {
        assert(children_resolved(h, i, w));
        assert(h2[i] == h[i]);
        if h[i].lod >= 1 {
            assert forall|dx: int, dy: int| 0 <= dx <= 1 && 0 <= dy <= 1 && #[trigger] emitted_before(h, i, child_key(h[i], dx, dy))
                implies emitted_before(h2, i, child_key(h2[i], dx, dy)) by {
                let j = choose|j: int| 0 <= j < i && #[trigger] tile_key(h[j]) == child_key(h[i], dx, dy);
                assert(h2[j] == h[j]);
            }
        }
    }
}

/// A cursor whose current column changed only where cells became land now
/// in the history, or water now in the water set, still has its state
/// recorded.
proof fn lemma_recorded_update(c: ColumnCursor, c2: ColumnCursor, h: Seq<RegionData>, w: Set<(int, int, int)>, h2: Seq<RegionData>, w2: Set<(int, int, int)>)
    requires
        state_recorded(c, h, w),
        h.len() <= h2.len(),
        h2.subrange(0, h.len() as int) == h,
        w.subset_of(w2),
        c2.info().previous_column() == c.info().previous_column(),
        c2.info().column_index() == c.info().column_index(),
        c2.info().tile_size() == c.info().tile_size(),
        c2.info().bounds() == c.info().bounds(),
        c2.info().column_start() == c.info().column_start(),
        c2.level() == c.level(),
        c2.info().current_column().len() == c.info().current_column().len(),
        forall|r: int| 0 <= r < c2.info().current_column().len() ==> {
            &&& (#[trigger] c2.info().current_column()[r] == RecentRegionType::Land ==> c.info().current_column()[r] == RecentRegionType::Land
                || emitted_before(h2, h2.len() as int, cell_key(c2, c2.info().column_start().0 as int, r)))
            &&& (c2.info().current_column()[r] == RecentRegionType::Water ==> c.info().current_column()[r] == RecentRegionType::Water
                || w2.contains(cell_key(c2, c2.info().column_start().0 as int, r)))
        },
    ensures
        state_recorded(c2, h2, w2),
{
    lemma_recorded_mono(c, h, w, h2, w2);
    let x = c.info().column_start().0 as int;
    assert forall|r: int| 0 <= r < c2.info().current_column().len() implies {
        &&& (#[trigger] c2.info().current_column()[r] == RecentRegionType::Land ==> emitted_before(h2, h2.len() as int, cell_key(c2, x, r)))
        &&& (c2.info().current_column()[r] == RecentRegionType::Water ==> w2.contains(cell_key(c2, x, r)))
    } by {
        assert(cell_key(c2, x, r) == cell_key(c, x, r));
        if c2.info().current_column()[r] == RecentRegionType::Land && c.info().current_column()[r] == RecentRegionType::Land {
            assert(c.info().current_column()[r] == RecentRegionType::Land);
        }
        if c2.info().current_column()[r] == RecentRegionType::Water && c.info().current_column()[r] == RecentRegionType::Water {
            assert(c.info().current_column()[r] == RecentRegionType::Water);
        }
    }
    if c2.info().column_index() > 0 {
        let px = x - c.info().tile_size().0;
        assert forall|r: int| 0 <= r < c2.info().previous_column().len() implies {
            &&& (#[trigger] c2.info().previous_column()[r] == RecentRegionType::Land ==> emitted_before(h2, h2.len() as int, cell_key(c2, px, r)))
            &&& (c2.info().previous_column()[r] == RecentRegionType::Water ==> w2.contains(cell_key(c2, px, r)))
        } by {
            assert(cell_key(c2, px, r) == cell_key(c, px, r));
            assert(c2.info().previous_column()[r] == c.info().previous_column()[r]);
        }
    }
}

/// After a shift the old current column is the previous one, one tile to
/// the left of the new, unknown current column.
proof fn lemma_recorded_shift(c: ColumnCursor, c2: ColumnCursor, h: Seq<RegionData>, w: Set<(int, int, int)>)
    requires
        state_recorded(c, h, w),
        c2.info().previous_column() == c.info().current_column(),
        c2.info().current_column() == Seq::new(c.info().current_column().len(), |i: int| RecentRegionType::Unknown),
        c2.info().column_index() == c.info().column_index() + 1,
        c2.info().tile_size() == c.info().tile_size(),
        c2.info().bounds() == c.info().bounds(),
        c2.info().column_start().0 == c.info().column_start().0 + c.info().tile_size().0,
        c2.level() == c.level(),
    ensures
        state_recorded(c2, h, w),
{
    let x = c.info().column_start().0 as int;
    assert forall|r: int| 0 <= r < c2.info().previous_column().len() implies {
        &&& (#[trigger] c2.info().previous_column()[r] == RecentRegionType::Land
            ==> emitted_before(h, h.len() as int, cell_key(c2, c2.info().column_start().0 - c2.info().tile_size().0, r)))
        &&& (c2.info().previous_column()[r] == RecentRegionType::Water
            ==> w.contains(cell_key(c2, c2.info().column_start().0 - c2.info().tile_size().0, r)))
    } by {
        assert(cell_key(c2, c2.info().column_start().0 - c2.info().tile_size().0, r) == cell_key(c, x, r));
        assert(c2.info().previous_column()[r] == c.info().current_column()[r]);
    }
}

/// Tiles built for a coarser column come after their land children, and
/// their water children are known water.
proof fn lemma_build_order(ck: ColumnCursor, ck1: ColumnCursor, states: Seq<RecentRegionType>,
    h: Seq<RegionData>, w: Set<(int, int, int)>, h2: Seq<RegionData>)
    requires
        state_recorded(ck, h, w),
        ck.wf(),
        ck1.wf(),
        ck.info().column_index() > 0,
        states.len() == ck1.info().current_column().len(),
        ck.info().current_column().len() == 2 * states.len(),
        forall|i: int| 0 <= i < states.len() ==> #[trigger] states[i] == quad_status(
            ck.info().previous_column()[2 * i], ck.info().previous_column()[2 * i + 1],
            ck.info().current_column()[2 * i], ck.info().current_column()[2 * i + 1]),
        ck1.level() == ck.level() + 1,
        ck1.info().tile_size().0 == 2 * ck.info().tile_size().0,
        ck1.info().tile_size().1 == 2 * ck.info().tile_size().1,
        ck1.info().bounds() == ck.info().bounds(),
        ck.info().column_start().0 - ck.info().tile_size().0 == ck1.info().column_start().0,
        h.len() <= h2.len(),
        h2.subrange(0, h.len() as int) == h,
        tiles_for_rows(h2.subrange(h.len() as int, h2.len() as int), ck1, land_rows(states, states.len() as int)),
    ensures
        forall|i: int| h.len() <= i < h2.len() ==> #[trigger] children_resolved(h2, i, w),
{
    let rows = land_rows(states, states.len() as int);
    let fresh = h2.subrange(h.len() as int, h2.len() as int);
    lemma_land_rows(states, states.len() as int);
    assert forall|i: int| h.len() <= i < h2.len() implies #[trigger] children_resolved(h2, i, w) by {
        let t = i - h.len();
        let r = rows[t];
        let d = h2[i];
        assert(d == fresh[t]);
        let s = ck.info().tile_size();
        let ll = ck.info().bounds().0.1 as int;
        let x0 = ck1.info().column_start().0 as int;
        lemma_cell_fits(r, states.len() as int, ck1.info().tile_size().1 as int);
        assert(d.region_coords_y == ll + r * ck1.info().tile_size().1);
        assert(d.size_x / 2 == s.0 && d.size_y / 2 == s.1);
        assert(states[r] == RecentRegionType::Land);
        assert(ll + r * (2 * s.1) == ll + (2 * r) * s.1) by (nonlinear_arith);
        assert(ll + r * (2 * s.1) + s.1 == ll + (2 * r + 1) * s.1) by (nonlinear_arith);
        let xp = ck.info().column_start().0 - ck.info().tile_size().0;
        let xc = ck.info().column_start().0 as int;
        assert(child_key(d, 0, 0) == cell_key(ck, xp, 2 * r));
        assert(child_key(d, 0, 1) == cell_key(ck, xp, 2 * r + 1));
        assert(child_key(d, 1, 0) == cell_key(ck, xc, 2 * r));
        assert(child_key(d, 1, 1) == cell_key(ck, xc, 2 * r + 1));
        assert forall|key: (int, int, int)| emitted_before(h, h.len() as int, key) implies emitted_before(h2, i, key) by {
            let j = choose|j: int| 0 <= j < h.len() && #[trigger] tile_key(h[j]) == key;
            assert(h2[j] == h[j]);
        }
        let pc = ck.info().previous_column();
        let cc = ck.info().current_column();
        assert(pc[2 * r] == RecentRegionType::Land || pc[2 * r] == RecentRegionType::Water);
        assert(pc[2 * r + 1] == RecentRegionType::Land || pc[2 * r + 1] == RecentRegionType::Water);
        assert(cc[2 * r] == RecentRegionType::Land || cc[2 * r] == RecentRegionType::Water);
        assert(cc[2 * r + 1] == RecentRegionType::Land || cc[2 * r + 1] == RecentRegionType::Water);
        assert(pc[2 * r] == RecentRegionType::Land ==> emitted_before(h, h.len() as int, cell_key(ck, xp, 2 * r)));
        assert(pc[2 * r + 1] == RecentRegionType::Land ==> emitted_before(h, h.len() as int, cell_key(ck, xp, 2 * r + 1)));
        assert(cc[2 * r] == RecentRegionType::Land ==> emitted_before(h, h.len() as int, cell_key(ck, xc, 2 * r)));
        assert(cc[2 * r + 1] == RecentRegionType::Land ==> emitted_before(h, h.len() as int, cell_key(ck, xc, 2 * r + 1)));
    }
}

/// Water cells of a coarser column built from a finer LOD's two recorded
/// columns have water children, so the water set stays closed.
proof fn lemma_build_water(ck: ColumnCursor, n1: ColumnCursor, states: Seq<RecentRegionType>,
    h: Seq<RegionData>, w: Set<(int, int, int)>, base: (u32, u32), k: int)
    requires
        water_closed(w, base),
        state_recorded(ck, h, w),
        ck.wf(),
        ck.info().column_index() > 0,
        0 <= k,
        ck.level() == k,
        n1.level() == k + 1,
        ck.info().tile_size().0 == base.0 * pow2(k as nat),
        ck.info().tile_size().1 == base.1 * pow2(k as nat),
        n1.info().tile_size().0 == 2 * ck.info().tile_size().0,
        n1.info().tile_size().1 == 2 * ck.info().tile_size().1,
        n1.info().bounds() == ck.info().bounds(),
        ck.info().column_start().0 - ck.info().tile_size().0 == n1.info().column_start().0,
        n1.info().current_column() == states,
        ck.info().current_column().len() == 2 * states.len(),
        forall|i: int| 0 <= i < states.len() ==> #[trigger] states[i] == quad_status(
            ck.info().previous_column()[2 * i], ck.info().previous_column()[2 * i + 1],
            ck.info().current_column()[2 * i], ck.info().current_column()[2 * i + 1]),
    ensures
        water_closed(w.union(column_water(n1)), base),
{
    let w2 = w.union(column_water(n1));
    assert forall|key: (int, int, int)| #[trigger] w2.contains(key) && key.0 >= 1 implies {
        &&& w2.contains(child_cell(key, base, 0, 0))
        &&& w2.contains(child_cell(key, base, 0, 1))
        &&& w2.contains(child_cell(key, base, 1, 0))
        &&& w2.contains(child_cell(key, base, 1, 1))
    } by {
        if w.contains(key) {
            assert(w.contains(child_cell(key, base, 0, 0)));
            assert(w.contains(child_cell(key, base, 0, 1)));
            assert(w.contains(child_cell(key, base, 1, 0)));
            assert(w.contains(child_cell(key, base, 1, 1)));
        } else {
            assert(column_water(n1).contains(key));
            let r = choose|r: int| 0 <= r < n1.info().current_column().len()
                && n1.info().current_column()[r] == RecentRegionType::Water
                && key == #[trigger] cell_key(n1, n1.info().column_start().0 as int, r);
            assert(states[r] == RecentRegionType::Water);
            let sz = ck.info().tile_size();
            let ll = ck.info().bounds().0.1 as int;
            let xp = ck.info().column_start().0 - sz.0;
            let xc = ck.info().column_start().0 as int;
            assert(key.0 == k + 1);
            assert(ll + r * (2 * sz.1) == ll + (2 * r) * sz.1) by (nonlinear_arith);
            assert(ll + r * (2 * sz.1) + sz.1 == ll + (2 * r + 1) * sz.1) by (nonlinear_arith);
            assert(child_cell(key, base, 0, 0) == cell_key(ck, xp, 2 * r));
            assert(child_cell(key, base, 0, 1) == cell_key(ck, xp, 2 * r + 1));
            assert(child_cell(key, base, 1, 0) == cell_key(ck, xc, 2 * r));
            assert(child_cell(key, base, 1, 1) == cell_key(ck, xc, 2 * r + 1));
            assert(ck.info().previous_column()[2 * r] == RecentRegionType::Water);
            assert(ck.info().previous_column()[2 * r + 1] == RecentRegionType::Water);
            assert(ck.info().current_column()[2 * r] == RecentRegionType::Water);
            assert(ck.info().current_column()[2 * r + 1] == RecentRegionType::Water);
        }
    }
}

/// Rows below n that are land appear among the land rows.
proof fn lemma_land_rows(states: Seq<RecentRegionType>, n: int)
    requires
        0 <= n <= states.len(),
    ensures
        forall|r: int| 0 <= r < n && states[r] == RecentRegionType::Land ==> #[trigger] land_rows(states, n).contains(r),
        forall|t: int| 0 <= t < land_rows(states, n).len() ==> 0 <= #[trigger] land_rows(states, n)[t] < n
            && states[land_rows(states, n)[t]] == RecentRegionType::Land,
    decreases n,
{
    if n > 0 {
        lemma_land_rows(states, n - 1);
        let p = land_rows(states, n - 1);
        if states[n - 1] == RecentRegionType::Land {
            let q = p.push(n - 1);
            assert(land_rows(states, n) == q);
            assert forall|r: int| 0 <= r < n && states[r] == RecentRegionType::Land implies #[trigger] q.contains(r) by {
                if r == n - 1 {
                    assert(q[q.len() - 1] == r);
                } else {
                    assert(land_rows(states, n - 1).contains(r));
                    let t = choose|t: int| 0 <= t < p.len() && p[t] == r;
                    assert(q[t] == r);
                }
            }
        } else {
            assert(land_rows(states, n) == p);
            assert forall|r: int| 0 <= r < n && states[r] == RecentRegionType::Land implies #[trigger] p.contains(r) by {
                assert(land_rows(states, n - 1).contains(r));
            }
        }
    }
}

/// `d` is a tile of LOD 1 to `top` of the square whose lower left is `ll`:
/// its sides are base times 2^lod and it sits at whole multiples of them.
pub open spec fn tile_placed(d: RegionData, ll: (u32, u32), base: (u32, u32), top: int) -> bool {
    &&& 1 <= d.lod <= top
    &&& d.size_x == base.0 * pow2(d.lod as nat)
    &&& d.size_y == base.1 * pow2(d.lod as nat)
    &&& exists|a: int, b: int| 0 <= a < pow2((top - d.lod) as nat) && 0 <= b < pow2((top - d.lod) as nat)
        && #[trigger] (ll.0 + a * d.size_x) == d.region_coords_x && #[trigger] (ll.1 + b * d.size_y) == d.region_coords_y
}

/// Tile sizes are the base size times 2^k.
proof fn lemma_lod_sizes(cs: Seq<ColumnCursor>, base: (u32, u32), k: int)
    requires
        lods_shaped(cs),
        cs[0].info().tile_size() == base,
        0 <= k < cs.len(),
    ensures
        cs[k].info().tile_size().0 == base.0 * pow2(k as nat),
        cs[k].info().tile_size().1 == base.1 * pow2(k as nat),
    decreases k,
{
    if k > 0 {
        lemma_lod_sizes(cs, base, k - 1);
        let j = k - 1;
        assert(cs[j + 1].info().tile_size().0 == 2 * cs[j].info().tile_size().0);
        assert(cs[j + 1].info().tile_size().1 == 2 * cs[j].info().tile_size().1);
        let p = pow2(j as nat);
        assert(pow2(k as nat) == 2 * p);
        let b0 = base.0 as int;
        let b1 = base.1 as int;
        assert(b0 * (2 * p) == 2 * (b0 * p)) by (nonlinear_arith);
        assert(b1 * (2 * p) == 2 * (b1 * p)) by (nonlinear_arith);
        assert(cs[j].info().tile_size().0 == b0 * p);
        assert(cs[k].info().tile_size().0 == b0 * pow2(k as nat));
    } else {
        let p = pow2(0);
        assert(p == 1);
        let b0 = base.0 as int;
        let b1 = base.1 as int;
        assert(b0 * p == b0) by (nonlinear_arith) requires p == 1;
        assert(b1 * p == b1) by (nonlinear_arith) requires p == 1;
    }
}

/// Columns of LOD k hold 2^(top - k) rows.
proof fn lemma_lod_rows(cs: Seq<ColumnCursor>, k: int)
    requires
        lods_shaped(cs),
        cs[cs.len() - 1].info().current_column().len() == 1,
        0 <= k < cs.len(),
    ensures
        cs[k].info().current_column().len() == pow2((cs.len() - 1 - k) as nat),
    decreases cs.len() - k,
{
    if k < cs.len() - 1 {
        lemma_lod_rows(cs, k + 1);
        assert(cs[k].info().current_column().len() == 2 * cs[k + 1].info().current_column().len());
        assert(pow2((cs.len() - 1 - k) as nat) == 2 * pow2((cs.len() - 1 - (k + 1)) as nat));
    }
}

/// The cell was decided: emitted as a tile, or known water.
pub open spec fn decided(h: Seq<RegionData>, water: Set<(int, int, int)>, key: (int, int, int)) -> bool {
    emitted_before(h, h.len() as int, key) || water.contains(key)
}

/// Key of row r of column `col` of a cursor's square.
pub open spec fn grid_cell(c: ColumnCursor, col: int, r: int) -> (int, int, int) {
    cell_key(c, c.info().bounds().0.0 + col * c.info().tile_size().0, r)
}

/// Every cell of every column left of the cursor's current one was decided.
pub open spec fn columns_done(c: ColumnCursor, h: Seq<RegionData>, water: Set<(int, int, int)>) -> bool {
    forall|col: int, r: int| 0 <= col < c.info().column_index() && 0 <= r < c.info().current_column().len()
        ==> #[trigger] decided(h, water, grid_cell(c, col, r))
}

/// The previous column, once there is one, has no unknown cell.
pub open spec fn prev_complete(c: ColumnCursor) -> bool {
    c.info().column_index() >= 1 ==> forall|r: int| 0 <= r < c.info().previous_column().len()
        ==> #[trigger] c.info().previous_column()[r] != RecentRegionType::Unknown
}

/// The current column has no unknown cell.
pub open spec fn cur_complete(c: ColumnCursor) -> bool {
    forall|r: int| 0 <= r < c.info().current_column().len() ==> #[trigger] c.info().current_column()[r] != RecentRegionType::Unknown
}

proof fn lemma_done_mono(c: ColumnCursor, c2: ColumnCursor, h: Seq<RegionData>, w: Set<(int, int, int)>, h2: Seq<RegionData>, w2: Set<(int, int, int)>)
    requires
        columns_done(c, h, w),
        h.len() <= h2.len(),
        h2.subrange(0, h.len() as int) == h,
        w.subset_of(w2),
        c2.info().bounds() == c.info().bounds(),
        c2.info().tile_size() == c.info().tile_size(),
        c2.level() == c.level(),
        c2.info().column_index() == c.info().column_index(),
        c2.info().current_column().len() == c.info().current_column().len(),
    ensures
        columns_done(c2, h2, w2),
{
    assert forall|col: int, r: int| 0 <= col < c2.info().column_index() && 0 <= r < c2.info().current_column().len()
        implies #[trigger] decided(h2, w2, grid_cell(c2, col, r)) by {
        assert(grid_cell(c2, col, r) == grid_cell(c, col, r));
        assert(decided(h, w, grid_cell(c, col, r)));
        if emitted_before(h, h.len() as int, grid_cell(c, col, r)) {
            let j = choose|j: int| 0 <= j < h.len() && #[trigger] tile_key(h[j]) == grid_cell(c, col, r);
            assert(h2[j] == h[j]);
        }
    }
}

/// Shifting a complete, recorded column leaves it decided and complete as
/// the previous column.
proof fn lemma_done_shift(c: ColumnCursor, c2: ColumnCursor, h: Seq<RegionData>, w: Set<(int, int, int)>)
    requires
        columns_done(c, h, w),
        cur_complete(c),
        state_recorded(c, h, w),
        c.wf(),
        c2.info().previous_column() == c.info().current_column(),
        c2.info().current_column().len() == c.info().current_column().len(),
        c2.info().column_index() == c.info().column_index() + 1,
        c2.info().tile_size() == c.info().tile_size(),
        c2.info().bounds() == c.info().bounds(),
        c2.level() == c.level(),
    ensures
        columns_done(c2, h, w),
        prev_complete(c2),
{
    let x = c.info().column_start().0 as int;
    assert(x == c.info().bounds().0.0 + c.info().column_index() * c.info().tile_size().0);
    assert forall|col: int, r: int| 0 <= col < c2.info().column_index() && 0 <= r < c2.info().current_column().len()
        implies #[trigger] decided(h, w, grid_cell(c2, col, r)) by {
        assert(grid_cell(c2, col, r) == grid_cell(c, col, r));
        if col == c.info().column_index() {
            assert(grid_cell(c, col, r) == cell_key(c, x, r));
            assert(c.info().current_column()[r] != RecentRegionType::Unknown);
        }
    }
}

/// Child (dx, dy) of the cell `key` at the next finer LOD.
pub open spec fn child_cell(key: (int, int, int), base: (u32, u32), dx: int, dy: int) -> (int, int, int) {
    (key.0 - 1, key.1 + dx * (base.0 * pow2((key.0 - 1) as nat)), key.2 + dy * (base.1 * pow2((key.0 - 1) as nat)))
}

/// A coarser cell is known water only when its four children are.
pub open spec fn water_closed(water: Set<(int, int, int)>, base: (u32, u32)) -> bool {
    forall|key: (int, int, int)| #[trigger] water.contains(key) && key.0 >= 1 ==> {
        &&& water.contains(child_cell(key, base, 0, 0))
        &&& water.contains(child_cell(key, base, 0, 1))
        &&& water.contains(child_cell(key, base, 1, 0))
        &&& water.contains(child_cell(key, base, 1, 1))
    }
}

/// Key of the tile of LOD k at column a, row b of the square whose lower
/// left is `o`, for regions of size `base`.
pub open spec fn square_cell(o: (u32, u32), base: (u32, u32), k: int, a: int, b: int) -> (int, int, int) {
    (k, o.0 + a * (base.0 * pow2(k as nat)), o.1 + b * (base.1 * pow2(k as nat)))
}

/// Once LOD 0 has passed its last column, every LOD has.
proof fn lemma_all_columns_passed(cs: Seq<ColumnCursor>, k: int)
    requires
        lods_shaped(cs),
        forall|j: int| 0 <= j < cs.len() - 1 ==> (#[trigger] cs[j + 1]).info().column_index() == cs[j].info().column_index() / 2,
        cs[0].info().column_index() == cs[0].info().current_column().len(),
        0 <= k < cs.len(),
    ensures
        cs[k].info().column_index() == cs[k].info().current_column().len(),
    decreases k,
{
    if k > 0 {
        lemma_all_columns_passed(cs, k - 1);
        let j = k - 1;
        assert(cs[j + 1].info().column_index() == cs[j].info().column_index() / 2);
        assert(cs[j].info().current_column().len() == 2 * cs[j + 1].info().current_column().len());
    }
}

/// Coarse tiles LODs 1 to m - 1 may still emit: at most a column's rows for
/// each column not yet passed.
pub open spec fn budget(cs: Seq<ColumnCursor>, m: int) -> int
    decreases m,
{
    if m <= 1 {
        0
    } else {
        let c = cs[m - 1];
        budget(cs, m - 1) + (c.info().current_column().len() - c.info().column_index()) * c.info().current_column().len()
    }
}

proof fn lemma_budget_nonneg(cs: Seq<ColumnCursor>, m: int)
    requires
        m <= cs.len(),
        forall|k: int| 0 <= k < cs.len() ==> (#[trigger] cs[k]).info().column_index() <= cs[k].info().current_column().len(),
    ensures
        budget(cs, m) >= 0,
    decreases m,
{
    if m > 1 {
        lemma_budget_nonneg(cs, m - 1);
        let c = cs[m - 1];
        let r = c.info().current_column().len() as int;
        let col = c.info().column_index();
        assert((r - col) * r >= 0) by (nonlinear_arith) requires r >= col, col >= 0;
    }
}

/// Replacing cursor k changes the budget by the change of its term.
proof fn lemma_budget_update(cs: Seq<ColumnCursor>, k: int, c: ColumnCursor, m: int)
    requires
        0 <= k < cs.len(),
        m <= cs.len(),
        c.info().current_column().len() == cs[k].info().current_column().len(),
    ensures
        budget(cs.update(k, c), m) == budget(cs, m) + (if 1 <= k < m {
            (c.info().current_column().len() as int) * (cs[k].info().column_index() - c.info().column_index())
        } else { 0 }),
    decreases m,
{
    if m > 1 {
        lemma_budget_update(cs, k, c, m - 1);
        let r = c.info().current_column().len() as int;
        let a = cs[k].info().column_index();
        let b = c.info().column_index();
        assert((r - b) * r == (r - a) * r + r * (a - b)) by (nonlinear_arith);
    }
}

/// At most `n` rows are land.
proof fn lemma_land_rows_len(states: Seq<RecentRegionType>, n: int)
    requires
        0 <= n <= states.len(),
    ensures
        land_rows(states, n).len() <= n,
    decreases n,
{
    if n > 0 {
        lemma_land_rows_len(states, n - 1);
    }
}

/// Cursors cover one square, LOD k at index k, each LOD's tiles twice the
/// size of the finer LOD's and its columns half as long.
pub open spec fn lods_shaped(cs: Seq<ColumnCursor>) -> bool {
    &&& cs.len() >= 1
    &&& forall|k: int| 0 <= k < cs.len() ==> (#[trigger] cs[k]).wf()
    &&& forall|k: int| 0 <= k < cs.len() ==> (#[trigger] cs[k]).info().bounds() == cs[0].info().bounds()
    &&& forall|k: int| 0 <= k < cs.len() ==> (#[trigger] cs[k]).level() == k
    &&& forall|k: int| 0 <= k < cs.len() ==> (#[trigger] cs[k]).grid_name() == cs[0].grid_name()
    &&& forall|k: int| 0 <= k < cs.len() - 1 ==> {
        &&& (#[trigger] cs[k + 1]).info().tile_size().0 == 2 * cs[k].info().tile_size().0
        &&& cs[k + 1].info().tile_size().1 == 2 * cs[k].info().tile_size().1
        &&& cs[k].info().current_column().len() == 2 * cs[k + 1].info().current_column().len()
    }
}

/// Replacing cursor k by one of the same shape keeps the cursors shaped.
proof fn lemma_shaped_update(cs: Seq<ColumnCursor>, k: int, c: ColumnCursor)
    requires
        lods_shaped(cs),
        0 <= k < cs.len(),
        c.wf(),
        c.info().bounds() == cs[k].info().bounds(),
        c.level() == cs[k].level(),
        c.grid_name() == cs[k].grid_name(),
        c.info().tile_size() == cs[k].info().tile_size(),
        c.info().current_column().len() == cs[k].info().current_column().len(),
    ensures
        lods_shaped(cs.update(k, c)),
        forall|j: int| 0 <= j < cs.len() && j != k ==> #[trigger] cs.update(k, c)[j] == cs[j],
{
    let ns = cs.update(k, c);
    assert forall|j: int| 0 <= j < ns.len() - 1 implies {
        &&& (#[trigger] ns[j + 1]).info().tile_size().0 == 2 * ns[j].info().tile_size().0
        &&& ns[j + 1].info().tile_size().1 == 2 * ns[j].info().tile_size().1
        &&& ns[j].info().current_column().len() == 2 * ns[j + 1].info().current_column().len()
    } by {
        assert(cs[j + 1].info().tile_size().0 == 2 * cs[j].info().tile_size().0);
    }
    assert forall|j: int| 0 <= j < ns.len() implies (#[trigger] ns[j]).info().bounds() == ns[0].info().bounds() by {
        assert(cs[j].info().bounds() == cs[0].info().bounds());
    }
    assert forall|j: int| 0 <= j < ns.len() implies (#[trigger] ns[j]).grid_name() == ns[0].grid_name() by {
        assert(cs[j].grid_name() == cs[0].grid_name());
    }
}

/// All the column cursors for all the LODs.
///
/// `next` returns the regions and coarser tiles for which impostors are to
/// be generated, in an order where each coarser tile comes after the finer
/// tiles it is built from, and as soon as they are all known.
pub struct ColumnCursors {
    /// Bounds of the entire region data
    bounds: ((u32, u32), (u32, u32)),
    /// Cursors for each LOD
    cursors: Vec<ColumnCursor>,
    /// The regions
    regions: Vec<RegionData>,
    /// Next region to take
    next_region: usize,
    /// Tiles decided but not yet returned
    queue: Vec<RegionData>,
    /// Next tile of the queue to return
    queue_pos: usize,
    /// All regions taken and all columns flushed
    finished: bool,
    /// Base region size
    base: (u32, u32),
    /// The enclosing square in meters, lower left and upper right
    square: ((u32, u32), (u32, u32)),
    /// Every tile decided so far, returned or queued, in order
    history: Ghost<Seq<RegionData>>,
    /// Tiles returned so far
    returned: Ghost<Seq<RegionData>>,
    /// Cells decided to be water, as (lod, x, y)
    water: Ghost<Set<(int, int, int)>>,
}

impl ColumnCursors {
    /// Tiles returned by `next` so far, in order.
    pub closed spec fn emitted(&self) -> Seq<RegionData> {
        self.returned@
    }

    /// Cells known to be water, as (lod, x, y).
    pub closed spec fn known_water(&self) -> Set<(int, int, int)> {
        self.water@
    }

    /// The history agrees with the cursors and the queue.
    pub closed spec fn history_ok(&self) -> bool {
        &&& forall|k: int| 0 <= k < self.cursors@.len() ==> #[trigger] state_recorded(self.cursors@[k], self.history@, self.water@)
        &&& coarse_after_children(self.history@, self.water@)
        &&& self.history@ == self.returned@ + self.queue@.subrange(self.queue_pos as int, self.queue@.len() as int)
        &&& forall|i: int| 0 <= i < self.next_region ==> #[trigger] emitted_before(self.history@, self.history@.len() as int, base_key(self.regions@[i]))
        &&& self.finished ==> self.next_region == self.regions@.len()
        &&& lod0_tiles(self.history@) == self.regions@.subrange(0, self.next_region as int).map_values(|d: RegionData| at_lod0(d))
        &&& forall|i: int| 0 <= i < self.history@.len() && (#[trigger] self.history@[i]).lod >= 1
            ==> tile_placed(self.history@[i], self.square.0, self.base, self.cursors@.len() - 1)
        &&& forall|k: int| 0 <= k < self.cursors@.len() ==> #[trigger] columns_done(self.cursors@[k], self.history@, self.water@)
        &&& forall|k: int| 0 <= k < self.cursors@.len() ==> #[trigger] prev_complete(self.cursors@[k])
        &&& self.finished ==> self.cursors@[0].info().column_index() == self.cursors@[0].info().current_column().len()
        &&& water_closed(self.water@, self.base)
        &&& self.lod0_ok()
    }

    /// The LOD 0 invariant depends only on the regions, the square, the
    /// base size, the position in the input, the water set and the cursors.
    proof fn lemma_lod0_frame(&self, other: &ColumnCursors)
        requires
            self.lod0_ok(),
            other.regions == self.regions,
            other.square == self.square,
            other.base == self.base,
            other.next_region == self.next_region,
            other.water == self.water,
            other.cursors == self.cursors,
        ensures
            other.lod0_ok(),
    {
        let n = self.regions@.len();
        let c0 = self.cursors@[0];
        let col0 = c0.info().column_index();
        assert forall|i: int| self.next_region <= i < n implies #[trigger] other.col_of(i) >= col0 by {
            assert(self.col_of(i) >= col0);
        }
        assert forall|i: int| 0 <= i < self.next_region implies #[trigger] other.col_of(i) <= col0 by {
            assert(self.col_of(i) <= col0);
        }
        assert forall|i: int| 0 <= i < self.next_region && #[trigger] other.col_of(i) == col0
            implies c0.info().current_column()[other.row_of(i)] == RecentRegionType::Land by {
            assert(self.col_of(i) == col0);
        }
        assert forall|r: int| 0 <= r < c0.info().current_column().len() && #[trigger] c0.info().current_column()[r] == RecentRegionType::Land
            implies exists|i: int| 0 <= i < other.next_region && other.col_of(i) == col0 && #[trigger] other.row_of(i) == r by {
            let i = choose|i: int| 0 <= i < self.next_region && self.col_of(i) == col0 && #[trigger] self.row_of(i) == r;
            assert(other.row_of(i) == r);
        }
        assert forall|i: int| 0 <= i < n implies {
            &&& other.square.0.0 <= (#[trigger] other.regions@[i]).region_coords_x
            &&& (other.regions@[i].region_coords_x - other.square.0.0) % (other.base.0 as int) == 0
            &&& other.col_of(i) < c0.info().current_column().len()
            &&& other.square.0.1 <= other.regions@[i].region_coords_y
            &&& (other.regions@[i].region_coords_y - other.square.0.1) % (other.base.1 as int) == 0
            &&& other.row_of(i) < c0.info().current_column().len()
        } by {
            assert(self.regions@[i] == other.regions@[i]);
            assert(self.col_of(i) < c0.info().current_column().len());
        }
    }

    /// After region j is marked in the LOD 0 column that holds it, with
    /// the new water cells of that column added, the LOD 0 invariant holds
    /// with j taken.
    proof fn lemma_lod0_after_mark(&self, pre: &ColumnCursors, j: int)
        requires
            pre.lod0_ok(),
            pre.cursors@.len() >= 1,
            pre.cursors@[0].wf(),
            pre.cursors@[0].info().bounds() == pre.square,
            pre.cursors@[0].info().tile_size() == pre.base,
            pre.base.0 > 0 && pre.base.1 > 0,
            state_recorded(pre.cursors@[0], pre.history@, pre.water@),
            j == pre.next_region,
            0 <= j < pre.regions@.len(),
            pre.col_of(j) == pre.cursors@[0].info().column_index(),
            self.regions == pre.regions,
            self.square == pre.square,
            self.base == pre.base,
            self.next_region == j + 1,
            self.cursors@.len() == pre.cursors@.len(),
            self.water@ == pre.water@.union(column_water(self.cursors@[0])),
            cell_marked(pre.cursors@[0], self.cursors@[0], pre.regions@[j].region_coords_y, true),
            self.cursors@[0].info().exact_row(pre.regions@[j].region_coords_y) == Some(pre.row_of(j) as usize),
        ensures
            self.lod0_ok(),
    {
        let n = self.regions@.len();
        let oc = pre.cursors@[0];
        let c2 = self.cursors@[0];
        let col0 = oc.info().column_index();
        let rowj = pre.row_of(j);
        let ox = self.square.0.0 as int;
        let oy = self.square.0.1 as int;
        let b0 = self.base.0 as int;
        let b1 = self.base.1 as int;
        assert forall|i: int| 0 <= i < n implies self.col_of(i) == pre.col_of(i) && self.row_of(i) == pre.row_of(i) by {}
        assert forall|i: int| 0 <= i < n implies {
            &&& self.square.0.0 <= (#[trigger] self.regions@[i]).region_coords_x
            &&& (self.regions@[i].region_coords_x - self.square.0.0) % b0 == 0
            &&& self.col_of(i) < c2.info().current_column().len()
            &&& self.square.0.1 <= self.regions@[i].region_coords_y
            &&& (self.regions@[i].region_coords_y - self.square.0.1) % b1 == 0
            &&& self.row_of(i) < c2.info().current_column().len()
        } by {
            assert(pre.regions@[i] == self.regions@[i]);
            assert(pre.col_of(i) < oc.info().current_column().len());
        }
        let rj = self.regions@[j];
        lemma_grid_point(rj.region_coords_x as int, ox, b0);
        lemma_grid_point(rj.region_coords_y as int, oy, b1);
        assert forall|i: int| self.next_region <= i < n implies #[trigger] self.col_of(i) >= col0 by {
            assert(pre.col_of(i) >= col0);
        }
        assert forall|i: int| 0 <= i < self.next_region implies #[trigger] self.col_of(i) <= col0 by {
            if i < j { assert(pre.col_of(i) <= col0); }
        }
        assert(c2.info().current_column()[rowj] == RecentRegionType::Land);
        assert forall|i: int| 0 <= i < self.next_region && #[trigger] self.col_of(i) == col0
            implies c2.info().current_column()[self.row_of(i)] == RecentRegionType::Land by {
            if i < j {
                assert(pre.col_of(i) == col0);
                let r = pre.row_of(i);
                assert(oc.info().current_column()[r] == RecentRegionType::Land);
                if r < rowj {
                    assert(c2.info().current_column()[r] == filled(oc.info().current_column()[r]));
                } else if r > rowj {
                    assert(c2.info().current_column()[r] == oc.info().current_column()[r]);
                }
            }
        }
        assert forall|r: int| 0 <= r < c2.info().current_column().len() && #[trigger] c2.info().current_column()[r] == RecentRegionType::Land
            implies exists|i: int| 0 <= i < self.next_region && self.col_of(i) == col0 && #[trigger] self.row_of(i) == r by {
            if r == rowj {
                assert(self.row_of(j) == r);
            } else {
                if r < rowj {
                    assert(c2.info().current_column()[r] == filled(oc.info().current_column()[r]));
                } else {
                    assert(c2.info().current_column()[r] == oc.info().current_column()[r]);
                }
                assert(oc.info().current_column()[r] == RecentRegionType::Land);
                let i = choose|i: int| 0 <= i < pre.next_region && pre.col_of(i) == col0 && #[trigger] pre.row_of(i) == r;
                assert(self.row_of(i) == r);
            }
        }
        assert forall|i: int| 0 <= i < n implies !self.water@.contains(#[trigger] base_key(self.regions@[i])) by {
            let ri = self.regions@[i];
            assert(!pre.water@.contains(base_key(ri)));
            if column_water(c2).contains(base_key(ri)) {
                let rr = choose|rr: int| 0 <= rr < c2.info().current_column().len()
                    && c2.info().current_column()[rr] == RecentRegionType::Water
                    && base_key(ri) == #[trigger] cell_key(c2, c2.info().column_start().0 as int, rr);
                assert(c2.info().column_start() == oc.info().column_start());
                assert(oc.info().column_start().0 == ox + col0 * b0);
                assert(ri.region_coords_x == ox + col0 * b0);
                assert(ri.region_coords_y == oy + rr * b1);
                lemma_grid_index(ri.region_coords_x as int, ox, b0, col0);
                lemma_grid_index(ri.region_coords_y as int, oy, b1, rr);
                assert(pre.col_of(i) == col0 && pre.row_of(i) == rr);
                if i < j {
                    assert(oc.info().current_column()[rr] == RecentRegionType::Land);
                    if rr < rowj {
                        assert(c2.info().current_column()[rr] == filled(oc.info().current_column()[rr]));
                    } else if rr > rowj {
                        assert(c2.info().current_column()[rr] == oc.info().current_column()[rr]);
                    }
                } else if i > j {
                    lemma_sorted_before(self.regions@, j, i);
                    assert(rj.region_coords_x == ox + col0 * b0);
                    assert(ri.region_coords_y > rj.region_coords_y);
                    assert(rr > rowj) by (nonlinear_arith)
                        requires ri.region_coords_y == oy + rr * b1, rj.region_coords_y == oy + rowj * b1,
                            ri.region_coords_y > rj.region_coords_y, b1 > 0;
                    assert(c2.info().current_column()[rr] == oc.info().current_column()[rr]);
                    assert(pre.water@.contains(cell_key(oc, oc.info().column_start().0 as int, rr)));
                }
            }
        }
    }

    /// No item of the history at LOD `k` is known water.
    proof fn lemma_history_not_water(&self, k: int)
        requires
            self.wf(),
            k >= 0,
        ensures
            forall|i: int| 0 <= i < self.history@.len() && (#[trigger] self.history@[i]).lod == k
                ==> !self.water@.contains(tile_key(self.history@[i])),
        decreases k,
    {
        let h = self.history@;
        let w = self.water@;
        if k == 0 {
            assert forall|i: int| 0 <= i < h.len() && (#[trigger] h[i]).lod == k implies !w.contains(tile_key(h[i])) by {
                lemma_lod0_member(h, i);
                let t = lod0_tiles(h);
                let m = choose|m: int| 0 <= m < t.len() && t[m] == h[i];
                let rm = self.regions@[m];
                assert(t[m] == at_lod0(rm));
                assert(tile_key(h[i]) == base_key(rm));
            }
        } else {
            self.lemma_history_not_water(k - 1);
            assert forall|i: int| 0 <= i < h.len() && (#[trigger] h[i]).lod == k implies !w.contains(tile_key(h[i])) by {
                let d = h[i];
                assert(children_resolved(h, i, w));
                assert(tile_placed(d, self.square.0, self.base, self.cursors@.len() - 1));
                let p = pow2((k - 1) as nat);
                assert(pow2(k as nat) == 2 * p);
                let b0 = self.base.0 as int;
                let b1 = self.base.1 as int;
                assert((b0 * (2 * p)) / 2 == b0 * p) by (nonlinear_arith);
                assert((b1 * (2 * p)) / 2 == b1 * p) by (nonlinear_arith);
                assert forall|dx: int, dy: int| child_key(d, dx, dy) == #[trigger] child_cell(tile_key(d), self.base, dx, dy) by {}
                if w.contains(tile_key(d)) {
                    let key = tile_key(d);
                    assert(w.contains(child_cell(key, self.base, 0, 0)));
                    assert(w.contains(child_cell(key, self.base, 0, 1)));
                    assert(w.contains(child_cell(key, self.base, 1, 0)));
                    assert(w.contains(child_cell(key, self.base, 1, 1)));
                    assert forall|dx: int, dy: int| #[trigger] emitted_before(h, i, child_key(d, dx, dy)) && w.contains(child_key(d, dx, dy)) implies false by {
                        let j = choose|j: int| 0 <= j < i && #[trigger] tile_key(h[j]) == child_key(d, dx, dy);
                        assert(h[j].lod == k - 1);
                    }
                    assert(child_key(d, 0, 0) == child_cell(key, self.base, 0, 0));
                    assert(child_key(d, 0, 1) == child_cell(key, self.base, 0, 1));
                    assert(child_key(d, 1, 0) == child_cell(key, self.base, 1, 0));
                    assert(child_key(d, 1, 1) == child_cell(key, self.base, 1, 1));
                }
            }
        }
    }

    /// No input region's cell is known water, and nothing emitted is known
    /// water. With `water_closed`, a cell of any LOD is water only when no
    /// input region lies in it.
    pub proof fn lemma_water_is_empty(&self)
        requires
            self.wf(),
        ensures
            forall|i: int| 0 <= i < self.input().len() ==> !self.known_water().contains(#[trigger] base_key(self.input()[i])),
            forall|key: (int, int, int)| #[trigger] emitted_before(self.emitted(), self.emitted().len() as int, key)
                ==> !self.known_water().contains(key),
    {
        let h = self.history@;
        let e = self.returned@;
        assert(h.subrange(0, e.len() as int) =~= e);
        assert forall|key: (int, int, int)| #[trigger] emitted_before(e, e.len() as int, key) implies !self.water@.contains(key) by {
            let j = choose|j: int| 0 <= j < e.len() && #[trigger] tile_key(e[j]) == key;
            assert(h[j] == e[j]);
            assert(h[j].lod >= 0);
            self.lemma_history_not_water(h[j].lod as int);
        }
    }

    /// Column of input region i in the square.
    pub closed spec fn col_of(&self, i: int) -> int {
        (self.regions@[i].region_coords_x - self.square.0.0) / (self.base.0 as int)
    }

    /// Row of input region i in the square.
    pub closed spec fn row_of(&self, i: int) -> int {
        (self.regions@[i].region_coords_y - self.square.0.1) / (self.base.1 as int)
    }

    /// Input regions sit on cells of the square; the LOD 0 cursor has taken
    /// the regions left of its column and those of its column below its next
    /// row, has marked those of its column as land, and every land cell of
    /// its column is such a region; no input region's cell is water.
    pub closed spec fn lod0_ok(&self) -> bool {
        let n = self.regions@.len();
        let c0 = self.cursors@[0];
        let col0 = c0.info().column_index();
        let rows0 = c0.info().current_column().len();
        &&& strictly_sorted(self.regions@)
        &&& forall|i: int| 0 <= i < n ==> {
            &&& self.square.0.0 <= (#[trigger] self.regions@[i]).region_coords_x
            &&& (self.regions@[i].region_coords_x - self.square.0.0) % (self.base.0 as int) == 0
            &&& self.col_of(i) < rows0
            &&& self.square.0.1 <= self.regions@[i].region_coords_y
            &&& (self.regions@[i].region_coords_y - self.square.0.1) % (self.base.1 as int) == 0
            &&& self.row_of(i) < rows0
        }
        &&& forall|i: int| self.next_region <= i < n ==> #[trigger] self.col_of(i) >= col0
        &&& forall|i: int| 0 <= i < self.next_region ==> #[trigger] self.col_of(i) <= col0
        &&& forall|i: int| 0 <= i < self.next_region && #[trigger] self.col_of(i) == col0
            ==> c0.info().current_column()[self.row_of(i)] == RecentRegionType::Land
        &&& forall|r: int| 0 <= r < rows0 && #[trigger] c0.info().current_column()[r] == RecentRegionType::Land
            ==> exists|i: int| 0 <= i < self.next_region && self.col_of(i) == col0 && #[trigger] self.row_of(i) == r
        &&& forall|i: int| 0 <= i < n ==> !self.water@.contains(#[trigger] base_key(self.regions@[i]))
    }

    /// An upper bound on the tiles `next` has still to return: those queued,
    /// the regions not taken, and, until the end of input is flushed, one
    /// for the flush and a column's rows for each coarser column not yet
    /// passed.
    pub closed spec fn remaining(&self) -> int {
        (self.queue@.len() - self.queue_pos) + (self.regions@.len() - self.next_region)
            + (if self.finished { 0 } else { 1 + budget(self.cursors@, self.cursors@.len() as int) })
    }

    proof fn lemma_remaining_nonneg(&self)
        requires
            self.wf(),
        ensures
            self.remaining() >= 0,
            budget(self.cursors@, self.cursors@.len() as int) >= 0,
    {
        assert forall|k: int| 0 <= k < self.cursors@.len() implies (#[trigger] self.cursors@[k]).info().column_index()
            <= self.cursors@[k].info().current_column().len() by {
            assert(self.cursors@[k].wf());
        }
        lemma_budget_nonneg(self.cursors@, self.cursors@.len() as int);
    }

    /// Lower left corner of the enclosing square, meters.
    pub closed spec fn square_origin(&self) -> (u32, u32) {
        self.square.0
    }

    /// Size of the group's regions.
    pub closed spec fn base_size(&self) -> (u32, u32) {
        self.base
    }

    /// Every coarser tile returned is a tile of the enclosing square at its
    /// LOD: 2^lod base regions on a side, at a multiple of its own size from
    /// the square's lower left corner.
    pub proof fn lemma_coarse_tiles_placed(&self)
        requires
            self.wf(),
        ensures
            forall|i: int| 0 <= i < self.emitted().len() && (#[trigger] self.emitted()[i]).lod >= 1
                ==> tile_placed(self.emitted()[i], self.square_origin(), self.base_size(), self.top_lod()),
    {
        assert forall|i: int| 0 <= i < self.emitted().len() && (#[trigger] self.emitted()[i]).lod >= 1
            implies tile_placed(self.emitted()[i], self.square_origin(), self.base_size(), self.top_lod()) by {
            assert(self.history@[i] == self.returned@[i]);
        }
    }

    /// The group's regions.
    pub closed spec fn input(&self) -> Seq<RegionData> {
        self.regions@
    }

    /// Highest LOD built.
    pub closed spec fn top_lod(&self) -> int {
        self.cursors@.len() - 1
    }

    /// Bounds of the group.
    pub closed spec fn group_bounds(&self) -> ((u32, u32), (u32, u32)) {
        self.bounds
    }

    /// Cursor states agree with each other.
    pub closed spec fn wf(&self) -> bool {
        &&& self.cursors@.len() >= 1
        &&& self.cursors@[0].info().tile_size() == self.base
        &&& self.cursors@[0].info().bounds() == self.square
        &&& self.cursors@[self.cursors@.len() - 1].info().current_column().len() == 1
        &&& self.lods_coupled()
        &&& self.history_ok()
        &&& self.queue_pos <= self.queue@.len()
        &&& self.next_region <= self.regions@.len()
        &&& all_wf(self.regions@)
        &&& self.base.0 > 0
    }

    /// The cursors for the regions of one viz group. The group must be
    /// non-empty, of one region size, aligned to that size, strictly
    /// increasing in (x, y), and fit in a square of at most `MAX_LOD`
    /// levels whose far corner is a u32 coordinate.
    pub fn new(regions: Vec<RegionData>) -> (r: Result<ColumnCursors, GroupError>)
        requires
            all_wf(regions@),
        ensures
            regions@.len() == 0 ==> r == Err::<ColumnCursors, GroupError>(GroupError::EmptyGroup),
            regions@.len() > 0 && !homogeneous(regions@) ==> r == Err::<ColumnCursors, GroupError>(GroupError::NotHomogeneous),
            regions@.len() > 0 && homogeneous(regions@) && !aligned(regions@) ==> r == Err::<ColumnCursors, GroupError>(GroupError::Unaligned),
            regions@.len() > 0 && homogeneous(regions@) && aligned(regions@) && !strictly_sorted(regions@)
                ==> r == Err::<ColumnCursors, GroupError>(GroupError::UnorderedInput),
            r matches Ok(c) ==> c.wf() && c.input() == regions@ && 0 <= c.top_lod() <= MAX_LOD
                && is_group_bounds(regions@, c.group_bounds())
                && least_square(c.top_lod() as nat, c.group_bounds(), (regions@[0].size_x, regions@[0].size_y))
                && c.base_size() == (regions@[0].size_x, regions@[0].size_y)
                && c.square_origin().0 == round_down((c.group_bounds().0.0 / regions@[0].size_x) as int, pow2(c.top_lod() as nat) as int) * regions@[0].size_x
                && c.square_origin().1 == round_down((c.group_bounds().0.1 / regions@[0].size_y) as int, pow2(c.top_lod() as nat) as int) * regions@[0].size_y,
            r matches Err(e) ==> e != GroupError::BoundsTooLarge || (regions@.len() > 0 && homogeneous(regions@)
                && aligned(regions@) && strictly_sorted(regions@)
                && forall|b: ((u32, u32), (u32, u32))| #[trigger] is_group_bounds(regions@, b)
                    ==> !square_in_range(b, (regions@[0].size_x, regions@[0].size_y))),
            regions@.len() > 0 && homogeneous(regions@) && aligned(regions@) && strictly_sorted(regions@)
                && (forall|b: ((u32, u32), (u32, u32))| #[trigger] is_group_bounds(regions@, b)
                    ==> square_in_range(b, (regions@[0].size_x, regions@[0].size_y))) ==> r is Ok,
    {
        let bounds = match get_group_bounds(&regions) {
            Ok(b) => b,
            Err(e) => { return Err(e); },
        };
        let base = (regions[0].size_x, regions[0].size_y);
        let n = regions.len();
        let mut i: usize = 0;
        while i < n
            invariant
                n == regions@.len(),
                0 <= i <= n,
                homogeneous(regions@),
                all_wf(regions@),
                base == (regions@[0].size_x, regions@[0].size_y),
                forall|j: int| 0 <= j < i ==> (#[trigger] regions@[j]).region_coords_x % regions@[j].size_x == 0
                    && regions@[j].region_coords_y % regions@[j].size_y == 0,
            decreases n - i,
        {
            assert(regions@[i as int].wf());
            if regions[i].region_coords_x % base.0 != 0 || regions[i].region_coords_y % base.1 != 0 {
                return Err(GroupError::Unaligned);
            }
            i += 1;
        }
        let mut i: usize = 1;
        while i < n
            invariant
                n == regions@.len(),
                1 <= i <= n || n == 0,
                n > 0,
                forall|j: int| 0 < j < i ==> loc_before(regions@[j - 1].loc(), (#[trigger] regions@[j]).loc()),
                homogeneous(regions@),
                aligned(regions@),
            decreases n - i,
        {
            let a = &regions[i - 1];
            let b = &regions[i];
            if !(a.region_coords_x < b.region_coords_x || (a.region_coords_x == b.region_coords_x && a.region_coords_y < b.region_coords_y)) {
                return Err(GroupError::UnorderedInput);
            }
            i += 1;
        }
        assert(regions@[0].wf());
        let ll_c = (bounds.0.0 / base.0, bounds.0.1 / base.1);
        let ur_c = (bounds.1.0 / base.0, bounds.1.1 / base.1);
        proof {
            assert forall|b2: ((u32, u32), (u32, u32))| #[trigger] is_group_bounds(regions@, b2) implies b2 == bounds by {
                lemma_bounds_unique(regions@, b2, bounds);
            }
        }
        let (top, sq_ll, sq_ur) = match enclosing_square(ll_c, ur_c) {
            Ok(t) => t,
            Err(e) => {
                proof {
                    assert forall|b2: ((u32, u32), (u32, u32))| #[trigger] is_group_bounds(regions@, b2)
                        implies !square_in_range(b2, (regions@[0].size_x, regions@[0].size_y)) by {
                        assert(b2 == bounds);
                        assert((bounds.0.0 / base.0) as u32 == ll_c.0);
                        if square_in_range(b2, base) {
                            let k = choose|k: nat| k <= MAX_LOD && #[trigger] square_fits(k, ll_c, ur_c)
                                && (forall|j: nat| j < k ==> !square_fits(j, ll_c, ur_c))
                                && (round_down(ll_c.0 as int, pow2(k) as int) + pow2(k)) * base.0 <= u32::MAX
                                && (round_down(ll_c.1 as int, pow2(k) as int) + pow2(k)) * base.1 <= u32::MAX;
                        }
                    }
                }
                return Err(e);
            },
        };
        let side = sq_ur.0 - sq_ll.0 as u64;
        proof {
            lemma_pow2_mono(top as nat, 16);
            reveal_with_fuel(pow2, 17);
            assert(side == pow2(top as nat));
            assert(side <= 65536);
            let a = sq_ll.0 as int;
            let b = base.0 as int;
            let c = sq_ll.1 as int;
            let d = base.1 as int;
            assert(a * b <= 0xFFFF_FFFF * 0xFFFF_FFFF) by (nonlinear_arith)
                requires 0 <= a <= 0xFFFF_FFFF, 0 <= b <= 0xFFFF_FFFF;
            assert(c * d <= 0xFFFF_FFFF * 0xFFFF_FFFF) by (nonlinear_arith)
                requires 0 <= c <= 0xFFFF_FFFF, 0 <= d <= 0xFFFF_FFFF;
        }
        let ll_x = sq_ll.0 as u64 * base.0 as u64;
        let ll_y = sq_ll.1 as u64 * base.1 as u64;
        proof {
            assert(side * base.0 <= 65536 * 0xFFFF_FFFFu64) by (nonlinear_arith)
                requires side <= 65536, base.0 <= 0xFFFF_FFFFu64;
            assert(side * base.1 <= 65536 * 0xFFFF_FFFFu64) by (nonlinear_arith)
                requires side <= 65536, base.1 <= 0xFFFF_FFFFu64;
        }
        let span_x = side * base.0 as u64;
        let span_y = side * base.1 as u64;
        if ll_x > 0xFFFF_FFFFu64 || span_x > 0xFFFF_FFFFu64 || ll_x + span_x > 0xFFFF_FFFFu64
            || ll_y > 0xFFFF_FFFFu64 || span_y > 0xFFFF_FFFFu64 || ll_y + span_y > 0xFFFF_FFFFu64 {
            proof {
                assert forall|b2: ((u32, u32), (u32, u32))| #[trigger] is_group_bounds(regions@, b2)
                    implies !square_in_range(b2, (regions@[0].size_x, regions@[0].size_y)) by {
                    assert(b2 == bounds);
                    if square_in_range(b2, base) {
                        let k = choose|k: nat| k <= MAX_LOD && #[trigger] square_fits(k, ll_c, ur_c)
                            && (forall|j: nat| j < k ==> !square_fits(j, ll_c, ur_c))
                            && (round_down(ll_c.0 as int, pow2(k) as int) + pow2(k)) * base.0 <= u32::MAX
                            && (round_down(ll_c.1 as int, pow2(k) as int) + pow2(k)) * base.1 <= u32::MAX;
                        if k < top as nat {
                            assert(!square_fits(k, ll_c, ur_c));
                        } else if (top as nat) < k {
                            assert(!square_fits(top as nat, ll_c, ur_c));
                        }
                        assert(k == top as nat);
                        let p = pow2(k) as int;
                        assert((sq_ll.0 as int + p) * base.0 == sq_ll.0 as int * base.0 + p * base.0) by (nonlinear_arith);
                        assert((sq_ll.1 as int + p) * base.1 == sq_ll.1 as int * base.1 + p * base.1) by (nonlinear_arith);
                        assert(side * base.0 == p * base.0);
                    }
                }
            }
            return Err(GroupError::BoundsTooLarge);
        }
        let lod_bounds = ((ll_x as u32, ll_y as u32), ((ll_x + span_x) as u32, (ll_y + span_y) as u32));
        let grid = regions[0].grid.clone();
        let mut cursors: Vec<ColumnCursor> = Vec::new();
        let mut size: (u64, u64) = (base.0 as u64, base.1 as u64);
        let mut rows: u64 = side;
        let mut k: u8 = 0;
        while k <= top
            invariant
                k <= top + 1,
                top <= MAX_LOD,
                k <= top ==> rows == pow2((top - k) as nat),
                k <= top ==> rows * size.0 == span_x,
                k <= top ==> rows * size.1 == span_y,
                rows <= 65536,
                ll_x + span_x <= 0xFFFF_FFFFu64,
                ll_y + span_y <= 0xFFFF_FFFFu64,
                lod_bounds == ((ll_x as u32, ll_y as u32), ((ll_x + span_x) as u32, (ll_y + span_y) as u32)),
                size.0 > 0,
                size.1 > 0,
                k == 0 ==> size == (base.0 as u64, base.1 as u64),
                cursors@.len() == k,
                k > 0 ==> lods_shaped(cursors@),
                k > 0 ==> cursors@[0].info().bounds() == lod_bounds,
                k > 0 ==> cursors@[0].grid_name() == grid,
                forall|j: int| 0 <= j < cursors@.len() ==> (#[trigger] cursors@[j]).info().column_index() == 0,
                forall|j: int| 0 <= j < cursors@.len() ==> #[trigger] state_recorded(cursors@[j], Seq::<RegionData>::empty(), Set::<(int, int, int)>::empty()),
                forall|j: int| 0 <= j < cursors@.len() ==> #[trigger] columns_done(cursors@[j], Seq::<RegionData>::empty(), Set::<(int, int, int)>::empty()),
                forall|j: int| 0 <= j < cursors@.len() ==> #[trigger] prev_complete(cursors@[j]),
                k > 0 && k <= top ==> cursors@[k - 1].info().current_column().len() == 2 * rows,
                k == top + 1 ==> cursors@[top as int].info().current_column().len() == 1,
                k > 0 && k <= top ==> size.0 == 2 * cursors@[k - 1].info().tile_size().0 && size.1 == 2 * cursors@[k - 1].info().tile_size().1,
                k > 0 ==> cursors@[0].info().tile_size() == base,
            decreases top + 1 - k,
        {
            proof {
                lemma_pow2_mono(0, (top - k) as nat);
                assert(size.0 <= span_x) by (nonlinear_arith)
                    requires rows * size.0 == span_x, rows >= 1, size.0 > 0;
                assert(size.1 <= span_y) by (nonlinear_arith)
                    requires rows * size.1 == span_y, rows >= 1, size.1 > 0;
            }
            proof {
                if k == top {
                    assert(pow2(0) == 1);
                }
            }
            let cursor = ColumnCursor::new(lod_bounds, (size.0 as u32, size.1 as u32), rows as usize, k, grid.clone());
            let ghost cs = cursors@;
            cursors.push(cursor);
            proof {
                let ns = cursors@;
                assert(ns[k as int] == cursor);
                assert forall|j: int| 0 <= j < ns.len() - 1 implies {
                    &&& (#[trigger] ns[j + 1]).info().tile_size().0 == 2 * ns[j].info().tile_size().0
                    &&& ns[j + 1].info().tile_size().1 == 2 * ns[j].info().tile_size().1
                    &&& ns[j].info().current_column().len() == 2 * ns[j + 1].info().current_column().len()
                } by {
                    if j < cs.len() - 1 {
                        assert(ns[j] == cs[j] && ns[j + 1] == cs[j + 1]);
                    } else {
                        assert(ns[j] == cs[j]);
                    }
                }
                assert forall|j: int| 0 <= j < ns.len() implies (#[trigger] ns[j]).wf() && ns[j].info().bounds() == ns[0].info().bounds()
                    && ns[j].level() == j && ns[j].grid_name() == ns[0].grid_name() && ns[j].info().column_index() == 0 by {
                    if j < cs.len() {
                        assert(ns[j] == cs[j]);
                    }
                }
                assert(lods_shaped(ns));
                assert forall|j: int| 0 <= j < ns.len() implies #[trigger] columns_done(ns[j], Seq::<RegionData>::empty(), Set::<(int, int, int)>::empty())
                    && prev_complete(ns[j]) by {
                    if j < cs.len() {
                        assert(ns[j] == cs[j]);
                    }
                }
                assert forall|j: int| 0 <= j < ns.len() implies #[trigger] state_recorded(ns[j], Seq::<RegionData>::empty(), Set::<(int, int, int)>::empty()) by {
                    if j < cs.len() {
                        assert(ns[j] == cs[j]);
                    } else {
                        assert(forall|r: int| 0 <= r < cursor.info().current_column().len() ==> cursor.info().current_column()[r] == RecentRegionType::Unknown);
                    }
                }
            }
            if k < top {
                proof {
                    assert(pow2((top - k) as nat) == 2 * pow2((top - k - 1) as nat));
                    assert((rows / 2) * (size.0 * 2) == span_x) by (nonlinear_arith)
                        requires rows * size.0 == span_x, rows % 2 == 0;
                    assert((rows / 2) * (size.1 * 2) == span_y) by (nonlinear_arith)
                        requires rows * size.1 == span_y, rows % 2 == 0;
                    assert(size.0 * 2 <= span_x) by (nonlinear_arith)
                        requires rows * size.0 == span_x, rows >= 2, size.0 > 0;
                    assert(size.1 * 2 <= span_y) by (nonlinear_arith)
                        requires rows * size.1 == span_y, rows >= 2, size.1 > 0;
                }
                size = (size.0 * 2, size.1 * 2);
                rows = rows / 2;
            }
            k = k + 1;
        }
        proof {
            assert(regions@.subrange(0, 0).map_values(|d: RegionData| at_lod0(d)) =~= Seq::<RegionData>::empty());
            assert(lod0_tiles(Seq::<RegionData>::empty()) == Seq::<RegionData>::empty());
        }
        let result = ColumnCursors {
            bounds,
            cursors,
            regions,
            next_region: 0,
            queue: Vec::new(),
            queue_pos: 0,
            finished: false,
            base,
            square: lod_bounds,
            history: Ghost(Seq::empty()),
            returned: Ghost(Seq::empty()),
            water: Ghost(Set::empty()),
        };
        proof {
            let c = result;
            let n = c.regions@.len();
            let p = pow2(top as nat) as int;
            lemma_lod_rows(c.cursors@, 0);
            assert(c.cursors@[0].info().current_column().len() == p);
            let b0 = base.0 as int;
            let b1 = base.1 as int;
            assert(sq_ll.0 as int * b0 <= ll_c.0 as int * b0) by (nonlinear_arith) requires sq_ll.0 <= ll_c.0, b0 > 0;
            assert(sq_ll.1 as int * b1 <= ll_c.1 as int * b1) by (nonlinear_arith) requires sq_ll.1 <= ll_c.1, b1 > 0;
            vstd::arithmetic::div_mod::lemma_fundamental_div_mod(bounds.0.0 as int, b0);
            vstd::arithmetic::div_mod::lemma_fundamental_div_mod(bounds.0.1 as int, b1);
            assert(ll_c.0 as int * b0 <= bounds.0.0) by (nonlinear_arith)
                requires ll_c.0 as int == bounds.0.0 as int / b0, bounds.0.0 as int == b0 * (bounds.0.0 as int / b0) + bounds.0.0 as int % b0,
                    bounds.0.0 as int % b0 >= 0;
            assert(ll_c.1 as int * b1 <= bounds.0.1) by (nonlinear_arith)
                requires ll_c.1 as int == bounds.0.1 as int / b1, bounds.0.1 as int == b1 * (bounds.0.1 as int / b1) + bounds.0.1 as int % b1,
                    bounds.0.1 as int % b1 >= 0;
            assert(c.square.0.0 as int == sq_ll.0 as int * b0);
            assert(c.square.0.1 as int == sq_ll.1 as int * b1);
            assert forall|i: int| 0 <= i < n implies {
                &&& c.square.0.0 <= (#[trigger] c.regions@[i]).region_coords_x
                &&& (c.regions@[i].region_coords_x - c.square.0.0) % b0 == 0
                &&& c.col_of(i) < p
                &&& c.square.0.1 <= c.regions@[i].region_coords_y
                &&& (c.regions@[i].region_coords_y - c.square.0.1) % b1 == 0
                &&& c.row_of(i) < p
            } by {
                let r = c.regions@[i];
                assert(r.size_x == base.0 && r.size_y == base.1);
                assert(r.region_coords_x % r.size_x == 0 && r.region_coords_y % r.size_y == 0);
                assert(bounds.0.0 <= r.region_coords_x && r.region_coords_x + r.size_x <= bounds.1.0);
                assert(bounds.0.1 <= r.region_coords_y && r.region_coords_y + r.size_y <= bounds.1.1);
                lemma_on_grid(r.region_coords_x as int, bounds.0.0 as int, bounds.1.0 as int, b0, sq_ll.0 as int, p);
                lemma_on_grid(r.region_coords_y as int, bounds.0.1 as int, bounds.1.1 as int, b1, sq_ll.1 as int, p);
            }
            assert forall|i: int| 0 <= i < n implies #[trigger] c.col_of(i) >= 0 by {
                assert(c.square.0.0 <= c.regions@[i].region_coords_x);
            }
            assert forall|r: int| 0 <= r < p implies #[trigger] c.cursors@[0].info().current_column()[r] != RecentRegionType::Land by {
                assert(state_recorded(c.cursors@[0], Seq::<RegionData>::empty(), Set::<(int, int, int)>::empty()));
                if c.cursors@[0].info().current_column()[r] == RecentRegionType::Land {
                    assert(emitted_before(Seq::<RegionData>::empty(), 0, cell_key(c.cursors@[0], c.cursors@[0].info().column_start().0 as int, r)));
                }
            }
            assert(c.lod0_ok());
        }
        Ok(result)
    }

    /// The next region or coarser tile for which an impostor is to be
    /// generated, or None when the group is done. Regions come back at LOD 0
    /// in input order; each coarser tile comes once both of the finer
    /// columns it covers are complete.
    #[verifier::rlimit(100)]
    pub fn next(&mut self) -> (r: Option<RegionData>)
        requires
            old(self).wf(),
        ensures
            final(self).wf(),
            final(self).input() == old(self).input(),
            final(self).top_lod() == old(self).top_lod(),
            final(self).group_bounds() == old(self).group_bounds(),
            old(self).known_water().subset_of(final(self).known_water()),
            r matches Some(d) ==> final(self).emitted() == old(self).emitted().push(d),
            0 <= final(self).remaining(),
            r is Some ==> final(self).remaining() < old(self).remaining(),
            r is None ==> final(self).emitted() == old(self).emitted(),
            r is None ==> forall|i: int| 0 <= i < final(self).input().len()
                ==> #[trigger] emitted_before(final(self).emitted(), final(self).emitted().len() as int, base_key(final(self).input()[i])),
            r is None ==> lod0_tiles(final(self).emitted()) == final(self).input().map_values(|d: RegionData| at_lod0(d)),
            r is None ==> forall|k: int, a: int, b: int| 0 <= k <= final(self).top_lod()
                && 0 <= a < pow2((final(self).top_lod() - k) as nat) && 0 <= b < pow2((final(self).top_lod() - k) as nat)
                ==> #[trigger] decided(final(self).emitted(), final(self).known_water(),
                    square_cell(final(self).square_origin(), final(self).base_size(), k, a, b)),
    {
        let ghost s0 = *self;
        if self.queue_pos < self.queue.len() {
            let r = self.queue[self.queue_pos].duplicate();
            self.queue_pos += 1;
            proof {
                self.returned = Ghost(self.returned@.push(r));
                assert(self.history@ =~= self.returned@ + self.queue@.subrange(self.queue_pos as int, self.queue@.len() as int));
                s0.lemma_lod0_frame(self);
                self.lemma_remaining_nonneg();
            }
            return Some(r);
        }
        self.queue = Vec::new();
        self.queue_pos = 0;
        proof {
            assert(self.history@ =~= self.returned@ + self.queue@.subrange(0, 0));
            s0.lemma_lod0_frame(self);
        }
        let rows0 = self.cursors[0].recent_column_info.current.len();
        if self.next_region < self.regions.len() {
            let mut region = self.regions[self.next_region].duplicate();
            region.lod = 0;
            let origin_x = self.cursors[0].recent_column_info.lod_bounds.0.0;
            let mut target: usize = 0;
            if region.region_coords_x >= origin_x {
                let c = (region.region_coords_x - origin_x) / self.base.0;
                target = if (c as u64) < (rows0 as u64) { c as usize } else { rows0 };
            }
            let ghost j = self.next_region as int;
            let ghost bud0 = budget(self.cursors@, self.cursors@.len() as int);
            proof {
                assert(!self.finished);
                assert(self.queue@.len() == 0);
                assert(self.cursors@[0].info().bounds() == self.square);
                assert(self.square.0.0 <= self.regions@[j].region_coords_x);
                assert(target == self.col_of(j));
            }
            while self.cursors[0].recent_column_info.column < target
                invariant
                    self.wf(),
                    target <= rows0,
                    rows0 == self.cursors@[0].info().current_column().len(),
                    self.regions == old(self).regions,
                    self.cursors@.len() == old(self).cursors@.len(),
                    self.bounds == old(self).bounds,
                    self.queue_pos == 0,
                    self.returned == old(self).returned,
                    old(self).water@.subset_of(self.water@),
                    self.next_region == old(self).next_region,
                    self.next_region < self.regions@.len(),
                    region == (RegionData { lod: 0, ..self.regions@[self.next_region as int] }),
                    j == self.next_region,
                    target == self.col_of(j),
                    !self.finished,
                    self.queue@.len() + budget(self.cursors@, self.cursors@.len() as int) <= bud0,
                    bud0 + (self.regions@.len() - j) + 1 == old(self).remaining(),
                    self.square == old(self).square,
                    self.base == old(self).base,
                decreases target - self.cursors@[0].info().column_index(),
            {
                proof {
                    let ox = self.square.0.0 as int;
                    assert forall|i: int| self.next_region <= i < self.regions@.len()
                        implies #[trigger] self.col_of(i) > self.cursors@[0].info().column_index() by {
                        if i > j {
                            lemma_sorted_before(self.regions@, j, i);
                            assert(self.square.0.0 <= self.regions@[j].region_coords_x);
                            vstd::arithmetic::div_mod::lemma_div_is_ordered(
                                self.regions@[j].region_coords_x - ox, self.regions@[i].region_coords_x - ox, self.base.0 as int);
                        }
                    }
                }
                self.finish_column();
            }
            let ghost pre = *self;
            let ghost cs = self.cursors@;
            proof {
                // The region's cell is the current column's cell at its row, and it is unknown.
                let c0 = self.cursors@[0];
                let ox = self.square.0.0 as int;
                let oy = self.square.0.1 as int;
                let b0 = self.base.0 as int;
                let b1 = self.base.1 as int;
                let rj = self.regions@[j];
                assert(self.col_of(j) >= c0.info().column_index());
                assert(c0.info().column_index() == self.col_of(j));
                assert(c0.info().bounds() == self.square);
                assert(c0.info().tile_size() == self.base);
                assert(self.square.0.0 <= rj.region_coords_x && (rj.region_coords_x - ox) % b0 == 0);
                assert(self.square.0.1 <= rj.region_coords_y && (rj.region_coords_y - oy) % b1 == 0);
                lemma_grid_point(rj.region_coords_x as int, ox, b0);
                lemma_grid_point(rj.region_coords_y as int, oy, b1);
                assert(c0.info().column_start().0 == rj.region_coords_x);
                let row = self.row_of(j);
                assert(c0.info().exact_row(rj.region_coords_y) == Some(row as usize));
                assert(state_recorded(c0, self.history@, self.water@));
                assert(cell_key(c0, c0.info().column_start().0 as int, row) == base_key(rj));
                assert(c0.info().current_column()[row] != RecentRegionType::Water);
                if c0.info().current_column()[row] == RecentRegionType::Land {
                    let i = choose|i: int| 0 <= i < self.next_region && self.col_of(i) == c0.info().column_index() && #[trigger] self.row_of(i) == row;
                    lemma_sorted_before(self.regions@, i, j);
                    let ri = self.regions@[i];
                    lemma_grid_point(ri.region_coords_x as int, ox, b0);
                    lemma_grid_point(ri.region_coords_y as int, oy, b1);
                }
            }
            let ghost cs = self.cursors@;
            let ghost h = self.history@;
            let ghost w = self.water@;
            self.cursors[0].mark_cell((region.region_coords_x, region.region_coords_y));
            self.queue.push(region);
            proof {
                lemma_shaped_update(cs, 0, self.cursors@[0]);
                assert(self.cursors@ == cs.update(0, self.cursors@[0]));
                let h2 = h.push(region);
                let c2 = self.cursors@[0];
                let w2 = w.union(column_water(c2));
                assert(h2 =~= self.returned@ + self.queue@.subrange(0, self.queue@.len() as int));
                assert(h2.subrange(0, h.len() as int) =~= h);
                assert forall|r: int| 0 <= r < c2.info().current_column().len() implies {
                    &&& (#[trigger] c2.info().current_column()[r] == RecentRegionType::Land ==> cs[0].info().current_column()[r] == RecentRegionType::Land
                        || emitted_before(h2, h2.len() as int, cell_key(c2, c2.info().column_start().0 as int, r)))
                    &&& (c2.info().current_column()[r] == RecentRegionType::Water ==> cs[0].info().current_column()[r] == RecentRegionType::Water
                        || w2.contains(cell_key(c2, c2.info().column_start().0 as int, r)))
                } by {
                    if c2.info().current_column()[r] == RecentRegionType::Land && cs[0].info().current_column()[r] != RecentRegionType::Land {
                        assert(tile_key(h2[h.len() as int]) == cell_key(c2, c2.info().column_start().0 as int, r));
                    }
                    if c2.info().current_column()[r] == RecentRegionType::Water {
                        assert(column_water(c2).contains(cell_key(c2, c2.info().column_start().0 as int, r)));
                    }
                }
                lemma_recorded_update(cs[0], c2, h, w, h2, w2);
                lemma_done_mono(cs[0], c2, h, w, h2, w2);
                assert forall|j: int| 0 <= j < self.cursors@.len() implies #[trigger] columns_done(self.cursors@[j], h2, w2)
                    && prev_complete(self.cursors@[j]) by {
                    assert(prev_complete(cs[j]));
                    if j != 0 {
                        assert(self.cursors@[j] == cs[j]);
                        lemma_done_mono(cs[j], cs[j], h, w, h2, w2);
                    }
                }
                assert forall|j: int| 0 <= j < self.cursors@.len() implies #[trigger] state_recorded(self.cursors@[j], h2, w2) by {
                    if j != 0 {
                        assert(self.cursors@[j] == cs[j]);
                        lemma_recorded_mono(cs[j], h, w, h2, w2);
                    }
                }
                lemma_order_mono(h, w, h2, w2);
                assert forall|i: int| 0 <= i < self.next_region + 1 implies #[trigger] emitted_before(h2, h2.len() as int, base_key(self.regions@[i])) by {
                    if i < self.next_region {
                        assert(emitted_before(h, h.len() as int, base_key(self.regions@[i])));
                        let j = choose|j: int| 0 <= j < h.len() && #[trigger] tile_key(h[j]) == base_key(self.regions@[i]);
                        assert(h2[j] == h[j]);
                    } else {
                        assert(tile_key(h2[h.len() as int]) == base_key(self.regions@[i]));
                    }
                }
                assert(children_resolved(h2, h.len() as int, w2));
                assert forall|i: int| 0 <= i < h2.len() && (#[trigger] h2[i]).lod >= 1
                    implies tile_placed(h2[i], self.square.0, self.base, self.cursors@.len() - 1) by {
                    assert(h2[i] == h[i]);
                }
                assert(h2.drop_last() == h);
                assert(lod0_tiles(h2) == lod0_tiles(h).push(region));
                assert(self.regions@.subrange(0, self.next_region + 1).map_values(|d: RegionData| at_lod0(d))
                    =~= self.regions@.subrange(0, self.next_region as int).map_values(|d: RegionData| at_lod0(d)).push(region));
                assert forall|i: int| 0 <= i < h2.len() implies #[trigger] children_resolved(h2, i, w2) by {}
                self.history = Ghost(h2);
                self.water = Ghost(w2);
            }
            self.next_region += 1;
            let first = self.queue[0].duplicate();
            self.queue_pos = 1;
            proof {
                self.returned = Ghost(self.returned@.push(first));
                assert(self.history@ =~= self.returned@ + self.queue@.subrange(1, self.queue@.len() as int));
                self.lemma_lod0_after_mark(&pre, j);
                lemma_budget_update(cs, 0, self.cursors@[0], cs.len() as int);
                assert(self.cursors@ == cs.update(0, self.cursors@[0]));
                self.lemma_remaining_nonneg();
            }
            return Some(first);
        }
        if !self.finished {
            let ghost bud_end = budget(self.cursors@, self.cursors@.len() as int);
            while self.cursors[0].recent_column_info.column < rows0
                invariant
                    self.wf(),
                    rows0 == self.cursors@[0].info().current_column().len(),
                    self.regions == old(self).regions,
                    self.cursors@.len() == old(self).cursors@.len(),
                    self.bounds == old(self).bounds,
                    self.queue_pos == 0,
                    self.returned == old(self).returned,
                    old(self).water@.subset_of(self.water@),
                    self.next_region == self.regions@.len(),
                    !self.finished,
                    self.queue@.len() + budget(self.cursors@, self.cursors@.len() as int) <= bud_end,
                    bud_end + 1 == old(self).remaining(),
                decreases rows0 - self.cursors@[0].info().column_index(),
            {
                self.finish_column();
            }
            proof { self.lemma_remaining_nonneg(); }
            self.finished = true;
            if self.queue.len() > 0 {
                let first = self.queue[0].duplicate();
                self.queue_pos = 1;
                proof {
                    self.returned = Ghost(self.returned@.push(first));
                    assert(self.history@ =~= self.returned@ + self.queue@.subrange(1, self.queue@.len() as int));
                }
                return Some(first);
            }
        }
        proof {
            assert(self.history@ =~= self.returned@);
            assert(self.regions@.subrange(0, self.next_region as int) =~= self.regions@);
            let cs = self.cursors@;
            let top = cs.len() - 1;
            assert forall|k: int, a: int, b: int| 0 <= k <= top
                && 0 <= a < pow2((top - k) as nat) && 0 <= b < pow2((top - k) as nat)
                implies #[trigger] decided(self.returned@, self.water@, square_cell(self.square.0, self.base, k, a, b)) by {
                lemma_all_columns_passed(cs, k);
                lemma_lod_rows(cs, k);
                lemma_lod_sizes(cs, self.base, k);
                assert(columns_done(cs[k], self.history@, self.water@));
                assert(decided(self.history@, self.water@, grid_cell(cs[k], a, b)));
                assert(cs[k].info().bounds() == self.square);
                assert(grid_cell(cs[k], a, b) == square_cell(self.square.0, self.base, k, a, b));
            }
        }
        None
    }

    /// Every coarser tile that `next` returned came after its land
    /// children: each of its four quadrants at the next finer LOD was
    /// returned earlier or is known to be water.
    pub proof fn lemma_coarse_tiles_follow_children(&self)
        requires
            self.wf(),
        ensures
            coarse_after_children(self.emitted(), self.known_water()),
            water_closed(self.known_water(), self.base_size()),
    {
        let h = self.history@;
        let e = self.returned@;
        assert(h.subrange(0, e.len() as int) =~= e);
        assert forall|i: int| 0 <= i < e.len() implies #[trigger] children_resolved(e, i, self.water@) by {
            assert(children_resolved(h, i, self.water@));
            assert(e[i] == h[i]);
            assert forall|key: (int, int, int)| emitted_before(h, i, key) implies emitted_before(e, i, key) by {
                let j = choose|j: int| 0 <= j < i && #[trigger] tile_key(h[j]) == key;
                assert(e[j] == h[j]);
            }
        }
    }

    /// Each LOD's tiles are twice the size of the finer LOD's, over the same
    /// square, and each LOD's current column is the one holding the finer
    /// LOD's current column.
    pub closed spec fn lods_coupled(&self) -> bool {
        &&& lods_shaped(self.cursors@)
        &&& forall|k: int| 0 <= k < self.cursors@.len() - 1 ==>
            (#[trigger] self.cursors@[k + 1]).info().column_index() == self.cursors@[k].info().column_index() / 2
    }

    /// LOD 0's current column is complete: build every coarser column that
    /// now has both of its finer columns, then move each completed LOD to
    /// its next column.
    #[verifier::rlimit(100)]
    fn finish_column(&mut self)
        requires
            old(self).wf(),
            old(self).cursors@[0].info().column_index() < old(self).cursors@[0].info().current_column().len(),
            forall|i: int| old(self).next_region <= i < old(self).regions@.len()
                ==> #[trigger] old(self).col_of(i) > old(self).cursors@[0].info().column_index(),
        ensures
            final(self).queue@.len() - old(self).queue@.len() + budget(final(self).cursors@, final(self).cursors@.len() as int)
                <= budget(old(self).cursors@, old(self).cursors@.len() as int),
            final(self).square == old(self).square,
            final(self).wf(),
            final(self).cursors@.len() == old(self).cursors@.len(),
            final(self).cursors@[0].info().column_index() == old(self).cursors@[0].info().column_index() + 1,
            forall|j: int| 0 <= j < final(self).cursors@.len() ==> (#[trigger] final(self).cursors@[j]).info().current_column().len()
                == old(self).cursors@[j].info().current_column().len(),
            final(self).regions == old(self).regions,
            final(self).next_region == old(self).next_region,
            final(self).queue_pos == old(self).queue_pos,
            final(self).queue@.len() >= old(self).queue@.len(),
            final(self).queue@.subrange(0, old(self).queue@.len() as int) == old(self).queue@,
            final(self).finished == old(self).finished,
            final(self).base == old(self).base,
            final(self).bounds == old(self).bounds,
            final(self).returned == old(self).returned,
            old(self).water@.subset_of(final(self).water@),
    {
        let ghost cs0 = self.cursors@;
        self.cursors[0].column_finished();
        proof {
            lemma_shaped_update(cs0, 0, self.cursors@[0]);
            let w2 = self.water@.union(column_water(self.cursors@[0]));
            let c2 = self.cursors@[0];
            assert forall|r: int| 0 <= r < c2.info().current_column().len() implies {
                &&& (#[trigger] c2.info().current_column()[r] == RecentRegionType::Land ==> cs0[0].info().current_column()[r] == RecentRegionType::Land
                    || emitted_before(self.history@, self.history@.len() as int, cell_key(c2, c2.info().column_start().0 as int, r)))
                &&& (c2.info().current_column()[r] == RecentRegionType::Water ==> cs0[0].info().current_column()[r] == RecentRegionType::Water
                    || w2.contains(cell_key(c2, c2.info().column_start().0 as int, r)))
            } by {
                if c2.info().current_column()[r] == RecentRegionType::Water {
                    assert(column_water(c2).contains(cell_key(c2, c2.info().column_start().0 as int, r)));
                }
            }
            assert(self.history@.subrange(0, self.history@.len() as int) =~= self.history@);
            lemma_recorded_update(cs0[0], c2, self.history@, self.water@, self.history@, w2);
            assert forall|k: int| 0 <= k < self.cursors@.len() implies #[trigger] state_recorded(self.cursors@[k], self.history@, w2) by {
                if k != 0 {
                    assert(self.cursors@[k] == cs0[k]);
                    lemma_recorded_mono(cs0[k], self.history@, self.water@, self.history@, w2);
                }
            }
            lemma_order_mono(self.history@, self.water@, self.history@, w2);
            lemma_done_mono(cs0[0], c2, self.history@, self.water@, self.history@, w2);
            assert forall|k: int| 0 <= k < self.cursors@.len() implies #[trigger] columns_done(self.cursors@[k], self.history@, w2)
                && prev_complete(self.cursors@[k]) by {
                if k != 0 {
                    assert(self.cursors@[k] == cs0[k]);
                    lemma_done_mono(cs0[k], cs0[k], self.history@, self.water@, self.history@, w2);
                } else {
                    assert(prev_complete(cs0[0]));
                }
            }
            assert(cur_complete(c2));
            let n = self.regions@.len();
            let col0 = cs0[0].info().column_index();
            assert(cs0[0].info().bounds() == self.square);
            assert forall|i: int| 0 <= i < n implies !w2.contains(#[trigger] base_key(self.regions@[i])) by {
                let ri = self.regions@[i];
                assert(!self.water@.contains(base_key(ri)));
                if column_water(c2).contains(base_key(ri)) {
                    let rr = choose|rr: int| 0 <= rr < c2.info().current_column().len()
                        && c2.info().current_column()[rr] == RecentRegionType::Water
                        && base_key(ri) == #[trigger] cell_key(c2, c2.info().column_start().0 as int, rr);
                    let ox = self.square.0.0 as int;
                    let oy = self.square.0.1 as int;
                    let b0 = self.base.0 as int;
                    let b1 = self.base.1 as int;
                    assert(c2.info().tile_size() == self.base);
                    assert(ri.region_coords_x == ox + col0 * b0);
                    assert(ri.region_coords_y == oy + rr * b1);
                    lemma_grid_index(ri.region_coords_x as int, ox, b0, col0);
                    lemma_grid_index(ri.region_coords_y as int, oy, b1, rr);
                    assert(self.col_of(i) == col0);
                    assert(self.row_of(i) == rr);
                    assert(i < self.next_region);
                    assert(cs0[0].info().current_column()[rr] == RecentRegionType::Land);
                }
            }
            assert forall|key: (int, int, int)| #[trigger] w2.contains(key) && key.0 >= 1 implies {
                &&& w2.contains(child_cell(key, self.base, 0, 0))
                &&& w2.contains(child_cell(key, self.base, 0, 1))
                &&& w2.contains(child_cell(key, self.base, 1, 0))
                &&& w2.contains(child_cell(key, self.base, 1, 1))
            } by {
                if !self.water@.contains(key) {
                    let r = choose|r: int| 0 <= r < c2.info().current_column().len()
                        && c2.info().current_column()[r] == RecentRegionType::Water
                        && key == #[trigger] cell_key(c2, c2.info().column_start().0 as int, r);
                }
            }
            self.water = Ghost(w2);
        }
        let ghost cs0_done = self.cursors@[0];
        let ghost bstart = budget(old(self).cursors@, old(self).cursors@.len() as int);
        proof {
            lemma_budget_update(cs0, 0, self.cursors@[0], cs0.len() as int);
            assert(self.cursors@ == cs0.update(0, self.cursors@[0]));
        }
        let top = self.cursors.len() - 1;
        let ghost q0 = self.queue@;
        let ghost col0 = old(self).cursors@[0].info().column_index();
        let mut k: usize = 0;
        while k < top
            invariant
                lods_shaped(self.cursors@),
                self.cursors@[0].info().tile_size() == self.base,
                self.queue_pos <= self.queue@.len(),
                self.next_region <= self.regions@.len(),
                top == self.cursors@.len() - 1,
                0 <= k <= top,
                self.cursors@.len() == old(self).cursors@.len(),
                self.regions == old(self).regions,
                self.next_region == old(self).next_region,
                self.queue_pos == old(self).queue_pos,
                self.finished == old(self).finished,
                self.base == old(self).base,
                self.bounds == old(self).bounds,
                self.returned == old(self).returned,
                old(self).water@.subset_of(self.water@),
                self.queue@.len() >= q0.len(),
                self.queue@.subrange(0, q0.len() as int) == q0,
                q0 == old(self).queue@,
                forall|j: int| 0 <= j < self.cursors@.len() ==> #[trigger] state_recorded(self.cursors@[j], self.history@, self.water@),
                coarse_after_children(self.history@, self.water@),
                self.history@ == self.returned@ + self.queue@.subrange(self.queue_pos as int, self.queue@.len() as int),
                forall|i: int| 0 <= i < self.next_region ==> #[trigger] emitted_before(self.history@, self.history@.len() as int, base_key(self.regions@[i])),
                self.finished ==> self.next_region == self.regions@.len(),
                lod0_tiles(self.history@) == self.regions@.subrange(0, self.next_region as int).map_values(|d: RegionData| at_lod0(d)),
                self.square == old(self).square,
                self.cursors@[0].info().bounds() == self.square,
                self.cursors@[self.cursors@.len() - 1].info().current_column().len() == 1,
                forall|i: int| 0 <= i < self.history@.len() && (#[trigger] self.history@[i]).lod >= 1
                    ==> tile_placed(self.history@[i], self.square.0, self.base, self.cursors@.len() - 1),
                forall|j: int| 0 <= j < self.cursors@.len() ==> #[trigger] columns_done(self.cursors@[j], self.history@, self.water@),
                forall|j: int| 0 <= j < self.cursors@.len() ==> #[trigger] prev_complete(self.cursors@[j]),
                cur_complete(self.cursors@[k as int]),
                water_closed(self.water@, self.base),
                forall|i: int| 0 <= i < self.regions@.len() ==> !self.water@.contains(#[trigger] base_key(self.regions@[i])),
                k > 0 ==> forall|r: int| 0 <= r < self.cursors@[0].info().current_column().len()
                    ==> #[trigger] self.cursors@[0].info().current_column()[r] == RecentRegionType::Unknown,
                k == 0 ==> self.cursors@[0] == cs0_done,
                bstart == budget(old(self).cursors@, old(self).cursors@.len() as int),
                self.queue@.len() - q0.len() + budget(self.cursors@, self.cursors@.len() as int)
                    - (if k >= 1 { self.cursors@[k as int].info().current_column().len() as int } else { 0 }) <= bstart,
                k == 0 ==> self.cursors@[0].info().column_index() == col0,
                k > 0 ==> self.cursors@[0].info().column_index() == col0 + 1,
                self.cursors@[k as int].info().column_index() < self.cursors@[k as int].info().current_column().len(),
                forall|j: int| k <= j < top ==> (#[trigger] self.cursors@[j + 1]).info().column_index() == self.cursors@[j].info().column_index() / 2,
                k >= 1 ==> self.cursors@[k - 1].info().column_index() == 2 * (self.cursors@[k as int].info().column_index() + 1),
                forall|j: int| 0 <= j && j + 1 < k ==> (#[trigger] self.cursors@[j]).info().column_index() == 2 * self.cursors@[j + 1].info().column_index(),
                forall|j: int| 0 <= j < self.cursors@.len() ==> (#[trigger] self.cursors@[j]).info().current_column().len()
                    == old(self).cursors@[j].info().current_column().len(),
            ensures
                k == top || self.cursors@[k as int].info().column_index() % 2 == 0,
            decreases top - k,
        {
            let col = self.cursors[k].recent_column_info.column;
            if col % 2 == 0 {
                break;
            }
            let states = self.cursors[k].recent_column_info.parent_states();
            let ghost hb = self.history@;
            let ghost cb = self.cursors@;
            let ghost wb = self.water@;
            let ghost qlen_b = self.queue@.len() as int;
            let ghost bud_b = budget(self.cursors@, self.cursors@.len() as int);
            self.build_coarser(k, &states);
            proof {
                assert forall|i: int| 0 <= i < self.regions@.len() implies !self.water@.contains(#[trigger] base_key(self.regions@[i])) by {
                    assert(!wb.contains(base_key(self.regions@[i])));
                }
                assert(self.cursors@[0] == cb[0]);
                assert forall|j: int| 0 <= j < self.cursors@.len() implies #[trigger] prev_complete(self.cursors@[j]) by {
                    assert(prev_complete(cb[j]));
                    if j != k + 1 {
                        assert(self.cursors@[j] == cb[j]);
                    } else {
                        assert(self.cursors@[j].info().previous_column() == cb[j].info().previous_column());
                    }
                }
                assert forall|i: int| 0 <= i < self.next_region implies #[trigger] emitted_before(self.history@, self.history@.len() as int, base_key(self.regions@[i])) by {
                    assert(emitted_before(hb, hb.len() as int, base_key(self.regions@[i])));
                    let j = choose|j: int| 0 <= j < hb.len() && #[trigger] tile_key(hb[j]) == base_key(self.regions@[i]);
                    assert(self.history@[j] == hb[j]);
                }
            }
            let ghost cs2 = self.cursors@;
            proof {
                lemma_budget_update(cb, k + 1, cs2[k + 1], cb.len() as int);
                assert(cs2 =~= cb.update(k + 1, cs2[k + 1]));
                assert(cs2[k + 1].info().column_index() == cb[k + 1].info().column_index());
                let rr = cs2[k + 1].info().current_column().len() as int;
                assert(rr * (cb[k + 1].info().column_index() - cs2[k + 1].info().column_index()) == 0) by (nonlinear_arith)
                    requires cs2[k + 1].info().column_index() == cb[k + 1].info().column_index();
                assert(bud_b == budget(cb, cb.len() as int));
            }
            self.cursors[k].shift();
            proof {
                lemma_budget_update(cs2, k as int, self.cursors@[k as int], cs2.len() as int);
                assert(self.cursors@ == cs2.update(k as int, self.cursors@[k as int]));
                let rk = cs2[k as int].info().current_column().len() as int;
                let rk1 = cb[k + 1].info().current_column().len() as int;
                assert(budget(cs2, cs2.len() as int) == bud_b);
                assert(budget(self.cursors@, self.cursors@.len() as int) == bud_b - (if k >= 1 { rk } else { 0 }));
                assert(self.queue@.len() <= qlen_b + rk1);
                assert(cb[k as int].info().current_column().len() == rk);
                assert(self.cursors@[k + 1].info().current_column().len() == rk1);
                lemma_shaped_update(cs2, k as int, self.cursors@[k as int]);
                assert(self.cursors@ == cs2.update(k as int, self.cursors@[k as int]));
                lemma_recorded_shift(cs2[k as int], self.cursors@[k as int], self.history@, self.water@);
                lemma_done_shift(cs2[k as int], self.cursors@[k as int], self.history@, self.water@);
                assert forall|j: int| 0 <= j < self.cursors@.len() implies #[trigger] columns_done(self.cursors@[j], self.history@, self.water@)
                    && prev_complete(self.cursors@[j]) by {
                    if j != k { assert(self.cursors@[j] == cs2[j]); }
                }
                assert(self.cursors@[k + 1] == cs2[k + 1]);
                assert forall|j: int| 0 <= j < self.cursors@.len() implies #[trigger] state_recorded(self.cursors@[j], self.history@, self.water@) by {
                    if j != k { assert(self.cursors@[j] == cs2[j]); }
                }
                assert(cs2[k + 1].info().column_index() == cs2[k as int].info().column_index() / 2);
                assert forall|j: int| k + 1 <= j < top implies (#[trigger] self.cursors@[j + 1]).info().column_index()
                    == self.cursors@[j].info().column_index() / 2 by {
                    assert(cs2[j + 1].info().column_index() == cs2[j].info().column_index() / 2);
                }
                assert forall|j: int| 0 <= j && j + 1 < k + 1 implies (#[trigger] self.cursors@[j]).info().column_index()
                    == 2 * self.cursors@[j + 1].info().column_index() by {
                    if j + 1 < k {
                        assert(cs2[j].info().column_index() == 2 * cs2[j + 1].info().column_index());
                    }
                }
                assert forall|j: int| 0 <= j < self.cursors@.len() implies (#[trigger] self.cursors@[j]).info().current_column().len()
                    == old(self).cursors@[j].info().current_column().len() by {
                    assert(cs2[j].info().current_column().len() == old(self).cursors@[j].info().current_column().len());
                }
            }
            k += 1;
        }
        let ghost cs3 = self.cursors@;
        self.cursors[k].shift();
        proof {
            lemma_budget_update(cs3, k as int, self.cursors@[k as int], cs3.len() as int);
            lemma_shaped_update(cs3, k as int, self.cursors@[k as int]);
            assert(self.cursors@ == cs3.update(k as int, self.cursors@[k as int]));
            lemma_recorded_shift(cs3[k as int], self.cursors@[k as int], self.history@, self.water@);
            lemma_done_shift(cs3[k as int], self.cursors@[k as int], self.history@, self.water@);
            assert forall|j: int| 0 <= j < self.cursors@.len() implies #[trigger] columns_done(self.cursors@[j], self.history@, self.water@)
                && prev_complete(self.cursors@[j]) by {
                if j != k { assert(self.cursors@[j] == cs3[j]); }
            }
            assert forall|j: int| 0 <= j < self.cursors@.len() implies #[trigger] state_recorded(self.cursors@[j], self.history@, self.water@) by {
                if j != k { assert(self.cursors@[j] == cs3[j]); }
            }
            assert forall|j: int| 0 <= j < self.cursors@.len() - 1 implies
                (#[trigger] self.cursors@[j + 1]).info().column_index() == self.cursors@[j].info().column_index() / 2 by {
                if j + 1 < k {
                    assert(cs3[j].info().column_index() == 2 * cs3[j + 1].info().column_index());
                } else if j + 1 == k {
                    assert(cs3[j].info().column_index() == 2 * (cs3[k as int].info().column_index() + 1));
                } else if j == k {
                    assert(cs3[j + 1].info().column_index() == cs3[j].info().column_index() / 2);
                    assert(cs3[k as int].info().column_index() % 2 == 0);
                } else {
                    assert(cs3[j + 1].info().column_index() == cs3[j].info().column_index() / 2);
                }
            }
            assert forall|j: int| 0 <= j < self.cursors@.len() implies (#[trigger] self.cursors@[j]).info().current_column().len()
                == old(self).cursors@[j].info().current_column().len() by {
                assert(cs3[j].info().current_column().len() == old(self).cursors@[j].info().current_column().len());
            }
            let n = self.regions@.len();
            let c0 = self.cursors@[0];
            assert forall|i: int| 0 <= i < n implies {
                &&& self.square.0.0 <= (#[trigger] self.regions@[i]).region_coords_x
                &&& (self.regions@[i].region_coords_x - self.square.0.0) % (self.base.0 as int) == 0
                &&& self.col_of(i) < c0.info().current_column().len()
                &&& self.square.0.1 <= self.regions@[i].region_coords_y
                &&& (self.regions@[i].region_coords_y - self.square.0.1) % (self.base.1 as int) == 0
                &&& self.row_of(i) < c0.info().current_column().len()
            } by {
                assert(old(self).col_of(i) == self.col_of(i));
                assert(old(self).row_of(i) == self.row_of(i));
            }
            assert forall|i: int| self.next_region <= i < n implies #[trigger] self.col_of(i) >= c0.info().column_index() by {
                assert(old(self).col_of(i) == self.col_of(i));
            }
            assert forall|i: int| 0 <= i < self.next_region implies #[trigger] self.col_of(i) <= c0.info().column_index() by {
                assert(old(self).col_of(i) == self.col_of(i));
            }
            assert forall|i: int| 0 <= i < self.next_region implies #[trigger] self.col_of(i) != c0.info().column_index() by {
                assert(old(self).col_of(i) == self.col_of(i));
            }
            assert(self.lod0_ok());
        }
    }
    /// Build the current column of LOD k + 1 from LOD k's two columns,
    /// queueing its land tiles.
    #[verifier::rlimit(100)]
    fn build_coarser(&mut self, k: usize, states: &Vec<RecentRegionType>)
        requires
            lods_shaped(old(self).cursors@),
            k + 1 < old(self).cursors@.len(),
            old(self).cursors@[k as int].info().column_index() % 2 == 1,
            old(self).cursors@[k as int].info().column_index() < old(self).cursors@[k as int].info().current_column().len(),
            old(self).cursors@[k + 1].info().column_index() == old(self).cursors@[k as int].info().column_index() / 2,
            states@.len() == old(self).cursors@[k as int].info().current_column().len() / 2,
            forall|i: int| 0 <= i < states@.len() ==> #[trigger] states@[i] == quad_status(
                old(self).cursors@[k as int].info().previous_column()[2 * i], old(self).cursors@[k as int].info().previous_column()[2 * i + 1],
                old(self).cursors@[k as int].info().current_column()[2 * i], old(self).cursors@[k as int].info().current_column()[2 * i + 1]),
            forall|j: int| 0 <= j < old(self).cursors@.len() ==> #[trigger] state_recorded(old(self).cursors@[j], old(self).history@, old(self).water@),
            coarse_after_children(old(self).history@, old(self).water@),
            old(self).history@ == old(self).returned@ + old(self).queue@.subrange(old(self).queue_pos as int, old(self).queue@.len() as int),
            old(self).queue_pos <= old(self).queue@.len(),
            old(self).cursors@[0].info().tile_size() == old(self).base,
            old(self).cursors@[0].info().bounds() == old(self).square,
            old(self).cursors@[old(self).cursors@.len() - 1].info().current_column().len() == 1,
            forall|i: int| 0 <= i < old(self).history@.len() && (#[trigger] old(self).history@[i]).lod >= 1
                ==> tile_placed(old(self).history@[i], old(self).square.0, old(self).base, old(self).cursors@.len() - 1),
            forall|j: int| 0 <= j < old(self).cursors@.len() ==> #[trigger] columns_done(old(self).cursors@[j], old(self).history@, old(self).water@),
            prev_complete(old(self).cursors@[k as int]),
            cur_complete(old(self).cursors@[k as int]),
            water_closed(old(self).water@, old(self).base),
        ensures
            water_closed(final(self).water@, final(self).base),
            forall|key: (int, int, int)| #[trigger] final(self).water@.contains(key) ==> old(self).water@.contains(key) || key.0 >= 1,
            final(self).queue@.len() <= old(self).queue@.len() + old(self).cursors@[k + 1].info().current_column().len(),
            final(self).cursors@[k + 1].info().column_index() == old(self).cursors@[k + 1].info().column_index(),
            final(self).cursors@[k + 1].info().current_column().len() == old(self).cursors@[k + 1].info().current_column().len(),
            forall|j: int| 0 <= j < final(self).cursors@.len() ==> #[trigger] columns_done(final(self).cursors@[j], final(self).history@, final(self).water@),
            cur_complete(final(self).cursors@[k + 1]),
            final(self).cursors@[k + 1].info().previous_column() == old(self).cursors@[k + 1].info().previous_column(),
            forall|i: int| 0 <= i < final(self).history@.len() && (#[trigger] final(self).history@[i]).lod >= 1
                ==> tile_placed(final(self).history@[i], final(self).square.0, final(self).base, final(self).cursors@.len() - 1),
            final(self).square == old(self).square,
            lods_shaped(final(self).cursors@),
            final(self).cursors@.len() == old(self).cursors@.len(),
            forall|j: int| 0 <= j < final(self).cursors@.len() && j != k + 1 ==> #[trigger] final(self).cursors@[j] == old(self).cursors@[j],
            final(self).cursors@[k + 1].info().column_index() == old(self).cursors@[k + 1].info().column_index(),
            forall|j: int| 0 <= j < final(self).cursors@.len() ==> #[trigger] state_recorded(final(self).cursors@[j], final(self).history@, final(self).water@),
            coarse_after_children(final(self).history@, final(self).water@),
            final(self).history@ == final(self).returned@ + final(self).queue@.subrange(final(self).queue_pos as int, final(self).queue@.len() as int),
            final(self).queue_pos == old(self).queue_pos,
            final(self).queue@.len() >= old(self).queue@.len(),
            final(self).queue@.subrange(0, old(self).queue@.len() as int) == old(self).queue@,
            old(self).water@.subset_of(final(self).water@),
            final(self).regions == old(self).regions,
            final(self).next_region == old(self).next_region,
            final(self).finished == old(self).finished,
            final(self).base == old(self).base,
            final(self).bounds == old(self).bounds,
            final(self).returned == old(self).returned,
            final(self).history@.len() >= old(self).history@.len(),
            final(self).history@.subrange(0, old(self).history@.len() as int) == old(self).history@,
            lod0_tiles(final(self).history@) == lod0_tiles(old(self).history@),
    {
        let ghost cs = self.cursors@;
        let ghost h = self.history@;
        let ghost w = self.water@;
        let ghost qb = self.queue@;
        proof {
            assert(cs[k as int].info().current_column().len() == 2 * cs[k + 1].info().current_column().len());
        }
        self.cursors[k + 1].advance_lod_n(states, &mut self.queue);
        proof {
            lemma_shaped_update(cs, k + 1, self.cursors@[k + 1]);
            assert(self.cursors@ == cs.update(k + 1, self.cursors@[k + 1]));
            let q2 = self.queue@;
            let fresh = q2.subrange(qb.len() as int, q2.len() as int);
            let h2 = h + fresh;
            assert(q2 =~= qb + fresh);
            assert(h2 =~= self.returned@ + q2.subrange(self.queue_pos as int, q2.len() as int));
            assert(h2.subrange(h.len() as int, h2.len() as int) =~= fresh);
            assert(h2.subrange(0, h.len() as int) =~= h);
            let ck = cs[k as int];
            let ck1 = cs[k + 1];
            let n1 = self.cursors@[k + 1];
            // Coupling: LOD k + 1's column starts at LOD k's previous column.
            let l = ck.info().bounds().0.0 as int;
            let c1 = ck1.info().column_index();
            let s0 = ck.info().tile_size().0 as int;
            assert(ck.info().column_index() == 2 * c1 + 1);
            assert(ck.info().column_start().0 == l + ck.info().column_index() * s0);
            assert(ck1.info().column_start().0 == l + c1 * (2 * s0));
            assert(l + (2 * c1 + 1) * s0 - s0 == l + c1 * (2 * s0)) by (nonlinear_arith);
            lemma_build_order(ck, ck1, states@, h, w, h2);
            lemma_land_rows_len(states@, states@.len() as int);
            assert forall|t: int| 0 <= t < fresh.len() implies (#[trigger] fresh[t]).lod >= 1 by {
                assert(tiles_for_rows(fresh, ck1, land_rows(states@, states@.len() as int)));
                assert(fresh[t].lod == ck1.level());
            }
            lemma_lod0_append_coarse(h, fresh);
            // The new tiles are tiles of the square at LOD k + 1.
            let top = cs.len() - 1;
            lemma_lod_sizes(cs, self.base, k + 1);
            lemma_lod_rows(cs, k + 1);
            lemma_lod_rows(cs, k as int);
            lemma_land_rows(states@, states@.len() as int);
            assert forall|i: int| 0 <= i < h2.len() && (#[trigger] h2[i]).lod >= 1
                implies tile_placed(h2[i], self.square.0, self.base, top) by {
                if i < h.len() {
                    assert(h2[i] == h[i]);
                } else {
                    let t = i - h.len();
                    let r = land_rows(states@, states@.len() as int)[t];
                    let d = h2[i];
                    assert(d == fresh[t]);
                    let sz = ck1.info().tile_size();
                    let a = ck1.info().column_index();
                    lemma_cell_fits(r, states@.len() as int, sz.1 as int);
                    assert(d.region_coords_y == ck1.info().bounds().0.1 + r * sz.1);
                    assert(ck1.info().bounds() == self.square);
                    assert(d.lod == k + 1);
                    assert(a < pow2((top - (k + 1)) as nat));
                    assert(d.region_coords_x == self.square.0.0 + a * sz.0);
                    assert(self.square.0.0 + a * d.size_x == d.region_coords_x);
                    assert(self.square.0.1 + r * d.size_y == d.region_coords_y);
                }
            }
            // The new column's land rows are the new tiles.
            let w2 = w.union(column_water(n1));
            lemma_land_rows(states@, states@.len() as int);
            let rows = land_rows(states@, states@.len() as int);
            assert forall|r: int| 0 <= r < n1.info().current_column().len() implies {
                &&& (#[trigger] n1.info().current_column()[r] == RecentRegionType::Land ==> ck1.info().current_column()[r] == RecentRegionType::Land
                    || emitted_before(h2, h2.len() as int, cell_key(n1, n1.info().column_start().0 as int, r)))
                &&& (n1.info().current_column()[r] == RecentRegionType::Water ==> ck1.info().current_column()[r] == RecentRegionType::Water
                    || w2.contains(cell_key(n1, n1.info().column_start().0 as int, r)))
            } by {
                if n1.info().current_column()[r] == RecentRegionType::Land {
                    assert(rows.contains(r));
                    let t = choose|t: int| 0 <= t < rows.len() && rows[t] == r;
                    lemma_cell_fits(r, states@.len() as int, ck1.info().tile_size().1 as int);
                    assert(tile_key(h2[h.len() + t]) == cell_key(n1, n1.info().column_start().0 as int, r));
                }
                if n1.info().current_column()[r] == RecentRegionType::Water {
                    assert(column_water(n1).contains(cell_key(n1, n1.info().column_start().0 as int, r)));
                }
            }
            lemma_recorded_update(ck1, n1, h, w, h2, w2);
            lemma_done_mono(ck1, n1, h, w, h2, w2);
            lemma_lod_sizes(cs, self.base, k as int);
            assert(ck.info().column_start().0 - ck.info().tile_size().0 == ck1.info().column_start().0);
            lemma_build_water(ck, n1, states@, h, w, self.base, k as int);
            assert forall|key: (int, int, int)| #[trigger] w2.contains(key) implies w.contains(key) || key.0 >= 1 by {
                if column_water(n1).contains(key) {
                    let r = choose|r: int| 0 <= r < n1.info().current_column().len()
                        && n1.info().current_column()[r] == RecentRegionType::Water
                        && key == #[trigger] cell_key(n1, n1.info().column_start().0 as int, r);
                }
            }
            assert forall|j: int| 0 <= j < self.cursors@.len() implies #[trigger] columns_done(self.cursors@[j], h2, w2) by {
                if j != k + 1 {
                    assert(self.cursors@[j] == cs[j]);
                    lemma_done_mono(cs[j], cs[j], h, w, h2, w2);
                }
            }
            assert forall|r: int| 0 <= r < n1.info().current_column().len() implies #[trigger] n1.info().current_column()[r] != RecentRegionType::Unknown by {
                assert(n1.info().current_column()[r] == states@[r]);
                assert(ck.info().previous_column()[2 * r] != RecentRegionType::Unknown);
                assert(ck.info().previous_column()[2 * r + 1] != RecentRegionType::Unknown);
                assert(ck.info().current_column()[2 * r] != RecentRegionType::Unknown);
                assert(ck.info().current_column()[2 * r + 1] != RecentRegionType::Unknown);
            }
            assert forall|j: int| 0 <= j < self.cursors@.len() implies #[trigger] state_recorded(self.cursors@[j], h2, w2) by {
                if j != k + 1 {
                    assert(self.cursors@[j] == cs[j]);
                    lemma_recorded_mono(cs[j], h, w, h2, w2);
                }
            }
            lemma_order_mono(h, w, h2, w2);
            assert forall|i: int| 0 <= i < h2.len() implies #[trigger] children_resolved(h2, i, w2) by {
                if i >= h.len() {
                    assert(children_resolved(h2, i, w));
                }
            }
            self.history = Ghost(h2);
            self.water = Ghost(w2);
        }
    }
}

/// A column of `rows` unknown cells.
fn unknown_column(rows: usize) -> (r: Vec<RecentRegionType>)
    ensures
        r@ == Seq::new(rows as nat, |i: int| RecentRegionType::Unknown),
{
    let mut v: Vec<RecentRegionType> = Vec::new();
    let mut i: usize = 0;
    while i < rows
        invariant
            0 <= i <= rows,
            v@ == Seq::new(i as nat, |j: int| RecentRegionType::Unknown),
        decreases rows - i,
    {
        v.push(RecentRegionType::Unknown);
        proof {
            assert(v@ =~= Seq::new((i + 1) as nat, |j: int| RecentRegionType::Unknown));
        }
        i += 1;
    }
    v
}

} // verus!

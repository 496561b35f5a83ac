//! Asset deduplication: a catalog of generated assets keyed by where they
//! belong and a hash of their content, and the names of staged files.
use vstd::prelude::*;

verus! {

/// Kind of asset.
#[derive(Debug, Clone, Copy, PartialEq, Eq, Structural)]
pub enum AssetType {
    BaseTexture,
    EmissiveTexture,
    SculptTexture,
    Mesh,
}

/// One catalog entry.
#[derive(Debug, Clone, PartialEq)]
pub struct AssetRecord {
    /// Grid
    pub grid: String,
    /// Lower left X, meters
    pub loc_x: u32,
    /// Lower left Y, meters
    pub loc_y: u32,
    /// Size along X, meters
    pub size_x: u32,
    /// Size along Y, meters
    pub size_y: u32,
    /// Kind of asset
    pub asset_type: AssetType,
    /// Hash of the asset's bytes
    pub content_hash: u32,
    /// Asset UUID
    pub uuid: u128,
    /// Creation time, seconds since the epoch
    pub creation_time: u64,
}

/// The record has the key (grid, loc, size, type, hash).
pub open spec fn has_key(r: AssetRecord, grid: Seq<char>, loc: (u32, u32), size: (u32, u32), t: AssetType, hash: u32) -> bool {
    r.grid@ == grid && r.loc_x == loc.0 && r.loc_y == loc.1 && r.size_x == size.0 && r.size_y == size.1
        && r.asset_type == t && r.content_hash == hash
}

/// Errors of the catalog and of staging.
#[derive(Debug, Clone, Copy, PartialEq, Eq, Structural)]
pub enum AssetError {
    /// A record with that key is already there.
    DuplicateKey,
    /// The staged file name would exceed the length limit.
    FilenameTooLong,
}

/// The asset catalog: at most one record per key.
pub struct AssetCatalog {
    records: Vec<AssetRecord>,
}

/// Counts of assets reused from the catalog and newly generated.
#[derive(Debug, Clone, Copy, PartialEq, Eq, Structural, Default)]
pub struct AssetStats {
    pub assets_reused: u64,
    pub assets_generated: u64,
}

impl AssetCatalog {
    /// The records.
    pub closed spec fn entries(&self) -> Seq<AssetRecord> {
        self.records@
    }

    /// UUID stored under a key, if any.
    pub open spec fn uuid_for(&self, grid: Seq<char>, loc: (u32, u32), size: (u32, u32), t: AssetType, hash: u32) -> Option<u128> {
        if exists|i: int| 0 <= i < self.entries().len() && has_key(#[trigger] self.entries()[i], grid, loc, size, t, hash) {
            let i = choose|i: int| 0 <= i < self.entries().len() && has_key(#[trigger] self.entries()[i], grid, loc, size, t, hash);
            Some(self.entries()[i].uuid)
        } else {
            None
        }
    }

    /// Keys are unique.
    pub open spec fn wf(&self) -> bool {
        forall|i: int, j: int| 0 <= i < self.entries().len() && 0 <= j < self.entries().len()
            && has_key(#[trigger] self.entries()[i], self.entries()[j].grid@, (self.entries()[j].loc_x, self.entries()[j].loc_y), (self.entries()[j].size_x, self.entries()[j].size_y),
                self.entries()[j].asset_type, #[trigger] self.entries()[j].content_hash) ==> i == j
    }

    /// An empty catalog.
    pub fn new() -> (r: AssetCatalog)
        ensures
            r.wf(),
            r.entries().len() == 0,
    {
        AssetCatalog { records: Vec::new() }
    }

    /// Index of the record with the key, if any.
    fn find(&self, grid: &String, loc: (u32, u32), size: (u32, u32), t: AssetType, hash: u32) -> (r: Option<usize>)
        ensures
            r matches Some(i) ==> i < self.entries().len() && has_key(self.entries()[i as int], grid@, loc, size, t, hash),
            r is None ==> forall|i: int| 0 <= i < self.entries().len() ==> !has_key(#[trigger] self.entries()[i], grid@, loc, size, t, hash),
    {
        let mut i: usize = 0;
        while i < self.records.len()
            invariant
                0 <= i <= self.records@.len(),
                forall|j: int| 0 <= j < i ==> !has_key(#[trigger] self.records@[j], grid@, loc, size, t, hash),
            decreases self.records@.len() - i,
        {
            let r = &self.records[i];
            if r.loc_x == loc.0 && r.loc_y == loc.1 && r.size_x == size.0 && r.size_y == size.1 && r.asset_type == t && r.content_hash == hash && r.grid == *grid {
                return Some(i);
            }
            i += 1;
        }
        None
    }

    /// Look up the UUID of the asset with this key.
    pub fn lookup(&self, grid: &String, loc: (u32, u32), size: (u32, u32), asset_type: AssetType, content_hash: u32) -> (r: Option<u128>)
        requires
            self.wf(),
        ensures
            r == self.uuid_for(grid@, loc, size, asset_type, content_hash),
    {
        match self.find(grid, loc, size, asset_type, content_hash) {
            Some(i) => {
                proof {
                    let k = choose|k: int| 0 <= k < self.entries().len() && has_key(#[trigger] self.entries()[k], grid@, loc, size, asset_type, content_hash);
                    assert(has_key(self.entries()[k], self.entries()[i as int].grid@, (self.entries()[i as int].loc_x, self.entries()[i as int].loc_y), (self.entries()[i as int].size_x, self.entries()[i as int].size_y),
                        self.entries()[i as int].asset_type, self.entries()[i as int].content_hash));
                }
                Some(self.records[i].uuid)
            },
            None => None,
        }
    }

    /// Add a record. Fails, changing nothing, when its key is already there.
    pub fn insert(&mut self, record: AssetRecord) -> (r: Result<(), AssetError>)
        requires
            old(self).wf(),
        ensures
            final(self).wf(),
            old(self).uuid_for(record.grid@, (record.loc_x, record.loc_y), (record.size_x, record.size_y), record.asset_type, record.content_hash) is Some
                <==> r == Err::<(), AssetError>(AssetError::DuplicateKey),
            old(self).uuid_for(record.grid@, (record.loc_x, record.loc_y), (record.size_x, record.size_y), record.asset_type, record.content_hash) is None
                ==> r == Ok::<(), AssetError>(()),
            r is Err ==> final(self).entries() == old(self).entries(),
            r is Ok ==> final(self).entries() == old(self).entries().push(record),
    {
        match self.find(&record.grid, (record.loc_x, record.loc_y), (record.size_x, record.size_y), record.asset_type, record.content_hash) {
            Some(i) => Err(AssetError::DuplicateKey),
            None => {
                let ghost before = self.records@;
                self.records.push(record);
                proof {
                    let es = self.records@;
                    assert forall|i: int, j: int| 0 <= i < es.len() && 0 <= j < es.len()
                        && has_key(#[trigger] es[i], es[j].grid@, (es[j].loc_x, es[j].loc_y), (es[j].size_x, es[j].size_y), es[j].asset_type, #[trigger] es[j].content_hash)
                        implies i == j by {
                        if i < before.len() && j < before.len() {
                            assert(es[i] == before[i] && es[j] == before[j]);
                        } else if i < before.len() {
                            assert(es[i] == before[i]);
                            assert(!has_key(before[i], record.grid@, (record.loc_x, record.loc_y), (record.size_x, record.size_y), record.asset_type, record.content_hash));
                        } else if j < before.len() {
                            assert(es[j] == before[j]);
                            assert(!has_key(before[j], record.grid@, (record.loc_x, record.loc_y), (record.size_x, record.size_y), record.asset_type, record.content_hash));
                        }
                    }
                }
                Ok(())
            },
        }
    }
}

/// Decide one asset: reuse the UUID the catalog holds for its key, counted
/// as reused, or report that it must be generated, counted as generated.
pub fn stage_asset(catalog: &AssetCatalog, grid: &String, loc: (u32, u32), size: (u32, u32), asset_type: AssetType,
    content_hash: u32, stats: &mut AssetStats) -> (r: Option<u128>)
    requires
        catalog.wf(),
        old(stats).assets_reused < u64::MAX,
        old(stats).assets_generated < u64::MAX,
    ensures
        r == catalog.uuid_for(grid@, loc, size, asset_type, content_hash),
        r is Some ==> final(stats).assets_reused == old(stats).assets_reused + 1 && final(stats).assets_generated == old(stats).assets_generated,
        r is None ==> final(stats).assets_generated == old(stats).assets_generated + 1 && final(stats).assets_reused == old(stats).assets_reused,
{
    let found = catalog.lookup(grid, loc, size, asset_type, content_hash);
    match found {
        Some(u) => {
            stats.assets_reused = stats.assets_reused + 1;
        },
        None => {
            stats.assets_generated = stats.assets_generated + 1;
        },
    }
    found
}

/// Longest staged file name.
pub const MAX_FILENAME_LEN: usize = 63;

/// Decimal digits of n, in ASCII.
pub open spec fn dec(n: nat) -> Seq<u8>
    decreases n,
{
    if n < 10 {
        seq![(48 + n) as u8]
    } else {
        dec(n / 10).push((48 + n % 10) as u8)
    }
}

/// A value in hundredths written with two decimals, as "-12.05".
pub open spec fn centi(v: int) -> Seq<u8> {
    let a = if v < 0 { -v } else { v };
    let sign = if v < 0 { seq![45u8] } else { Seq::<u8>::empty() };
    sign + dec((a / 100) as nat) + seq![46u8, (48 + (a % 100) / 10) as u8, (48 + a % 10) as u8]
}

/// Lowercase hex digit of a nibble.
pub open spec fn hex_digit(d: int) -> u8 {
    if d < 10 { (48 + d) as u8 } else { (87 + d) as u8 }
}

/// Eight lowercase hex digits of h, most significant first.
pub open spec fn hex8(h: u32) -> Seq<u8> {
    Seq::new(8, |i: int| hex_digit(((h as int) / pow16(7 - i)) % 16))
}

/// 16 to the power e.
pub open spec fn pow16(e: int) -> int
    decreases e,
{
    if e <= 0 { 1 } else { 16 * pow16(e - 1) }
}

/// The staged file name:
/// prefix_x_y_sx_sy_sz_offset_lod_vg_water_hash, with sz, offset and water
/// given in hundredths and written with two decimals.
pub open spec fn filename_spec(prefix: Seq<u8>, x: u32, y: u32, sx: u32, sy: u32, sz: i64, offset: i64, lod: u8, vg: u32, water: i64, hash: u32) -> Seq<u8> {
    let u = seq![95u8];
    prefix + u + dec(x as nat) + u + dec(y as nat) + u + dec(sx as nat) + u + dec(sy as nat)
        + u + centi(sz as int) + u + centi(offset as int) + u + dec(lod as nat) + u + dec(vg as nat)
        + u + centi(water as int) + u + hex8(hash)
}

/// Append the decimal digits of n.
fn push_dec(out: &mut Vec<u8>, n: u64)
    ensures
        final(out)@ == old(out)@ + dec(n as nat),
    decreases n,
{
    if n >= 10 {
        push_dec(out, n / 10);
    }
    out.push((48 + n % 10) as u8);
    proof {
        if n >= 10 {
            assert(final(out)@ =~= old(out)@ + dec(n as nat)) by {
                assert(dec(n as nat) == dec((n / 10) as nat).push((48 + n % 10) as u8));
            }
        }
    }
}

/// Append a value in hundredths with two decimals.
fn push_centi(out: &mut Vec<u8>, v: i64)
    ensures
        final(out)@ == old(out)@ + centi(v as int),
{
    let a: u64 = if v < 0 { (0 - (v as i128)) as u64 } else { v as u64 };
    let ghost o0 = out@;
    if v < 0 {
        out.push(45u8);
    }
    push_dec(out, a / 100);
    out.push(46u8);
    out.push((48 + (a % 100) / 10) as u8);
    out.push((48 + a % 10) as u8);
    proof {
        let sign = if v < 0 { seq![45u8] } else { Seq::<u8>::empty() };
        assert(out@ =~= o0 + centi(v as int));
    }
}

/// Append eight hex digits of h.
fn push_hex8(out: &mut Vec<u8>, h: u32)
    ensures
        final(out)@ == old(out)@ + hex8(h),
{
    let ghost o0 = out@;
    let mut i: u32 = 0;
    let mut div: u32 = 0x1000_0000;
    proof {
        reveal_with_fuel(pow16, 8);
        assert(pow16(7) == 0x1000_0000);
    }
    while i < 8
        invariant
            0 <= i <= 8,
            i < 8 ==> div as int == pow16(7 - i),
            out@ == o0 + hex8(h).subrange(0, i as int),
        decreases 8 - i,
    {
        proof {
            reveal_with_fuel(pow16, 8);
        }
        let d = (h / div) % 16;
        let c: u8 = if d < 10 { (48 + d) as u8 } else { (87 + d) as u8 };
        out.push(c);
        proof {
            assert(hex8(h).subrange(0, i + 1) =~= hex8(h).subrange(0, i as int).push(c));
        }
        if i < 7 {
            div = div / 16;
        }
        i += 1;
    }
    assert(hex8(h).subrange(0, 8) =~= hex8(h));
}

/// The staged file name for a generated asset, as ASCII bytes. Fails when
/// it would be longer than `MAX_FILENAME_LEN`.
pub fn impostor_filename(prefix: &Vec<u8>, x: u32, y: u32, sx: u32, sy: u32, sz: i64, offset: i64, lod: u8, vg: u32, water: i64, hash: u32)
    -> (r: Result<Vec<u8>, AssetError>)
    requires
        prefix@.len() <= MAX_FILENAME_LEN,
    ensures
        filename_spec(prefix@, x, y, sx, sy, sz, offset, lod, vg, water, hash).len() <= MAX_FILENAME_LEN
            ==> (r matches Ok(name) && name@ == filename_spec(prefix@, x, y, sx, sy, sz, offset, lod, vg, water, hash)),
        filename_spec(prefix@, x, y, sx, sy, sz, offset, lod, vg, water, hash).len() > MAX_FILENAME_LEN
            ==> r == Err::<Vec<u8>, AssetError>(AssetError::FilenameTooLong),
{
    let mut out: Vec<u8> = Vec::new();
    let mut i: usize = 0;
    while i < prefix.len()
        invariant
            0 <= i <= prefix@.len(),
            out@ == prefix@.subrange(0, i as int),
        decreases prefix@.len() - i,
    {
        out.push(prefix[i]);
        proof { assert(out@ =~= prefix@.subrange(0, i + 1)); }
        i += 1;
    }
    proof { assert(out@ =~= prefix@); }
    out.push(95u8);
    push_dec(&mut out, x as u64);
    out.push(95u8);
    push_dec(&mut out, y as u64);
    out.push(95u8);
    push_dec(&mut out, sx as u64);
    out.push(95u8);
    push_dec(&mut out, sy as u64);
    out.push(95u8);
    push_centi(&mut out, sz);
    out.push(95u8);
    push_centi(&mut out, offset);
    out.push(95u8);
    push_dec(&mut out, lod as u64);
    out.push(95u8);
    push_dec(&mut out, vg as u64);
    out.push(95u8);
    push_centi(&mut out, water);
    out.push(95u8);
    push_hex8(&mut out, hash);
    proof {
        assert(out@ =~= filename_spec(prefix@, x, y, sx, sy, sz, offset, lod, vg, water, hash));
    }
    if out.len() > MAX_FILENAME_LEN {
        return Err(AssetError::FilenameTooLong);
    }
    Ok(out)
}

} // verus!

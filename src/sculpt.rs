//! Sculpt images: the quantized height samples resampled to 64 by 64, and
//! the content hash of generated artifacts.
use vstd::prelude::*;
use crate::heightgrid::HeightGrid;

verus! {

/// Sculpt images are always this many pixels on a side.
pub const SCULPTDIM: usize = 64;

/// Lower source index for output index i of 64, over n source samples:
/// floor(i * n / 64), at most n - 1.
pub open spec fn lo(i: int, n: int) -> int {
    if i * n / 64 < n - 1 { i * n / 64 } else { n - 1 }
}

/// Upper source index: ceil(i * n / 64), at most n - 1.
pub open spec fn hi(i: int, n: int) -> int {
    if (i * n + 63) / 64 < n - 1 { (i * n + 63) / 64 } else { n - 1 }
}

/// The largest of four bytes.
pub open spec fn max4(a: u8, b: u8, c: u8, d: u8) -> u8 {
    let ab = if a >= b { a } else { b };
    let cd = if c >= d { c } else { d };
    if ab >= cd { ab } else { cd }
}

/// Source index for output index i: (floor or ceiling of i * n / 64),
/// at most n - 1.
fn source_index(i: usize, n: usize, up: bool) -> (r: usize)
    requires
        i < 64,
        n > 0,
    ensures
        r == if up { hi(i as int, n as int) } else { lo(i as int, n as int) },
        r < n,
{
    let nn = n as u64;
    proof {
        assert(i as u128 * nn as u128 <= 64 * 0xFFFF_FFFF_FFFF_FFFFu128) by (nonlinear_arith)
            requires i < 64, nn <= 0xFFFF_FFFF_FFFF_FFFFu64;
    }
    let p = i as u128 * nn as u128;
    let q = if up { (p + 63) / 64 } else { p / 64 };
    let last = (n - 1) as u128;
    if q < last { q as usize } else { n - 1 }
}

/// Resample quantized elevations to 64 by 64: each output sample is the
/// largest of the four source samples around its position, which keeps
/// peaks instead of averaging them away. A 64 by 64 grid is unchanged.
pub fn sculpt_resample(elevs: &HeightGrid<u8>) -> (r: HeightGrid<u8>)
    requires
        elevs.wf(),
    ensures
        r.wf(),
        r.size_x() == 64,
        r.size_y() == 64,
        elevs.size_x() == 64 && elevs.size_y() == 64 ==> forall|x: int, y: int| 0 <= x < 64 && 0 <= y < 64 ==> #[trigger] r.at(x, y) == elevs.at(x, y),
        forall|x: int, y: int| 0 <= x < 64 && 0 <= y < 64 ==> #[trigger] r.at(x, y) == max4(
            elevs.at(lo(x, elevs.size_x()), lo(y, elevs.size_y())), elevs.at(lo(x, elevs.size_x()), hi(y, elevs.size_y())),
            elevs.at(hi(x, elevs.size_x()), lo(y, elevs.size_y())), elevs.at(hi(x, elevs.size_x()), hi(y, elevs.size_y()))),
{
    let nx = elevs.num_x();
    let ny = elevs.num_y();
    let mut out: Vec<u8> = Vec::new();
    let mut x: usize = 0;
    while x < SCULPTDIM
        invariant
            elevs.wf(),
            nx == elevs.size_x(),
            ny == elevs.size_y(),
            nx > 0 && ny > 0,
            0 <= x <= 64,
            out@.len() == x * 64,
            forall|i: int, j: int| 0 <= i < x && 0 <= j < 64 ==> #[trigger] out@[i * 64 + j] == max4(
                elevs.at(lo(i, nx as int), lo(j, ny as int)), elevs.at(lo(i, nx as int), hi(j, ny as int)),
                elevs.at(hi(i, nx as int), lo(j, ny as int)), elevs.at(hi(i, nx as int), hi(j, ny as int))),
        decreases 64 - x,
    {
        let x0 = source_index(x, nx, false);
        let x1 = source_index(x, nx, true);
        let mut y: usize = 0;
        while y < SCULPTDIM
            invariant
                elevs.wf(),
                nx == elevs.size_x(),
                ny == elevs.size_y(),
                nx > 0 && ny > 0,
                0 <= x < 64,
                0 <= y <= 64,
                x0 == lo(x as int, nx as int),
                x1 == hi(x as int, nx as int),
                x0 < nx && x1 < nx,
                out@.len() == x * 64 + y,
                forall|i: int, j: int| 0 <= i < x && 0 <= j < 64 ==> #[trigger] out@[i * 64 + j] == max4(
                    elevs.at(lo(i, nx as int), lo(j, ny as int)), elevs.at(lo(i, nx as int), hi(j, ny as int)),
                    elevs.at(hi(i, nx as int), lo(j, ny as int)), elevs.at(hi(i, nx as int), hi(j, ny as int))),
                forall|j: int| 0 <= j < y ==> #[trigger] out@[x * 64 + j] == max4(
                    elevs.at(lo(x as int, nx as int), lo(j, ny as int)), elevs.at(lo(x as int, nx as int), hi(j, ny as int)),
                    elevs.at(hi(x as int, nx as int), lo(j, ny as int)), elevs.at(hi(x as int, nx as int), hi(j, ny as int))),
            decreases 64 - y,
        {
            let y0 = source_index(y, ny, false);
            let y1 = source_index(y, ny, true);
            let a = elevs.get(x0, y0);
            let b = elevs.get(x0, y1);
            let c = elevs.get(x1, y0);
            let d = elevs.get(x1, y1);
            let ab = if a >= b { a } else { b };
            let cd = if c >= d { c } else { d };
            let m = if ab >= cd { ab } else { cd };
            out.push(m);
            proof {
                assert forall|i: int, j: int| 0 <= i < x && 0 <= j < 64 implies #[trigger] out@[i * 64 + j] == max4(
                    elevs.at(lo(i, nx as int), lo(j, ny as int)), elevs.at(lo(i, nx as int), hi(j, ny as int)),
                    elevs.at(hi(i, nx as int), lo(j, ny as int)), elevs.at(hi(i, nx as int), hi(j, ny as int))) by {
                    assert(i * 64 + j < x * 64) by (nonlinear_arith) requires 0 <= i < x, 0 <= j < 64;
                }
            }
            y += 1;
        }
        proof {
            assert forall|i: int, j: int| 0 <= i < x + 1 && 0 <= j < 64 implies #[trigger] out@[i * 64 + j] == max4(
                elevs.at(lo(i, nx as int), lo(j, ny as int)), elevs.at(lo(i, nx as int), hi(j, ny as int)),
                elevs.at(hi(i, nx as int), lo(j, ny as int)), elevs.at(hi(i, nx as int), hi(j, ny as int))) by {
                if i == x as int {
                    assert(out@[x * 64 + j] == out@[i * 64 + j]);
                }
            }
        }
        x += 1;
    }
    let r = HeightGrid::from_parts(64, 64, out);
    proof {
        assert forall|x: int, y: int| 0 <= x < 64 && 0 <= y < 64 implies #[trigger] r.at(x, y) == max4(
            elevs.at(lo(x, nx as int), lo(y, ny as int)), elevs.at(lo(x, nx as int), hi(y, ny as int)),
            elevs.at(hi(x, nx as int), lo(y, ny as int)), elevs.at(hi(x, nx as int), hi(y, ny as int))) by {
            assert(r.at(x, y) == out@[x * 64 + y]);
        }
        if nx == 64 && ny == 64 {
            assert forall|x: int, y: int| 0 <= x < 64 && 0 <= y < 64 implies #[trigger] r.at(x, y) == elevs.at(x, y) by {
                assert(r.at(x, y) == out@[x * 64 + y]);
                assert(lo(x, 64) == x && hi(x, 64) == x);
                assert(lo(y, 64) == y && hi(y, 64) == y);
            }
        }
    }
    r
}

/// FNV-1a offset basis.
pub const FNV_OFFSET: u32 = 0x811c_9dc5;

/// FNV-1a prime.
pub const FNV_PRIME: u32 = 0x0100_0193;

/// 32-bit FNV-1a hash of a byte sequence: from the offset basis, for each
/// byte xor it in, then multiply by the prime modulo 2^32.
pub open spec fn fnv1a(s: Seq<u8>) -> u32
    decreases s.len(),
{
    if s.len() == 0 {
        FNV_OFFSET
    } else {
        (fnv1a(s.drop_last()) ^ (s.last() as u32)).wrapping_mul(FNV_PRIME)
    }
}

/// Content hash of an artifact's bytes: equal bytes give equal hashes.
pub fn content_hash(bytes: &Vec<u8>) -> (r: u32)
    ensures
        r == fnv1a(bytes@),
{
    let mut h: u32 = FNV_OFFSET;
    let mut i: usize = 0;
    while i < bytes.len()
        invariant
            0 <= i <= bytes@.len(),
            h == fnv1a(bytes@.subrange(0, i as int)),
        decreases bytes@.len() - i,
    {
        proof {
            assert(bytes@.subrange(0, i + 1).drop_last() =~= bytes@.subrange(0, i as int));
        }
        h = (h ^ bytes[i] as u32).wrapping_mul(FNV_PRIME);
        i += 1;
    }
    proof {
        assert(bytes@.subrange(0, bytes@.len() as int) =~= bytes@);
    }
    h
}

} // verus!

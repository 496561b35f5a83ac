//! Geometric helpers: the bounding box of a group of regions and the
//! power-of-two aligned square of cells that encloses it.
use vstd::prelude::*;
use crate::region::RegionData;

verus! {

/// Largest LOD the scheduler will build. Worlds are bounded, so a square of
/// 2^16 base regions on a side is always enough.
pub const MAX_LOD: u8 = 16;

/// Why a group cannot be scheduled over several LODs.
#[derive(Debug, Clone, Copy, PartialEq, Eq, Structural)]
pub enum GroupError {
    /// The group has no members.
    EmptyGroup,
    /// Members do not all have the same size.
    NotHomogeneous,
    /// No square up to `MAX_LOD` encloses the bounds, or its far corner is
    /// past the coordinate range.
    BoundsTooLarge,
    /// A member's coordinates are not multiples of its size.
    Unaligned,
    /// Members are not strictly increasing in (x, y).
    UnorderedInput,
}

/// 2 to the power k.
pub open spec fn pow2(k: nat) -> nat
    decreases k,
{
    if k == 0 { 1 } else { 2 * pow2((k - 1) as nat) }
}

/// Powers of two are positive and grow with the exponent.
pub proof fn lemma_pow2_mono(a: nat, b: nat)
    requires
        a <= b,
    ensures
        0 < pow2(a) <= pow2(b),
    decreases b,
{
    if b > a {
        lemma_pow2_mono(a, (b - 1) as nat);
    } else if a > 0 {
        lemma_pow2_mono((a - 1) as nat, (a - 1) as nat);
    }
}

/// All members have the size of the first one.
pub open spec fn homogeneous(g: Seq<RegionData>) -> bool {
    forall|i: int| 0 <= i < g.len() ==> (#[trigger] g[i]).size_x == g[0].size_x && g[i].size_y == g[0].size_y
}

/// Every member is well formed.
pub open spec fn all_wf(g: Seq<RegionData>) -> bool {
    forall|i: int| 0 <= i < g.len() ==> (#[trigger] g[i]).wf()
}

/// `b` is the bounding box of the non-empty group `g`: the least lower-left
/// corner and the greatest upper-right corner over all members.
pub open spec fn is_group_bounds(g: Seq<RegionData>, b: ((u32, u32), (u32, u32))) -> bool {
    &&& forall|i: int| 0 <= i < g.len() ==> {
        &&& b.0.0 <= (#[trigger] g[i]).region_coords_x
        &&& b.0.1 <= g[i].region_coords_y
        &&& g[i].region_coords_x + g[i].size_x <= b.1.0
        &&& g[i].region_coords_y + g[i].size_y <= b.1.1
    }
    &&& exists|i: int| 0 <= i < g.len() && (#[trigger] g[i]).region_coords_x == b.0.0
    &&& exists|i: int| 0 <= i < g.len() && (#[trigger] g[i]).region_coords_y == b.0.1
    &&& exists|i: int| 0 <= i < g.len() && (#[trigger] g[i]).region_coords_x + g[i].size_x == b.1.0
    &&& exists|i: int| 0 <= i < g.len() && (#[trigger] g[i]).region_coords_y + g[i].size_y == b.1.1
}

/// Get dimensions of a group: ((min x, min y), (max x + size x, max y + size y)).
/// Fails on an empty group and on a group whose members differ in size.
pub fn get_group_bounds(group: &Vec<RegionData>) -> (r: Result<((u32, u32), (u32, u32)), GroupError>)
    requires
        all_wf(group@),
    ensures
        group@.len() == 0 ==> r == Err::<((u32, u32), (u32, u32)), GroupError>(GroupError::EmptyGroup),
        group@.len() > 0 && !homogeneous(group@) ==> r == Err::<((u32, u32), (u32, u32)), GroupError>(GroupError::NotHomogeneous),
        group@.len() > 0 && homogeneous(group@) ==> r is Ok && is_group_bounds(group@, r->Ok_0),
{
    let n = group.len();
    if n == 0 {
        return Err(GroupError::EmptyGroup);
    }
    let sx = group[0].size_x;
    let sy = group[0].size_y;
    let mut i: usize = 0;
    while i < n
        invariant
            n == group@.len(),
            0 <= i <= n,
            sx == group@[0].size_x,
            sy == group@[0].size_y,
            forall|j: int| 0 <= j < i ==> (#[trigger] group@[j]).size_x == sx && group@[j].size_y == sy,
        decreases n - i,
    {
        if group[i].size_x != sx || group[i].size_y != sy {
            return Err(GroupError::NotHomogeneous);
        }
        i += 1;
    }
    let mut lo_x = group[0].region_coords_x;
    let mut lo_y = group[0].region_coords_y;
    let mut hi_x = group[0].region_coords_x + group[0].size_x;
    let mut hi_y = group[0].region_coords_y + group[0].size_y;
    let mut w0: usize = 0;
    let mut w1: usize = 0;
    let mut w2: usize = 0;
    let mut w3: usize = 0;
    let mut i: usize = 1;
    while i < n
        invariant
            n == group@.len(),
            1 <= i <= n,
            all_wf(group@),
            w0 < i && w1 < i && w2 < i && w3 < i,
            group@[w0 as int].region_coords_x == lo_x,
            group@[w1 as int].region_coords_y == lo_y,
            group@[w2 as int].region_coords_x + group@[w2 as int].size_x == hi_x,
            group@[w3 as int].region_coords_y + group@[w3 as int].size_y == hi_y,
            forall|j: int| 0 <= j < i ==> {
                &&& lo_x <= (#[trigger] group@[j]).region_coords_x
                &&& lo_y <= group@[j].region_coords_y
                &&& group@[j].region_coords_x + group@[j].size_x <= hi_x
                &&& group@[j].region_coords_y + group@[j].size_y <= hi_y
            },
        decreases n - i,
    {
        let g = &group[i];
        assert(group@[i as int].wf());
        if g.region_coords_x < lo_x {
            lo_x = g.region_coords_x;
            w0 = i;
        }
        if g.region_coords_y < lo_y {
            lo_y = g.region_coords_y;
            w1 = i;
        }
        if g.region_coords_x + g.size_x > hi_x {
            hi_x = g.region_coords_x + g.size_x;
            w2 = i;
        }
        if g.region_coords_y + g.size_y > hi_y {
            hi_y = g.region_coords_y + g.size_y;
            w3 = i;
        }
        i += 1;
    }
    let b = ((lo_x, lo_y), (hi_x, hi_y));
    assert(group@[w0 as int].region_coords_x == b.0.0);
    assert(group@[w1 as int].region_coords_y == b.0.1);
    assert(group@[w2 as int].region_coords_x + group@[w2 as int].size_x == b.1.0);
    assert(group@[w3 as int].region_coords_y + group@[w3 as int].size_y == b.1.1);
    Ok(b)
}

/// `v` rounded down to a multiple of `step`.
pub open spec fn round_down(v: int, step: int) -> int {
    (v / step) * step
}

/// A square of 2^k cells, aligned to 2^k, holds the cell range [ll, ur) on both axes.
pub open spec fn square_fits(k: nat, ll: (u32, u32), ur: (u32, u32)) -> bool {
    &&& round_down(ll.0 as int, pow2(k) as int) + pow2(k) >= ur.0
    &&& round_down(ll.1 as int, pow2(k) as int) + pow2(k) >= ur.1
}

proof fn lemma_round_down(v: int, s: int)
    requires
        v >= 0,
        s > 0,
    ensures
        0 <= round_down(v, s) <= v,
        v < round_down(v, s) + s,
        round_down(v, s) % s == 0,
{
    vstd::arithmetic::div_mod::lemma_fundamental_div_mod(v, s);
    vstd::arithmetic::div_mod::lemma_mod_pos_bound(v, s);
    vstd::arithmetic::div_mod::lemma_div_pos_is_pos(v, s);
    vstd::arithmetic::div_mod::lemma_mod_multiples_basic(v / s, s);
    vstd::arithmetic::mul::lemma_mul_is_commutative(v / s, s);
    assert(0 <= (v / s) * s) by (nonlinear_arith)
        requires v / s >= 0, s > 0;
}

/// Find the smallest K such that a 2^K by 2^K square of cells, aligned to a
/// multiple of 2^K on both axes, contains the cell bounds [ll, ur).
/// Returns (K, lower left, upper right) of that square.
pub fn enclosing_square(ll: (u32, u32), ur: (u32, u32)) -> (r: Result<(u8, (u32, u32), (u64, u64)), GroupError>)
    ensures
        match r {
            Ok((k, a, b)) => {
                &&& k <= MAX_LOD
                &&& square_fits(k as nat, ll, ur)
                &&& forall|j: nat| j < k ==> !(#[trigger] square_fits(j, ll, ur))
                &&& a.0 == round_down(ll.0 as int, pow2(k as nat) as int)
                &&& a.1 == round_down(ll.1 as int, pow2(k as nat) as int)
                &&& b.0 == a.0 + pow2(k as nat)
                &&& b.1 == a.1 + pow2(k as nat)
                &&& a.0 <= ll.0 && a.1 <= ll.1
                &&& b.0 >= ur.0 && b.1 >= ur.1
                &&& a.0 as int % pow2(k as nat) as int == 0 && a.1 as int % pow2(k as nat) as int == 0
            },
            Err(e) => {
                &&& e == GroupError::BoundsTooLarge
                &&& forall|j: nat| j <= MAX_LOD ==> !(#[trigger] square_fits(j, ll, ur))
            },
        },
{
    let mut k: u8 = 0;
    let mut step: u64 = 1;
    while k <= MAX_LOD
        invariant
            k <= MAX_LOD + 1,
            step == pow2(k as nat),
            step <= 0x20000u64,
            forall|j: nat| j < k ==> !(#[trigger] square_fits(j, ll, ur)),
        decreases MAX_LOD + 1 - k,
    {
        proof { lemma_pow2_mono(k as nat, k as nat); }
        proof {
            lemma_round_down(ll.0 as int, step as int);
            lemma_round_down(ll.1 as int, step as int);
        }
        let a0 = (ll.0 as u64 / step) * step;
        let a1 = (ll.1 as u64 / step) * step;
        if a0 + step >= ur.0 as u64 && a1 + step >= ur.1 as u64 {
            return Ok((k, (a0 as u32, a1 as u32), (a0 + step, a1 + step)));
        }
        proof {
            assert(pow2((k + 1) as nat) == 2 * pow2(k as nat));
            lemma_pow2_mono((k + 1) as nat, 17);
            reveal_with_fuel(pow2, 18);
        }
        step = step * 2;
        k = k + 1;
    }
    Err(GroupError::BoundsTooLarge)
}

/// For a group with given bounds, find the starting point and increments
/// which step a properly aligned tile of the given LOD over the bounds:
/// the lower left rounded down to a multiple of the step, the upper right
/// rounded up to the smallest multiple of the step at or above the bounds,
/// and the step itself.
pub fn get_group_scan_limits(
    bounds: ((u32, u32), (u32, u32)),
    region_size: (u32, u32),
    lod: u8,
) -> (r: ((u32, u32), (u32, u32), (u32, u32)))
    requires
        region_size.0 > 0,
        region_size.1 > 0,
        lod < 32,
        region_size.0 * pow2(lod as nat) <= u32::MAX,
        region_size.1 * pow2(lod as nat) <= u32::MAX,
        round_down(bounds.1.0 + region_size.0 * pow2(lod as nat) - 1, region_size.0 * pow2(lod as nat)) <= u32::MAX,
        round_down(bounds.1.1 + region_size.1 * pow2(lod as nat) - 1, region_size.1 * pow2(lod as nat)) <= u32::MAX,
    ensures
        r.2.0 == region_size.0 * pow2(lod as nat),
        r.2.1 == region_size.1 * pow2(lod as nat),
        r.0.0 == round_down(bounds.0.0 as int, r.2.0 as int),
        r.0.1 == round_down(bounds.0.1 as int, r.2.1 as int),
        r.1.0 == round_down(bounds.1.0 + r.2.0 - 1, r.2.0 as int),
        r.1.1 == round_down(bounds.1.1 + r.2.1 - 1, r.2.1 as int),
        r.1.0 >= bounds.1.0 && r.1.0 < bounds.1.0 + r.2.0 && r.1.0 as int % r.2.0 as int == 0,
        r.1.1 >= bounds.1.1 && r.1.1 < bounds.1.1 + r.2.1 && r.1.1 as int % r.2.1 as int == 0,
        r.0.0 <= bounds.0.0 && r.0.0 as int % r.2.0 as int == 0,
        r.0.1 <= bounds.0.1 && r.0.1 as int % r.2.1 as int == 0,
{
    let mut mult: u32 = 1;
    let mut i: u8 = 0;
    while i < lod
        invariant
            i <= lod,
            lod < 32,
            mult == pow2(i as nat),
            region_size.0 > 0,
            region_size.1 > 0,
            region_size.0 * pow2(lod as nat) <= u32::MAX,
        decreases lod - i,
    {
        proof {
            assert(pow2((i + 1) as nat) == 2 * pow2(i as nat));
            lemma_pow2_mono((i + 1) as nat, lod as nat);
            assert(pow2((i + 1) as nat) <= region_size.0 * pow2(lod as nat)) by (nonlinear_arith)
                requires region_size.0 >= 1, pow2((i + 1) as nat) <= pow2(lod as nat);
        }
        mult = mult * 2;
        i = i + 1;
    }
    proof {
        lemma_pow2_mono(0, lod as nat);
        assert(region_size.0 * mult > 0) by (nonlinear_arith)
            requires region_size.0 > 0, mult > 0;
        assert(region_size.1 * mult > 0) by (nonlinear_arith)
            requires region_size.1 > 0, mult > 0;
    }
    let step = (region_size.0 * mult, region_size.1 * mult);
    proof {
        lemma_round_down(bounds.0.0 as int, step.0 as int);
        lemma_round_down(bounds.0.1 as int, step.1 as int);
        lemma_round_down(bounds.1.0 + step.0 - 1, step.0 as int);
        lemma_round_down(bounds.1.1 + step.1 - 1, step.1 as int);
    }
    let new_ll = ((bounds.0.0 / step.0) * step.0, (bounds.0.1 / step.1) * step.1);
    let ux = ((bounds.1.0 as u64 + (step.0 - 1) as u64) / step.0 as u64) * step.0 as u64;
    let uy = ((bounds.1.1 as u64 + (step.1 - 1) as u64) / step.1 as u64) * step.1 as u64;
    let new_ur = (ux as u32, uy as u32);
    (new_ll, new_ur, step)
}

/// True when `a` comes strictly before `b` in (x, y) order.
pub open spec fn loc_before(a: (u32, u32), b: (u32, u32)) -> bool {
    a.0 < b.0 || (a.0 == b.0 && a.1 < b.1)
}

/// Check that location `a` strictly precedes `b` in (x, y) order.
/// Callers must only pass locations in sequence.
pub fn check_loc_sequence(a: (u32, u32), b: (u32, u32))
    requires
        loc_before(a, b),
{
    if a.0 > b.0 || (a.0 == b.0 && a.1 >= b.1) {
        assert(false);
    }
}

} // verus!

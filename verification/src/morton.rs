//! Morton (Z-order) codes, by which the hierarchy builder orders its nodes.
use vstd::prelude::*;

verus! {

/// Bit `k` of `x`.
pub open spec fn bit(x: u64, k: u64) -> u64 {
    (x >> k) & 1u64
}

/// The spread of `x`: bit `k` of `x`, for `k < 21`, moves to bit `3 * k`,
/// and every other bit is zero.
pub open spec fn is_spread_of(r: u64, x: u32) -> bool {
    &&& forall|k: u64|
        k < 21 ==> #[trigger] bit(r, (3 * k) as u64) == bit(x as u64, k) && bit(r, (3 * k + 1) as u64)
            == 0 && bit(r, (3 * k + 2) as u64) == 0
    &&& bit(r, 63) == 0
}

/// The spread computed by masked shifts.
pub open spec fn spread_expr(x: u64) -> u64 {
    let x = (x | (x << 32u64)) & 0x1f00000000ffffu64;
    let x = (x | (x << 16u64)) & 0x1f0000ff0000ffu64;
    let x = (x | (x << 8u64)) & 0x100f00f00f00f00fu64;
    let x = (x | (x << 4u64)) & 0x10c30c30c30c30c3u64;
    (x | (x << 2u64)) & 0x1249249249249249u64
}

/// Spreads the low 21 bits of `x` so that two zero bits follow each of them.
pub fn spread_bits(x: u32) -> (r: u64)
    ensures
        is_spread_of(r, x),
{
    let x0 = x as u64;
    let mut x = x0;
    x = (x | (x << 32u64)) & 0x1f00000000ffffu64;
    x = (x | (x << 16u64)) & 0x1f0000ff0000ffu64;
    x = (x | (x << 8u64)) & 0x100f00f00f00f00fu64;
    x = (x | (x << 4u64)) & 0x10c30c30c30c30c3u64;
    x = (x | (x << 2u64)) & 0x1249249249249249u64;
    assert(x == spread_expr(x0));
    assert forall|k: u64| k < 21 implies #[trigger] bit(x, (3 * k) as u64) == bit(x0, k) && bit(
        x,
        (3 * k + 1) as u64,
    ) == 0 && bit(x, (3 * k + 2) as u64) == 0 by {
        let r = x;
        let t0 = (3 * k) as u64;
        let t1 = (3 * k + 1) as u64;
        let t2 = (3 * k + 2) as u64;
        assert(((r >> t0) & 1u64) == ((x0 >> k) & 1u64) && ((r >> t1) & 1u64) == 0 && ((r >> t2)
            & 1u64) == 0) by (bit_vector)
            requires
                r == spread_expr(x0),
                k < 21,
                t0 == 3 * k,
                t1 == 3 * k + 1,
                t2 == 3 * k + 2,
                x0 < 0x1_0000_0000u64,
        ;
    }
    assert(((x >> 63u64) & 1u64) == 0) by (bit_vector)
        requires
            x == spread_expr(x0),
    ;
    x
}

/// The Morton code of `x, y, z`: bits `3k`, `3k + 1`, `3k + 2` are bit `k`
/// of `x`, `y` and `z`, for `k < 21`; the top bit is zero.
pub open spec fn is_morton_of(r: u64, x: u32, y: u32, z: u32) -> bool {
    &&& forall|k: u64|
        k < 21 ==> #[trigger] bit(r, (3 * k) as u64) == bit(x as u64, k) && bit(
            r,
            (3 * k + 1) as u64,
        ) == bit(y as u64, k) && bit(r, (3 * k + 2) as u64) == bit(z as u64, k)
    &&& bit(r, 63) == 0
}

/// Interleaves the low 21 bits of `x`, `y` and `z`.
pub fn morton3d(x: u32, y: u32, z: u32) -> (r: u64)
    ensures
        is_morton_of(r, x, y, z),
{
    let sx = spread_bits(x);
    let sy = spread_bits(y);
    let sz = spread_bits(z);
    let r = sx | (sy << 1u64) | (sz << 2u64);
    assert forall|k: u64| k < 21 implies #[trigger] bit(r, (3 * k) as u64) == bit(x as u64, k)
        && bit(r, (3 * k + 1) as u64) == bit(y as u64, k) && bit(r, (3 * k + 2) as u64) == bit(
        z as u64,
        k,
    ) by {
        let t0 = (3 * k) as u64;
        let t1 = (3 * k + 1) as u64;
        let t2 = (3 * k + 2) as u64;
        let a0 = bit(sx, t0);
        let b0 = bit(sy, t0);
        let c0 = bit(sz, t0);
        assert(bit(sx, t1) == 0 && bit(sx, t2) == 0 && bit(sy, t1) == 0);
        if k == 0 {
            assert(((r >> t0) & 1u64) == a0 && ((r >> t1) & 1u64) == b0 && ((r >> t2) & 1u64) == c0)
                by (bit_vector)
                requires
                    r == sx | (sy << 1u64) | (sz << 2u64),
                    t0 == 0u64,
                    t1 == 1u64,
                    t2 == 2u64,
                    a0 == (sx >> t0) & 1u64,
                    b0 == (sy >> t0) & 1u64,
                    c0 == (sz >> t0) & 1u64,
                    (sx >> t1) & 1u64 == 0,
                    (sx >> t2) & 1u64 == 0,
                    (sy >> t1) & 1u64 == 0,
            ;
        } else {
            let km = (k - 1) as u64;
            let p1 = (3 * km + 1) as u64;
            let p2 = (3 * km + 2) as u64;
            assert(bit(sy, (3 * km) as u64) == bit(y as u64, km));
            assert(bit(sz, (3 * km) as u64) == bit(z as u64, km));
            assert(bit(sy, p2) == 0 && bit(sz, p1) == 0 && bit(sz, p2) == 0);
            assert(((r >> t0) & 1u64) == a0 && ((r >> t1) & 1u64) == b0 && ((r >> t2) & 1u64) == c0)
                by (bit_vector)
                requires
                    r == sx | (sy << 1u64) | (sz << 2u64),
                    1 <= k < 21,
                    t0 == 3 * k,
                    t1 == 3 * k + 1,
                    t2 == 3 * k + 2,
                    p1 == 3 * k - 2,
                    p2 == 3 * k - 1,
                    a0 == (sx >> t0) & 1u64,
                    b0 == (sy >> t0) & 1u64,
                    c0 == (sz >> t0) & 1u64,
                    (sx >> t1) & 1u64 == 0,
                    (sx >> t2) & 1u64 == 0,
                    (sy >> t1) & 1u64 == 0,
                    (sy >> p2) & 1u64 == 0,
                    (sz >> p1) & 1u64 == 0,
                    (sz >> p2) & 1u64 == 0,
            ;
        }
    }
    assert(bit(sx, 63) == 0);
    assert(bit(sy, (3 * 20u64) as u64) == bit(y as u64, 20));
    assert(bit(sz, (3 * 20u64) as u64) == bit(z as u64, 20));
    assert(bit(sy, (3 * 20u64 + 2) as u64) == 0);
    assert(bit(sz, (3 * 20u64 + 1) as u64) == 0);
    assert(((r >> 63u64) & 1u64) == 0) by (bit_vector)
        requires
            r == sx | (sy << 1u64) | (sz << 2u64),
            (sx >> 63u64) & 1u64 == 0,
            (sy >> 62u64) & 1u64 == 0,
            (sz >> 61u64) & 1u64 == 0,
    ;
    r
}

} // verus!

//! The arithmetic around a GPU dispatch: parameter buffers, workgroup counts
//! and the input fingerprint a persistent session uses to skip re-uploads.
use crate::wire::{put_u32, words_bytes};
use vstd::prelude::*;
use vstd::wrapping::u64_specs::wrapping_mul;

verus! {

/// Little-endian bytes of each `u32`, in order (a kernel's params buffer).
pub fn u32s_to_bytes(v: &[u32]) -> (res: Vec<u8>)
    ensures
        res@ == words_bytes(v@),
{
    let mut b: Vec<u8> = Vec::new();
    let mut i: usize = 0;
    while i < v.len()
        invariant
            0 <= i <= v@.len(),
            b@ == words_bytes(v@.subrange(0, i as int)),
        decreases v@.len() - i,
    {
        put_u32(&mut b, v[i]);
        proof {
            assert(v@.subrange(0, i + 1).drop_last() =~= v@.subrange(0, i as int));
        }
        i = i + 1;
    }
    assert(v@.subrange(0, v@.len() as int) =~= v@);
    b
}

/// Workgroups of 16 x 16 covering an `m x n` output: `ceil(m / 16)` by
/// `ceil(n / 16)` by 1, with the sizes taken as `u32`.
pub fn tile_groups(m: usize, n: usize) -> (res: [u32; 3])
    requires
        (m as u32) + 15 <= u32::MAX,
        (n as u32) + 15 <= u32::MAX,
    ensures
        res@ == seq![(((m as u32) + 15) / 16) as u32, (((n as u32) + 15) / 16) as u32, 1u32],
{
    let r = [((m as u32) + 15) / 16, ((n as u32) + 15) / 16, 1];
    assert(r@ =~= seq![(((m as u32) + 15) / 16) as u32, (((n as u32) + 15) / 16) as u32, 1u32]);
    r
}

/// The default x-workgroup count for a formula's GPU kernel: one group of
/// 256 invocations per 256 output `f32`s (at least one element counted).
pub fn default_groups_x(out_bytes: usize) -> (res: i32)
    ensures
        res == (((if out_bytes / 4 > 1 {
            out_bytes / 4
        } else {
            1
        }) + 255) / 256) as i32,
{
    let elems = if out_bytes / 4 > 1 {
        out_bytes / 4
    } else {
        1
    };
    ((elems + 255) / 256) as i32
}

/// Workgroup counts as dispatched: each count is at least 1.
pub fn clamp_groups(gx: i32, gy: i32, gz: i32) -> (res: [u32; 3])
    ensures
        res@ == seq![
            (if gx > 1 { gx } else { 1 }) as u32,
            (if gy > 1 { gy } else { 1 }) as u32,
            (if gz > 1 { gz } else { 1 }) as u32,
        ],
{
    let x = if gx > 1 {
        gx
    } else {
        1
    };
    let y = if gy > 1 {
        gy
    } else {
        1
    };
    let z = if gz > 1 {
        gz
    } else {
        1
    };
    let r = [x as u32, y as u32, z as u32];
    assert(r@ =~= seq![x as u32, y as u32, z as u32]);
    r
}

pub const FNV_OFFSET: u64 = 0xcbf29ce484222325;

pub const FNV_PRIME: u64 = 0x100000001b3;

/// 64-bit FNV-1a over one blob, continuing from `h`.
pub open spec fn fnv_bytes(h: u64, bs: Seq<u8>) -> u64
    decreases bs.len(),
{
    if bs.len() == 0 {
        h
    } else {
        wrapping_mul(fnv_bytes(h, bs.drop_last()) ^ (bs.last() as u64), FNV_PRIME)
    }
}

/// 64-bit FNV-1a over the blobs in order, with a `0xff` separator after each.
pub open spec fn fnv_blobs(bs: Seq<Seq<u8>>) -> u64
    decreases bs.len(),
{
    if bs.len() == 0 {
        FNV_OFFSET
    } else {
        wrapping_mul(fnv_bytes(fnv_blobs(bs.drop_last()), bs.last()) ^ 0xffu64, FNV_PRIME)
    }
}

/// Fingerprint of the input blobs (FNV-1a), used to tell whether a dispatch
/// can reuse the inputs already on the device.
pub fn inputs_hash(inputs: &[Vec<u8>]) -> (res: u64)
    ensures
        res == fnv_blobs(inputs@.map_values(|b: Vec<u8>| b@)),
{
    let ghost views = inputs@.map_values(|b: Vec<u8>| b@);
    let mut h: u64 = FNV_OFFSET;
    let mut k: usize = 0;
    while k < inputs.len()
        invariant
            0 <= k <= inputs@.len(),
            views == inputs@.map_values(|b: Vec<u8>| b@),
            h == fnv_blobs(views.subrange(0, k as int)),
        decreases inputs@.len() - k,
    {
        let b = &inputs[k];
        let ghost start = h;
        let mut i: usize = 0;
        while i < b.len()
            invariant
                0 <= i <= b@.len(),
                h == fnv_bytes(start, b@.subrange(0, i as int)),
            decreases b@.len() - i,
        {
            proof {
                assert(b@.subrange(0, i + 1).drop_last() =~= b@.subrange(0, i as int));
            }
            h = (h ^ (b[i] as u64)).wrapping_mul(FNV_PRIME);
            i = i + 1;
        }
        assert(b@.subrange(0, b@.len() as int) =~= b@);
        h = (h ^ 0xff).wrapping_mul(FNV_PRIME);
        proof {
            assert(views.subrange(0, k + 1).drop_last() =~= views.subrange(0, k as int));
        }
        k = k + 1;
    }
    assert(views.subrange(0, views.len() as int) =~= views);
    h
}

} // verus!

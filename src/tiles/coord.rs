//! Mapping between absolute points, chunk coordinates and inner coordinates.
//!
//! A point `p` lies in chunk `p / n` (floor division) at inner position
//! `p % n` (Euclidean remainder, always in `[0, n)`), for a chunk size `n > 0`.
use vstd::prelude::*;

verus! {

/// The largest chunk size accepted: a chunk of this size holds fewer than
/// `i32::MAX` cells.
pub const MAX_CHUNK_SIZE: usize = 46340;

/// A chunk of an accepted size has fewer than `i32::MAX` cells.
pub proof fn lemma_chunk_area(n: usize)
    requires
        valid_chunk_size(n),
    ensures
        0 < n * n <= MAX_CHUNK_SIZE * MAX_CHUNK_SIZE,
        MAX_CHUNK_SIZE * MAX_CHUNK_SIZE < i32::MAX,
{
    assert(0 < n * n <= 46340 * 46340) by (nonlinear_arith)
        requires
            0 < n <= 46340,
    ;
}

/// Floor division of a coordinate by the chunk size.
pub open spec fn chunk_of(p: int, n: int) -> int {
    p / n
}

/// Euclidean remainder of a coordinate by the chunk size.
pub open spec fn inner_of(p: int, n: int) -> int {
    p % n
}

/// A chunk size that the coordinate functions accept: positive and
/// representable as an `i32`.
pub open spec fn positive_size(n: usize) -> bool {
    0 < n <= i32::MAX
}

/// A chunk size that the grid accepts.
pub open spec fn valid_chunk_size(n: usize) -> bool {
    0 < n <= MAX_CHUNK_SIZE
}

pub proof fn lemma_div_bounds(a: int, n: int)
    requires
        n > 0,
    ensures
        a >= 0 ==> 0 <= a / n <= a,
        a < 0 ==> a <= a / n < 0,
        0 <= a % n < n,
        a == (a / n) * n + a % n,
{
    vstd::arithmetic::div_mod::lemma_fundamental_div_mod(a, n);
    vstd::arithmetic::mul::lemma_mul_is_commutative(a / n, n);
    if a >= 0 {
        assert(0 <= a / n <= a) by (nonlinear_arith)
            requires
                a >= 0,
                n > 0,
        ;
    } else {
        assert(a <= a / n < 0) by (nonlinear_arith)
            requires
                a < 0,
                n > 0,
        ;
    }
}

fn div_floor(a: i32, n: i32) -> (r: i32)
    requires
        n > 0,
    ensures
        r == chunk_of(a as int, n as int),
{
    proof {
        lemma_div_bounds(a as int, n as int);
    }
    match a.checked_div_euclid(n) {
        Some(q) => q,
        None => 0,
    }
}

fn rem_floor(a: i32, n: i32) -> (r: usize)
    requires
        n > 0,
    ensures
        r == inner_of(a as int, n as int),
{
    proof {
        lemma_div_bounds(a as int, n as int);
    }
    match a.checked_rem_euclid(n) {
        Some(q) => q as usize,
        None => 0,
    }
}

/// The chunk that holds `point`.
pub fn point_to_chunk_coord(chunk_size: usize, point: &[i32; 2]) -> (r: [i32; 2])
    requires
        positive_size(chunk_size),
    ensures
        r[0] == chunk_of(point[0] as int, chunk_size as int),
        r[1] == chunk_of(point[1] as int, chunk_size as int),
{
    let n = chunk_size as i32;
    [div_floor(point[0], n), div_floor(point[1], n)]
}

/// The position of `point` inside its chunk.
pub fn point_to_inner_coord(chunk_size: usize, point: &[i32; 2]) -> (r: [usize; 2])
    requires
        positive_size(chunk_size),
    ensures
        r[0] == inner_of(point[0] as int, chunk_size as int),
        r[1] == inner_of(point[1] as int, chunk_size as int),
        r[0] < chunk_size,
        r[1] < chunk_size,
{
    proof {
        lemma_div_bounds(point[0] as int, chunk_size as int);
        lemma_div_bounds(point[1] as int, chunk_size as int);
    }
    let n = chunk_size as i32;
    [rem_floor(point[0], n), rem_floor(point[1], n)]
}

/// The point of a chunk's origin cell.
pub fn chunk_coord_to_corner(chunk_size: usize, chunk_coord: &[i32; 2]) -> (r: [i32; 2])
    requires
        positive_size(chunk_size),
        i32::MIN <= chunk_coord[0] * chunk_size <= i32::MAX,
        i32::MIN <= chunk_coord[1] * chunk_size <= i32::MAX,
    ensures
        r[0] == chunk_coord[0] * chunk_size,
        r[1] == chunk_coord[1] * chunk_size,
{
    let n = chunk_size as i32;
    [chunk_coord[0] * n, chunk_coord[1] * n]
}

/// The point at inner position `inner_coord` of chunk `chunk_coord`.
pub fn combine_coord(chunk_size: usize, chunk_coord: &[i32; 2], inner_coord: &[usize; 2]) -> (r: [i32; 2])
    requires
        positive_size(chunk_size),
        inner_coord[0] < chunk_size,
        inner_coord[1] < chunk_size,
        i32::MIN <= chunk_coord[0] * chunk_size + inner_coord[0] <= i32::MAX,
        i32::MIN <= chunk_coord[1] * chunk_size + inner_coord[1] <= i32::MAX,
    ensures
        r[0] == chunk_coord[0] * chunk_size + inner_coord[0],
        r[1] == chunk_coord[1] * chunk_size + inner_coord[1],
{
    proof {
        let n = chunk_size as int;
        let c0 = chunk_coord[0] as int;
        let c1 = chunk_coord[1] as int;
        assert(-0x4000_0000_0000_0000 <= c0 * n <= 0x4000_0000_0000_0000 && -0x4000_0000_0000_0000 <= c1 * n <= 0x4000_0000_0000_0000) by (nonlinear_arith)
            requires
                i32::MIN <= c0 <= i32::MAX,
                i32::MIN <= c1 <= i32::MAX,
                0 < n <= i32::MAX,
        ;
    }
    let n = chunk_size as i64;
    let x = chunk_coord[0] as i64 * n + inner_coord[0] as i64;
    let y = chunk_coord[1] as i64 * n + inner_coord[1] as i64;
    [x as i32, y as i32]
}

/// Splits a point into its chunk coordinate and its inner coordinate.
pub fn split_coord(chunk_size: usize, point: &[i32; 2]) -> (r: ([i32; 2], [usize; 2]))
    requires
        positive_size(chunk_size),
    ensures
        r.0[0] == chunk_of(point[0] as int, chunk_size as int),
        r.0[1] == chunk_of(point[1] as int, chunk_size as int),
        r.1[0] == inner_of(point[0] as int, chunk_size as int),
        r.1[1] == inner_of(point[1] as int, chunk_size as int),
{
    let chunk_coord = point_to_chunk_coord(chunk_size, point);
    let inner_coord = point_to_inner_coord(chunk_size, point);
    (chunk_coord, inner_coord)
}

/// Splitting a coordinate and combining the parts gives the coordinate back,
/// for every chunk size `n > 0`, negative coordinates included.
pub proof fn lemma_split_combine(p: int, n: int)
    requires
        n > 0,
    ensures
        chunk_of(p, n) * n + inner_of(p, n) == p,
        0 <= inner_of(p, n) < n,
{
    lemma_div_bounds(p, n);
}

} // verus!

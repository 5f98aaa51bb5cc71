//! Manhattan distances in two and four dimensions.

use vstd::prelude::*;

verus! {

/// The absolute difference of two integers.
pub open spec fn abs_diff(a: int, b: int) -> int {
    if a >= b { a - b } else { b - a }
}

/// Manhattan distance between two points of the plane.
pub open spec fn manhattan_spec(p: (i32, i32), q: (i32, i32)) -> int {
    abs_diff(p.0 as int, q.0 as int) + abs_diff(p.1 as int, q.1 as int)
}

/// The Manhattan distance of two points; defined where it fits in an `i32`.
pub fn manhattan_dist(p: (i32, i32), q: (i32, i32)) -> (r: i32)
    requires
        manhattan_spec(p, q) <= i32::MAX,
    ensures
        r == manhattan_spec(p, q),
{
    let dx: i64 = if p.0 >= q.0 { p.0 as i64 - q.0 as i64 } else { q.0 as i64 - p.0 as i64 };
    let dy: i64 = if p.1 >= q.1 { p.1 as i64 - q.1 as i64 } else { q.1 as i64 - p.1 as i64 };
    (dx + dy) as i32
}

/// Manhattan distance between two points of four-dimensional space.
pub open spec fn dist_spec(p: [i32; 4], q: [i32; 4]) -> int {
    abs_diff(p[0] as int, q[0] as int) + abs_diff(p[1] as int, q[1] as int) + abs_diff(
        p[2] as int,
        q[2] as int,
    ) + abs_diff(p[3] as int, q[3] as int)
}

/// The Manhattan distance of two points in four dimensions; defined where
/// it fits in an `i32`.
pub fn dist(p: [i32; 4], q: [i32; 4]) -> (r: i32)
    requires
        dist_spec(p, q) <= i32::MAX,
    ensures
        r == dist_spec(p, q),
{
    assert(abs_diff_prefix(p, q, 4) == dist_spec(p, q)) by {
        reveal_with_fuel(abs_diff_prefix, 5);
    }
    let mut sum: i64 = 0;
    for i in 0..4
        invariant
            sum == abs_diff_prefix(p, q, i as int),
            0 <= sum <= i * 0xffff_ffffi64,
    {
        let d: i64 = if p[i] >= q[i] { p[i] as i64 - q[i] as i64 } else { q[i] as i64 - p[i] as i64 };
        sum = sum + d;
    }
    sum as i32
}

/// Sum of the coordinate differences over the first `n` axes.
pub open spec fn abs_diff_prefix(p: [i32; 4], q: [i32; 4], n: int) -> int
    decreases n,
{
    if n <= 0 {
        0
    } else {
        abs_diff_prefix(p, q, n - 1) + abs_diff(p[n - 1] as int, q[n - 1] as int)
    }
}

} // verus!

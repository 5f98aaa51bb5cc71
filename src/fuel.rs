//! Power levels of fuel cells on a 300 by 300 grid.

use vstd::prelude::*;

verus! {

/// Division rounding toward zero, as Rust's integer `/` does (for `b > 0`).
pub open spec fn trunc_div(a: int, b: int) -> int {
    if a >= 0 { a / b } else { -((-a) / b) }
}

/// Remainder taking the sign of the dividend, as Rust's integer `%` does.
pub open spec fn trunc_rem(a: int, b: int) -> int {
    a - b * trunc_div(a, b)
}

/// The rack id of column `x` times `y`, plus the serial, times the rack id.
pub open spec fn raw_level(x: int, y: int, serial: int) -> int {
    ((x + 10) * y + serial) * (x + 10)
}

/// The power level of the cell: the hundreds digit of the raw level, less five.
pub open spec fn power_spec(x: int, y: int, serial: int) -> int {
    trunc_rem(trunc_div(raw_level(x, y, serial), 100), 10) - 5
}

/// The power level of the fuel cell in column `x` of row `y` for a grid
/// serial number; defined where the computation fits in an `i32`.
pub fn power(x: usize, y: usize, serial: i32) -> (r: i32)
    requires
        x + 10 <= i32::MAX,
        y <= i32::MAX,
        i32::MIN <= (x + 10) * y + serial <= i32::MAX,
        i32::MIN <= raw_level(x as int, y as int, serial as int) <= i32::MAX,
    ensures
        r == power_spec(x as int, y as int, serial as int),
{
    let rid: i64 = x as i64 + 10;
    let base: i64 = rid * (y as i64) + serial as i64;
    assert(base * rid == raw_level(x as int, y as int, serial as int));
    let level: i64 = base * rid;
    let hundreds: i64 = if level >= 0 { level / 100 } else { -((-level) / 100) };
    let digit: i64 = if hundreds >= 0 { hundreds % 10 } else { -((-hundreds) % 10) };
    assert(digit == trunc_rem(hundreds as int, 10));
    (digit - 5) as i32
}

} // verus!

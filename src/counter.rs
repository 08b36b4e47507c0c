use vstd::prelude::*;

verus! {

/// Largest value a grid cell can hold.
pub const COUNTER_MAX: u8 = 255;

/// Value of a cell after one hit: one more, held at the maximum.
pub open spec fn sat_inc(v: u8) -> u8 {
    if v == COUNTER_MAX { v } else { (v + 1) as u8 }
}

/// A count held at the counter's maximum (and at zero from below).
pub open spec fn clamp(n: int) -> u8 {
    if n >= COUNTER_MAX { COUNTER_MAX } else if n <= 0 { 0u8 } else { n as u8 }
}

/// Adds one hit to a counter; a counter already at the maximum is left unchanged.
pub fn saturating_inc(v: u8) -> (r: u8)
    ensures
        r == sat_inc(v),
{
    match v.checked_add(1) {
        Some(n) => n,
        None => v,
    }
}

/// Sum of two counters, held at the maximum.
pub fn saturating_add(a: u8, b: u8) -> (r: u8)
    ensures
        r == clamp(a + b),
{
    a.saturating_add(b)
}

} // verus!

//! Uniform sampling helpers over integer ranges. Each returns its lower
//! bound when the requested range is backwards or empty, so every call is
//! total; the draw itself comes from the thread-local generator.

use vstd::prelude::*;

verus! {

/// Relies on rand's `Rng::gen_range` over `start..end`: a uniform draw
/// from a non-empty half-open range (it panics only on an empty range,
/// which the precondition rules out).
#[verifier::external_body]
fn draw_usize(start: usize, end: usize) -> (r: usize)
    requires
        start < end,
    ensures
        start <= r < end,
{
    rand::Rng::gen_range(&mut rand::thread_rng(), start..end)
}

/// Relies on rand's `Rng::gen_range` over `start..=end`: a uniform draw
/// from a non-empty closed range.
#[verifier::external_body]
fn draw_usize_inclusive(start: usize, end: usize) -> (r: usize)
    requires
        start <= end,
    ensures
        start <= r <= end,
{
    rand::Rng::gen_range(&mut rand::thread_rng(), start..=end)
}

/// Relies on rand's `Rng::gen_range` over `start..=end`: a uniform draw
/// from a non-empty closed range.
#[verifier::external_body]
fn draw_u32_inclusive(start: u32, end: u32) -> (r: u32)
    requires
        start <= end,
    ensures
        start <= r <= end,
{
    rand::Rng::gen_range(&mut rand::thread_rng(), start..=end)
}

/// Sample a `usize` within the half-open interval `[start, end)`; a
/// backwards or empty range yields `start`.
pub fn range_usize(start: usize, end: usize) -> (r: usize)
    ensures
        end <= start ==> r == start,
        start < end ==> start <= r < end,
{
    if end <= start {
        return start;
    }
    draw_usize(start, end)
}

/// Sample a `usize` within the closed interval `[start, end]`; a
/// backwards range yields `start`.
pub fn range_usize_inclusive(start: usize, end: usize) -> (r: usize)
    ensures
        end <= start ==> r == start,
        start < end ==> start <= r <= end,
{
    if end <= start {
        return start;
    }
    draw_usize_inclusive(start, end)
}

/// Sample a `u32` within the closed interval `[start, end]`; a backwards
/// range yields `start`.
pub fn range_u32_inclusive(start: u32, end: u32) -> (r: u32)
    ensures
        end <= start ==> r == start,
        start < end ==> start <= r <= end,
{
    if end <= start {
        return start;
    }
    draw_u32_inclusive(start, end)
}

} // verus!

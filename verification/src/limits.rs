//! Processing limits checked on the Rust side.

use vstd::prelude::*;

verus! {

/// Largest Markdown file, in bytes, that is read and shown.
pub const MAX_MARKDOWN_BYTES: u32 = 10485760;

/// Largest image, in bytes.
pub const MAX_IMAGE_BYTES: u32 = 33554432;

/// Longest accepted image edge, in pixels.
pub const MAX_IMAGE_EDGE_PIXELS: u32 = 16384;

/// Largest accepted total pixel count of an image.
pub const MAX_IMAGE_TOTAL_PIXELS: u32 = 24000000;

/// Number of images read at the same time.
pub const MAX_CONCURRENT_IMAGE_LOADS: usize = 2;


/// Bytes per decoded pixel (RGBA, 8 bits per channel).
pub const DECODED_BYTES_PER_PIXEL: u64 = 4;

/// Memory budget for decoded images, in bytes (300 MiB).
pub const DECODED_MEMORY_BUDGET_BYTES: u64 = 314572800;

/// The images decoded at the same time fit in the memory budget, even at
/// the largest accepted pixel count.
pub proof fn decoded_images_fit_in_the_budget()
    ensures
        MAX_IMAGE_TOTAL_PIXELS * DECODED_BYTES_PER_PIXEL * MAX_CONCURRENT_IMAGE_LOADS < DECODED_MEMORY_BUDGET_BYTES,
{
}

/// The edge limit alone would admit more pixels than the total limit: both
/// limits are needed and act independently.
pub proof fn edge_limit_alone_admits_more_than_the_total_limit()
    ensures
        MAX_IMAGE_EDGE_PIXELS * MAX_IMAGE_EDGE_PIXELS > MAX_IMAGE_TOTAL_PIXELS,
{
}

} // verus!

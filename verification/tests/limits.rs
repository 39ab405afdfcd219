use md_peruse::limits::{MAX_CONCURRENT_IMAGE_LOADS, MAX_IMAGE_EDGE_PIXELS, MAX_IMAGE_TOTAL_PIXELS};

#[test]
fn decoded_image_memory_fits_in_budget() {
    const BYTES_PER_PIXEL: u64 = 4; // RGBA8
    const MEMORY_BUDGET_BYTES: u64 = 300 * 1024 * 1024;

    let concurrent = u64::try_from(MAX_CONCURRENT_IMAGE_LOADS).unwrap();
    let decoded = u64::from(MAX_IMAGE_TOTAL_PIXELS) * BYTES_PER_PIXEL * concurrent;

    assert!(
        decoded < MEMORY_BUDGET_BYTES,
        "デコード後 {decoded} バイトがメモリ目標 {MEMORY_BUDGET_BYTES} バイトを超える"
    );
}

#[test]
fn edge_limit_alone_allows_more_than_total_limit() {
    let square = u64::from(MAX_IMAGE_EDGE_PIXELS) * u64::from(MAX_IMAGE_EDGE_PIXELS);
    assert!(square > u64::from(MAX_IMAGE_TOTAL_PIXELS));
}

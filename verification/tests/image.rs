use lib::image::BlockScan;

#[test]
fn block_scan_counts_zero_blocks() {
    let mut scan = BlockScan::new(10);
    let zero = [0u8; 4];
    let data = [0u8, 7, 0, 0];
    scan.observe(Some(&zero));
    scan.observe(Some(&data));
    scan.observe(Some(&zero));
    assert_eq!(scan.blocks_read, 3);
    assert_eq!(scan.zero_blocks, 2);
    assert!(scan.wants_block());
    scan.observe(None);
    assert!(!scan.wants_block());
    assert_eq!(scan.blocks_read, 3);
}

#[test]
fn block_scan_stops_after_max_blocks() {
    let mut scan = BlockScan::new(2);
    let zero = [0u8; 4];
    let mut offered = 0;
    while scan.wants_block() {
        scan.observe(Some(&zero));
        offered += 1;
    }
    assert_eq!(offered, 2);
    assert_eq!(scan.zero_blocks, 2);
}

use lib::detect::{
    classify_row, entropy_edges, format_size, normalize_raid_name, rank_stripe_votes, stripe_candidates,
    tally_stripe_votes, EntropyLevel, RowClass, TypeScan, TypeStats,
};

#[test]
fn rows_are_classified() {
    assert!(classify_row(&vec![vec![0u8; 4], vec![0u8; 4]]) == RowClass::Mirrored);
    assert!(classify_row(&vec![vec![1u8, 2], vec![1u8, 2]]) == RowClass::Mirrored);
    assert!(classify_row(&vec![vec![1u8, 2], vec![3u8, 4], vec![2u8, 6]]) == RowClass::Parity);
    assert!(classify_row(&vec![vec![1u8, 2], vec![3u8, 4], vec![9u8, 6]]) == RowClass::Unassigned);
}

#[test]
fn identical_images_count_as_mirrored() {
    let mut stats = TypeStats::default();
    for i in 0..128u8 {
        let block = vec![i; 512];
        stats.observe_row(&vec![block.clone(), block]);
    }
    // every row read is counted, the all-zero first row as mirrored
    assert_eq!(stats.mirrored_blocks, 128);
    assert_eq!(stats.parity_blocks, 0);
    assert_eq!(stats.unassigned_blocks, 0);
}

#[test]
fn entropy_edges_need_full_windows() {
    let (low, mid, high) = (EntropyLevel::Low, EntropyLevel::Mid, EntropyLevel::High);
    let levels = vec![low, low, high, high, low, low, mid];
    let offsets: Vec<usize> = (0..levels.len()).map(|i| i * 512).collect();
    assert_eq!(entropy_edges(&levels, &offsets, 2), vec![1024, 2048]);
    assert_eq!(entropy_edges(&levels, &offsets, 4), Vec::<usize>::new());
}

#[test]
fn votes_go_to_largest_dividing_stripe() {
    let mut votes = stripe_candidates();
    assert_eq!(votes.len(), 11);
    assert_eq!(votes[0], (1048576, 0));
    assert_eq!(votes[10], (1024, 0));
    tally_stripe_votes(&mut votes, &[0, 65536, 65536, 196608, 197632]);
    // distances: 65536 (64K), 0 (no vote), 131072 (128K), 1024 (1K)
    assert_eq!(votes[3], (131072, 1));
    assert_eq!(votes[4], (65536, 1));
    assert_eq!(votes[10], (1024, 1));
    assert_eq!(votes.iter().map(|v| v.1).sum::<usize>(), 3);
}

#[test]
fn ranking_is_stable_by_count() {
    let ranked = rank_stripe_votes(vec![(8, 1), (4, 3), (2, 1), (1, 3)]);
    assert_eq!(ranked, vec![(4, 3), (1, 3), (8, 1), (2, 1)]);
}

#[test]
fn sizes_are_formatted() {
    assert_eq!(format_size(65536), "64K");
    assert_eq!(format_size(2 * 1048576), "2M");
    assert_eq!(format_size(1000), "1000");
    assert_eq!(format_size(0), "0M");
}

#[test]
fn forced_raid_names() {
    assert_eq!(normalize_raid_name("RAID-1"), "raid1");
    assert_eq!(normalize_raid_name("jbod"), "jbod");
}

#[test]
fn votes_of_all_images_are_ranked() {
    let edges = vec![vec![0usize, 65536, 131072], vec![1024usize, 2048], vec![]];
    let ranked = lib::detect::detect_stripe_sizes(&edges);
    assert_eq!(ranked.len(), 11);
    assert_eq!(ranked[0], (65536, 2));
    assert_eq!(ranked[1], (1024, 1));
    assert_eq!(ranked[2], (1048576, 0));
    assert_eq!(ranked[10], (2048, 0));
}

#[test]
fn type_scan_stops_after_max_rows() {
    let mut scan = TypeScan::new(3);
    let mut offered = 0;
    while scan.wants_row() {
        let block = vec![offered as u8; 4];
        scan.observe(Some(vec![block.clone(), block]));
        offered += 1;
    }
    assert_eq!(offered, 3);
    assert_eq!(scan.rows_read, 3);
    assert_eq!(scan.stats.mirrored_blocks, 3);
}

#[test]
fn type_scan_stops_when_an_image_ends() {
    let mut scan = TypeScan::new(10);
    scan.observe(Some(vec![vec![1u8, 2], vec![3u8, 4], vec![2u8, 6]]));
    scan.observe(Some(vec![vec![1u8, 2], vec![3u8, 4], vec![9u8, 6]]));
    assert!(scan.wants_row());
    scan.observe(None);
    assert!(!scan.wants_row());
    assert_eq!(scan.rows_read, 2);
    assert_eq!(scan.stats.parity_blocks, 1);
    assert_eq!(scan.stats.unassigned_blocks, 1);
    assert_eq!(scan.stats.mirrored_blocks + scan.stats.parity_blocks + scan.stats.unassigned_blocks, 2);
}

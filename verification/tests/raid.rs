use lib::image::{Image, ImageSet};
use lib::raid::{
    assemble, available_disk_map, data_disk_order, normalize_raid, normalized_order, parity_disk,
    recover_raid5_missing, xor_available_blocks, AssemblyPlan, BlockSource,
};

fn image_set(sizes: &[u64]) -> ImageSet {
    ImageSet {
        images: sizes
            .iter()
            .enumerate()
            .map(|(i, s)| Image { path: format!("disk{i}.img"), size: *s })
            .collect(),
    }
}

/// Builds the logical volume of `plan` from in-memory disks.
fn build_volume(plan: &AssemblyPlan, disks: &[Vec<u8>]) -> Vec<u8> {
    let mut out = Vec::new();
    if let AssemblyPlan::Mirror { image } = plan {
        return disks[*image].clone();
    }
    let stripe = plan.stripe_size();
    for row in 0..plan.row_count() {
        for source in plan.row_sources(row).unwrap() {
            match source {
                BlockSource::Image { image, offset } => {
                    let o = offset as usize;
                    out.extend_from_slice(&disks[image][o..o + stripe]);
                }
                BlockSource::Rebuild { offset } => {
                    let o = offset as usize;
                    let blocks: Vec<Vec<u8>> = disks.iter().map(|d| d[o..o + stripe].to_vec()).collect();
                    out.extend_from_slice(&xor_available_blocks(&blocks, stripe));
                }
            }
        }
    }
    out
}

#[test]
fn left_symmetric_parity_rotates_from_right() {
    assert_eq!(parity_disk(0, 4, "left-symmetric").unwrap(), 3);
    assert_eq!(parity_disk(1, 4, "left-symmetric").unwrap(), 2);
    assert_eq!(parity_disk(2, 4, "left-symmetric").unwrap(), 1);
    assert_eq!(parity_disk(3, 4, "left-symmetric").unwrap(), 0);
}

#[test]
fn right_layouts_rotate_parity_from_left() {
    assert_eq!(parity_disk(0, 4, "right-asymmetric").unwrap(), 0);
    assert_eq!(parity_disk(5, 4, "right-symmetric").unwrap(), 1);
    assert_eq!(parity_disk(7, 3, "left-asymmetric").unwrap(), 1);
}

#[test]
fn unknown_layout_is_an_error() {
    assert_eq!(parity_disk(0, 4, "diagonal").unwrap_err(), "unsupported RAID-5 layout 'diagonal'");
    assert_eq!(data_disk_order(0, 4, 3, "diagonal").unwrap_err(), "unsupported RAID-5 layout 'diagonal'");
}

#[test]
fn symmetric_data_disks_follow_parity() {
    assert_eq!(data_disk_order(0, 4, 3, "left-symmetric").unwrap(), vec![0, 1, 2]);
    assert_eq!(data_disk_order(1, 4, 2, "left-symmetric").unwrap(), vec![3, 0, 1]);
    assert_eq!(data_disk_order(1, 4, 1, "right-symmetric").unwrap(), vec![2, 3, 0]);
}

#[test]
fn asymmetric_data_disks_skip_parity() {
    assert_eq!(data_disk_order(1, 4, 2, "left-asymmetric").unwrap(), vec![0, 1, 3]);
    assert_eq!(data_disk_order(0, 4, 0, "right-asymmetric").unwrap(), vec![1, 2, 3]);
    assert_eq!(data_disk_order(1, 4, 1, "right-asymmetric").unwrap(), vec![3, 2, 0]);
}

#[test]
fn data_disks_and_parity_cover_each_row() {
    for layout in ["left-symmetric", "left-asymmetric", "right-symmetric", "right-asymmetric"] {
        for n in 1..7usize {
            for row in 0..10usize {
                let parity = parity_disk(row, n, layout).unwrap();
                let mut disks = data_disk_order(row, n, parity, layout).unwrap();
                disks.push(parity);
                disks.sort();
                assert_eq!(disks, (0..n).collect::<Vec<_>>());
            }
        }
    }
}

#[test]
fn normalized_order_accepts_permutations() {
    assert_eq!(normalized_order(None, 3).unwrap(), vec![0, 1, 2]);
    assert_eq!(normalized_order(Some(vec![2, 0, 1]), 3).unwrap(), vec![2, 0, 1]);
}

#[test]
fn normalized_order_errors() {
    assert_eq!(normalized_order(Some(vec![0, 1]), 3).unwrap_err(), "order must contain 3 entries");
    assert_eq!(normalized_order(Some(vec![0, 5, 1]), 3).unwrap_err(), "disk order entry 5 is out of range");
    assert_eq!(normalized_order(Some(vec![1, 1, 9]), 3).unwrap_err(), "disk order entry 1 is duplicated");
}

#[test]
fn raid_names_are_normalized() {
    assert_eq!(normalize_raid("RAID-5"), "raid5");
    assert_eq!(normalize_raid("0"), "raid0");
    assert_eq!(normalize_raid("raid1"), "raid1");
    assert_eq!(normalize_raid("Raid10"), "raid10");
}

#[test]
fn available_map_skips_missing_disk() {
    assert_eq!(available_disk_map(4, 2), vec![Some(0), Some(1), None, Some(2)]);
    assert_eq!(available_disk_map(3, 0), vec![None, Some(0), Some(1)]);
}

#[test]
fn assembles_simple_raid0() {
    let disks = vec![b"AAAA".to_vec(), b"BBBB".to_vec()];
    let images = image_set(&[4, 4]);
    let plan = assemble(&images, "raid0", 2, Some(vec![0, 1]), None).unwrap();
    assert_eq!(build_volume(&plan, &disks), b"AABBAABB".to_vec());
}

#[test]
fn assemble_raid1_copies_first_image() {
    let images = image_set(&[4, 4]);
    match assemble(&images, "1", 512, None, None).unwrap() {
        AssemblyPlan::Mirror { image } => assert_eq!(image, 0),
        _ => panic!("expected a mirror plan"),
    }
}

#[test]
fn assemble_errors() {
    let two = image_set(&[4, 4]);
    assert_eq!(assemble(&two, "raid5", 2, None, None).err().unwrap(), "RAID-5 assemble requires at least three images");
    assert_eq!(assemble(&two, "RAID6", 2, None, None).err().unwrap(), "unsupported assemble RAID type 'raid6'");
    assert_eq!(assemble(&two, "raid0", 2, Some(vec![0]), None).err().unwrap(), "order must contain 2 entries");
}

#[test]
fn assemble_raid5_left_symmetric() {
    // Three disks, stripe 1, left-symmetric: row 0 parity on disk 2, row 1 on disk 1.
    let d0 = vec![b'a', b'd'];
    let d1 = vec![b'b', b'c' ^ b'd'];
    let d2 = vec![b'a' ^ b'b', b'c'];
    let disks = vec![d0, d1, d2];
    let images = image_set(&[2, 2, 2]);
    let plan = assemble(&images, "raid5", 1, None, None).unwrap();
    assert_eq!(build_volume(&plan, &disks), b"abcd".to_vec());
}

#[test]
fn recover_rebuilds_missing_disk() {
    let d0 = vec![b'a', b'd'];
    let d1 = vec![b'b', b'c' ^ b'd'];
    let d2 = vec![b'a' ^ b'b', b'c'];
    // Disk 1 is missing: the images are disks 0 and 2.
    let present = vec![d0, d2];
    let images = image_set(&[2, 2]);
    let plan = recover_raid5_missing(&images, 1, 1, None, "left-symmetric").unwrap();
    assert_eq!(build_volume(&plan, &present), b"abcd".to_vec());
    let _ = d1;
}

#[test]
fn recover_errors() {
    let images = image_set(&[2, 2]);
    assert_eq!(
        recover_raid5_missing(&images, 1, 3, None, "left-symmetric").err().unwrap(),
        "--missing is outside the full RAID disk count"
    );
    assert_eq!(
        recover_raid5_missing(&images, 1, 0, Some(vec![0, 0, 1]), "left-symmetric").err().unwrap(),
        "disk order entry 0 is duplicated"
    );
    let plan = recover_raid5_missing(&images, 1, 0, None, "zigzag").unwrap();
    assert_eq!(plan.row_sources(0).err().unwrap(), "unsupported RAID-5 layout 'zigzag'");
}

#[test]
fn xor_of_survivors_equals_missing_stripe() {
    let a = vec![0x12u8, 0x34, 0x56];
    let b = vec![0xabu8, 0xcd, 0xef];
    let p: Vec<u8> = a.iter().zip(&b).map(|(x, y)| x ^ y).collect();
    assert_eq!(xor_available_blocks(&vec![a.clone(), p.clone()], 3), b);
    assert_eq!(xor_available_blocks(&vec![b, p], 3), a);
}

#[test]
fn short_blocks_are_zero_padded() {
    assert_eq!(xor_available_blocks(&vec![vec![1u8, 2], vec![4u8]], 3), vec![5, 2, 0]);
}

#[test]
fn min_size_of_images() {
    assert_eq!(image_set(&[10, 4, 7]).min_size(), 4);
    assert_eq!(image_set(&[]).min_size(), 0);
}

#[test]
fn parity_moves_one_disk_per_row() {
    for n in 1..6usize {
        for row in 0..12usize {
            let left = parity_disk(row, n, "left-asymmetric").unwrap();
            let left_next = parity_disk(row + 1, n, "left-asymmetric").unwrap();
            assert_eq!(left_next, (left + n - 1) % n);
            let right = parity_disk(row, n, "right-symmetric").unwrap();
            let right_next = parity_disk(row + 1, n, "right-symmetric").unwrap();
            assert_eq!(right_next, (right + 1) % n);
        }
    }
}

#[test]
fn recovery_rebuilds_every_missing_disk() {
    // four disks, stripe 2, left-symmetric, three rows of data
    let n = 4usize;
    let stripe = 2usize;
    let rows = 3usize;
    let mut disks = vec![vec![0u8; stripe * rows]; n];
    let mut expected = Vec::new();
    let mut next = 1u8;
    for row in 0..rows {
        let parity = parity_disk(row, n, "left-symmetric").unwrap();
        for d in data_disk_order(row, n, parity, "left-symmetric").unwrap() {
            for b in 0..stripe {
                disks[d][row * stripe + b] = next;
                expected.push(next);
                next = next.wrapping_mul(7).wrapping_add(3);
            }
        }
        for b in 0..stripe {
            let mut x = 0u8;
            for d in 0..n {
                if d != parity {
                    x ^= disks[d][row * stripe + b];
                }
            }
            disks[parity][row * stripe + b] = x;
        }
    }
    let full = image_set(&vec![(stripe * rows) as u64; n]);
    let plan = assemble(&full, "raid5", stripe, None, None).unwrap();
    assert_eq!(build_volume(&plan, &disks), expected);
    for missing in 0..n {
        let present: Vec<Vec<u8>> = (0..n).filter(|d| *d != missing).map(|d| disks[d].clone()).collect();
        let images = image_set(&vec![(stripe * rows) as u64; n - 1]);
        let plan = recover_raid5_missing(&images, stripe, missing, None, "left-symmetric").unwrap();
        assert_eq!(build_volume(&plan, &present), expected);
    }
}

use imageindex::dedup::{group_by_hash, group_sizes, hamming_distance, UnionFind};

#[test]
fn hamming_distance_of_identical_is_zero() {
    assert_eq!(hamming_distance(0x1234, 0x1234), 0);
}

#[test]
fn hamming_distance_counts_differing_bits() {
    assert_eq!(hamming_distance(0b1010, 0b0010), 1);
    assert_eq!(hamming_distance(0b1111, 0b0000), 4);
}

#[test]
fn near_hashes_group_together_transitively() {
    let a = 0b0000u64;
    let b = 0b0001u64;
    let c = 0b0011u64;
    let far = 0xFFFF_FFFF_FFFF_FFFFu64;
    let groups = group_by_hash(&[a, b, c, far], 1);
    assert_eq!(groups[0], groups[1]);
    assert_eq!(groups[1], groups[2]);
    assert_ne!(groups[0], groups[3]);
}

#[test]
fn group_sizes_counts_members() {
    let groups = vec![1, 1, 2, 1];
    let sizes = group_sizes(&groups);
    assert_eq!(sizes[1], 3);
    assert_eq!(sizes[2], 1);
}

#[test]
fn distance_is_a_metric() {
    let (a, b, c) = (0x0f0fu64, 0xff00u64, u64::MAX);
    assert_eq!(hamming_distance(a, b), 8);
    assert_eq!(hamming_distance(b, a), 8);
    assert_eq!(hamming_distance(0, c), 64);
    assert!(hamming_distance(a, c) <= hamming_distance(a, b) + hamming_distance(b, c));
}

#[test]
fn groups_are_numbered_as_they_appear() {
    assert_eq!(group_by_hash(&[], 6), Vec::<usize>::new());
    assert_eq!(group_by_hash(&[7, u64::MAX, 7, 1 << 40, u64::MAX], 0), vec![1, 2, 1, 3, 2]);
}

#[test]
fn late_photo_joins_two_groups() {
    assert_eq!(group_by_hash(&[0b0000, 0b1111, 0b0011], 2), vec![1, 1, 1]);
    assert_eq!(group_by_hash(&[0b0000, 0b1111, 0b0011], 1), vec![1, 2, 3]);
}

#[test]
fn higher_threshold_joins_more() {
    let hashes = [0u64, 3, 15, 255];
    assert_eq!(group_by_hash(&hashes, 2), vec![1, 1, 1, 2]);
    assert_eq!(group_by_hash(&hashes, 4), vec![1, 1, 1, 1]);
    assert_eq!(group_by_hash(&[0, u64::MAX], 64), vec![1, 1]);
}

#[test]
fn group_sizes_add_up() {
    assert_eq!(group_sizes(&[]), vec![0]);
    assert_eq!(group_sizes(&[0, 0, 0]), vec![3]);
    let sizes = group_sizes(&[1, 4, 4, 1, 2]);
    assert_eq!(sizes, vec![0, 2, 1, 0, 2]);
    assert_eq!(sizes.iter().sum::<usize>(), 5);
}

#[test]
fn sizes_tell_lone_photos() {
    let hashes = [0u64, 1, 3, u64::MAX, 0xff << 40, u64::MAX];
    let groups = group_by_hash(&hashes, 1);
    let sizes = group_sizes(&groups);
    assert_eq!(groups, vec![1, 1, 1, 2, 3, 2]);
    assert_eq!(sizes, vec![0, 3, 2, 1]);
    assert_eq!(sizes.iter().sum::<usize>(), hashes.len());
    for i in 0..hashes.len() {
        let lone = (0..hashes.len())
            .all(|j| j == i || hamming_distance(hashes[i], hashes[j]) > 1);
        assert_eq!(sizes[groups[i]] == 1, lone);
    }
    assert_eq!(group_sizes(&[]), vec![0]);
}

#[test]
fn roots_are_their_own() {
    let mut uf = UnionFind::new(4);
    uf.union(0, 1);
    uf.union(1, 2);
    let root = uf.find(0);
    assert!(root < 4);
    assert_eq!(uf.find(root), root);
    assert_eq!((uf.find(1), uf.find(2)), (root, root));
    assert_eq!(uf.find(3), 3);
}

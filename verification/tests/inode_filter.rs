use rustdirstat::inode_filter::InodeFilter;

#[test]
fn it_filters_inodes() {
    let mut inodes = InodeFilter::default();

    assert!(inodes.add_dev_inode((1, 1), 2));
    assert!(inodes.add_dev_inode((2, 1), 2));
    assert!(!inodes.add_dev_inode((1, 1), 2));
    assert!(!inodes.add_dev_inode((2, 1), 2));

    assert!(inodes.add_dev_inode((1, 1), 3));
    assert!(!inodes.add_dev_inode((1, 1), 3));
    assert!(!inodes.add_dev_inode((1, 1), 3));

    assert!(inodes.add_dev_inode((1, 1), 1));
    assert!(inodes.add_dev_inode((1, 1), 1));
}

#[test]
fn a_file_with_four_links_is_counted_once() {
    let mut inodes = InodeFilter::default();
    let mut counted = 0;
    for _ in 0..4 {
        if inodes.add_dev_inode((7, 42), 4) {
            counted += 1;
        }
    }
    assert_eq!(counted, 1);
    // every sighting has been seen, so the next one starts a new count
    assert!(inodes.add_dev_inode((7, 42), 4));
}

#[test]
fn same_inode_on_other_device_is_another_file() {
    let mut inodes = InodeFilter::default();
    assert!(inodes.add_dev_inode((1, 9), 2));
    assert!(inodes.add_dev_inode((2, 9), 2));
    assert!(!inodes.add_dev_inode((1, 9), 2));
}

#[test]
fn single_link_files_are_always_counted() {
    let mut inodes = InodeFilter::default();
    assert!(inodes.add_dev_inode((3, 3), 0));
    assert!(inodes.add_dev_inode((3, 3), 1));
    assert!(inodes.add_dev_inode((3, 3), 1));
}

#[test]
fn a_clone_keeps_the_sightings() {
    let mut inodes = InodeFilter::default();
    assert!(inodes.add_dev_inode((5, 5), 2));
    let mut copy = inodes.clone();
    assert!(!copy.add_dev_inode((5, 5), 2));
    assert!(!inodes.add_dev_inode((5, 5), 2));
}

#[test]
fn hard_links_are_counted_once_among_other_files() {
    let mut inodes = InodeFilter::default();
    assert!(inodes.add_dev_inode((1, 1), 3));
    assert!(inodes.add_dev_inode((2, 2), 2));
    assert!(!inodes.add_dev_inode((1, 1), 3));
    assert!(inodes.add_dev_inode((9, 9), 1));
    assert!(!inodes.add_dev_inode((2, 2), 2));
    // a later sighting may report another link count
    assert!(!inodes.add_dev_inode((1, 1), 5));
    // all three sightings seen: the file is counted again next time
    assert!(inodes.add_dev_inode((1, 1), 2));
    assert!(inodes.add_dev_inode((2, 2), 2));
}

#[test]
fn counted_size_follows_the_hard_link_setting() {
    let mut f = InodeFilter::default();
    assert_eq!(f.counted_size(false, (1, 42), 2, 4096), 4096);
    assert_eq!(f.counted_size(false, (1, 42), 2, 4096), 0);
    assert_eq!(f.counted_size(false, (1, 42), 2, 4096), 4096);
    assert_eq!(f.counted_size(true, (1, 43), 2, 512), 512);
    assert_eq!(f.counted_size(true, (1, 43), 2, 512), 512);
    assert_eq!(f.counted_size(false, (1, 43), 2, 512), 512);
    assert_eq!(f.counted_size(false, (1, 44), 1, 100), 100);
}

use rhmap::raw_alloc::{allocate, deallocate, set_path, valid_params, with_path, AllocConfig};

#[test]
fn rejects_zero_size() {
    let cfg = AllocConfig::new(String::from("."));
    assert!(allocate(&cfg, 0, 64).is_none());
}

#[test]
fn rejects_zero_alignment() {
    let cfg = AllocConfig::new(String::from("."));
    assert!(allocate(&cfg, 64, 0).is_none());
}

#[test]
fn rejects_non_power_of_two_alignment() {
    let cfg = AllocConfig::new(String::from("."));
    assert!(allocate(&cfg, 64, 3).is_none());
    assert!(allocate(&cfg, 64, 6).is_none());
    assert!(allocate(&cfg, 64, 4095).is_none());
}

#[test]
fn rejects_over_page_alignment() {
    let cfg = AllocConfig::new(String::from("."));
    assert!(allocate(&cfg, 64, 8192).is_none());
}

#[test]
fn serves_valid_requests() {
    let cfg = AllocConfig::new(String::from("."));
    for align in [1usize, 2, 4, 64, 512, 4096] {
        let b = allocate(&cfg, 128, align).expect("valid parameters must be served");
        deallocate(b, 128, align);
    }
}

#[test]
fn paired_cycles_do_not_fail() {
    let cfg = AllocConfig::new(String::from("."));
    for round in 0usize..200 {
        let size: usize = 1 + (round * 37) % 5000;
        let b = allocate(&cfg, size, 8).expect("allocation must succeed");
        deallocate(b, size, 8);
    }
}

#[test]
fn path_is_replaceable() {
    let mut cfg = AllocConfig::new(String::from("/tmp"));
    assert_eq!(with_path(&cfg), "/tmp");
    set_path(&mut cfg, String::from("/var/tmp"));
    assert_eq!(with_path(&cfg), "/var/tmp");
    let b = allocate(&cfg, 16, 16).expect("allocation after set_path");
    deallocate(b, 16, 16);
}

#[test]
fn rejects_oversized_length() {
    let cfg = AllocConfig::new(String::from("."));
    assert!(allocate(&cfg, usize::MAX, 8).is_none());
    assert!(!valid_params(usize::MAX, 8));
    assert!(valid_params(64, 8));
}

use pcap_slim::mmap_policy::resolve_use_mmap;

#[test]
fn dir_auto_mmap_worker_threshold() {
    assert!(resolve_use_mmap(true, 1, false, false));
    assert!(resolve_use_mmap(true, 2, false, false));
    assert!(!resolve_use_mmap(true, 4, false, false));
    assert!(resolve_use_mmap(true, 4, false, true));
    assert!(!resolve_use_mmap(true, 4, true, false));
}

#[test]
fn single_file_reads_unless_forced() {
    assert!(!resolve_use_mmap(false, 1, false, false));
    assert!(resolve_use_mmap(false, 1, false, true));
    assert!(!resolve_use_mmap(false, 1, true, true));
}

use proc_core::kernel::Kernel;
use proc_core::process::sys_mmap;
use proc_core::process::sys_munmap;

fn booted() -> Kernel {
    let mut k = Kernel::new();
    let root = k.create_root();
    assert_eq!(k.fetch_task(0), Some(root));
    k
}

fn areas(k: &Kernel) -> usize {
    k.tasks[0].memory_set.areas.len()
}

#[test]
fn mmap_misaligned_start_always_fails() {
    let mut k = booted();
    assert_eq!(sys_mmap(&mut k, 0x1001, 4096, 0b001), -1);
    assert_eq!(sys_mmap(&mut k, 0x1001, 0, 0b001), -1);
    assert_eq!(sys_mmap(&mut k, 4095, 1, 0b111), -1);
    assert_eq!(areas(&k), 0);
}

#[test]
fn mmap_rejects_bad_permission_words() {
    let mut k = booted();
    // no permission requested
    assert_eq!(sys_mmap(&mut k, 0x1000, 4096, 0), -1);
    // bits above the low three are set
    assert_eq!(sys_mmap(&mut k, 0x1000, 4096, 0b1000), -1);
    assert_eq!(sys_mmap(&mut k, 0x1000, 4096, 0x101), -1);
    assert_eq!(areas(&k), 0);
}

#[test]
fn mmap_zero_length_is_a_successful_no_op() {
    let mut k = booted();
    assert_eq!(sys_mmap(&mut k, 0x1000, 0, 0b011), 0);
    assert_eq!(areas(&k), 0);
    // unmapping the same empty range is a no-op success as well
    assert_eq!(sys_munmap(&mut k, 0x1000, 0), 0);
    assert_eq!(areas(&k), 0);
}

#[test]
fn mmap_then_munmap_is_a_round_trip() {
    let mut k = booted();
    assert_eq!(sys_mmap(&mut k, 0x10000, 8192, 0b011), 0);
    assert_eq!(areas(&k), 1);
    assert_eq!(k.tasks[0].memory_set.areas[0].start_vpn, 0x10);
    assert_eq!(k.tasks[0].memory_set.areas[0].end_vpn, 0x12);
    // read | write | user
    assert_eq!(k.tasks[0].memory_set.areas[0].perm, 0b1011);
    assert_eq!(sys_munmap(&mut k, 0x10000, 8192), 0);
    assert_eq!(areas(&k), 0);
}

#[test]
fn mmap_rounds_partial_pages_up() {
    let mut k = booted();
    assert_eq!(sys_mmap(&mut k, 0x10000, 4097, 0b001), 0);
    assert_eq!(k.tasks[0].memory_set.areas[0].start_vpn, 0x10);
    assert_eq!(k.tasks[0].memory_set.areas[0].end_vpn, 0x12);
    // the same byte range unmaps the same page range
    assert_eq!(sys_munmap(&mut k, 0x10000, 4097), 0);
    assert_eq!(areas(&k), 0);
}

#[test]
fn mmap_refuses_overlapping_regions() {
    let mut k = booted();
    assert_eq!(sys_mmap(&mut k, 0x10000, 8192, 0b001), 0);
    assert_eq!(sys_mmap(&mut k, 0x11000, 4096, 0b001), -1);
    assert_eq!(areas(&k), 1);
    // an adjacent region is fine
    assert_eq!(sys_mmap(&mut k, 0x12000, 4096, 0b001), 0);
    assert_eq!(areas(&k), 2);
}

#[test]
fn munmap_needs_an_exact_match() {
    let mut k = booted();
    assert_eq!(sys_munmap(&mut k, 0x999, 4096), -1);
    // nothing mapped there
    assert_eq!(sys_munmap(&mut k, 0x10000, 4096), -1);
    assert_eq!(sys_mmap(&mut k, 0x10000, 8192, 0b011), 0);
    // half of an area does not unmap
    assert_eq!(sys_munmap(&mut k, 0x10000, 4096), -1);
    assert_eq!(areas(&k), 1);
    assert_eq!(sys_munmap(&mut k, 0x10000, 8192), 0);
    assert_eq!(areas(&k), 0);
}

#[test]
fn mmap_range_overflow_fails() {
    let mut k = booted();
    assert_eq!(sys_mmap(&mut k, usize::MAX - 4095, usize::MAX, 0b001), -1);
    assert_eq!(areas(&k), 0);
}

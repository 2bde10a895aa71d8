use francium::mmu::{
    map_perms, phys_to_virt, EntryFlags, PagePermission, PageTable, PageTableEntry, PhysAddr,
    TableMemory, FLAGS_KNOWN, FLAG_AP_1, FLAG_AP_2, FLAG_XN, KERNEL_READ_EXECUTE, KERNEL_READ_ONLY,
    KERNEL_RWX, PERM_EXECUTE, PERM_KERNEL, PERM_WRITE, PHYSMAP_BASE, USER_READ_WRITE,
};

fn fresh() -> (PageTable, TableMemory) {
    (PageTable::new(), TableMemory::new(0x8000_0000, 64))
}

#[test]
fn is_aligned_checks_low_bits() {
    assert!(PhysAddr(0x4000_0000).is_aligned(0x20_0000));
    assert!(PhysAddr(0x1000).is_aligned(4096));
    assert!(!PhysAddr(0x1800).is_aligned(4096));
    assert!(!PhysAddr(0x30_0000).is_aligned(0x20_0000));
}

#[test]
fn phys_to_virt_adds_physmap_base() {
    assert_eq!(phys_to_virt(PhysAddr(0x1000)), PHYSMAP_BASE + 0x1000);
    assert_eq!(phys_to_virt(PhysAddr(0)), 0xffff_8000_0000_0000);
}

#[test]
fn map_perms_sets_restrictions() {
    assert_eq!(map_perms(PagePermission { bits: 0 }).bits, FLAG_AP_1 | FLAG_AP_2 | FLAG_XN);
    assert_eq!(map_perms(PagePermission { bits: 0 }).bits, 0x0040_0000_0000_00c0);
    assert_eq!(map_perms(PagePermission { bits: KERNEL_RWX }).bits, 0);
    assert_eq!(map_perms(PagePermission { bits: PERM_WRITE }).bits, FLAG_AP_1 | FLAG_XN);
    assert_eq!(map_perms(PagePermission { bits: PERM_KERNEL | PERM_EXECUTE }).bits, FLAG_AP_2);
}

#[test]
fn entry_flags_and_address() {
    let mut e = PageTableEntry::new();
    assert_eq!(e.entry, 0);
    e.set_flags(EntryFlags { bits: 3 });
    assert_eq!(e.entry, 3);
    e.set_addr(PhysAddr(0x1234_5000));
    assert_eq!(e.entry, 0x1234_5003);
    assert_eq!(e.addr(), PhysAddr(0x1234_5000));
    assert_eq!(e.flags().bits, 3);
    e.set_flags(EntryFlags { bits: 1 });
    assert_eq!(e.entry, 0x1234_5001);
    assert_eq!(EntryFlags::from_bits_truncate(u64::MAX).bits, FLAGS_KNOWN);
    let high = PageTableEntry { entry: 0xfff0_0000_0000_0fff };
    assert_eq!(high.addr(), PhysAddr(0));
    assert_eq!(high.flags().bits, 0x0060_0000_0000_04df);
}

#[test]
fn empty_table_translates_nothing() {
    let (root, mem) = fresh();
    assert_eq!(root.virt_to_phys(&mem, 0), None);
    assert_eq!(root.virt_to_phys(&mem, 0xffff_0000_0000_0000), None);
}

#[test]
fn map_4k_round_trip() {
    let (mut root, mut mem) = fresh();
    root.map_4k(&mut mem, PhysAddr(0x1234_5000), 0x40_0000_3000, PagePermission { bits: PERM_WRITE });
    assert_eq!(mem.available(), 61);
    assert_eq!(root.virt_to_phys(&mem, 0x40_0000_3000), Some(PhysAddr(0x1234_5000)));
    assert_eq!(root.virt_to_phys(&mem, 0x40_0000_3abc), Some(PhysAddr(0x1234_5abc)));
    for d in [0u64, 1, 0x7ff, 0xfff] {
        assert_eq!(root.virt_to_phys(&mem, 0x40_0000_3000 + d), Some(PhysAddr(0x1234_5000 + d)));
    }
    assert_eq!(root.virt_to_phys(&mem, 0x40_0000_4000), None);
    assert_eq!(root.virt_to_phys(&mem, 0x40_0000_2fff), None);
}

#[test]
fn map_4k_reuses_tables() {
    let (mut root, mut mem) = fresh();
    let perm = PagePermission { bits: KERNEL_RWX };
    root.map_4k(&mut mem, PhysAddr(0x10_0000), 0x1000, perm);
    root.map_4k(&mut mem, PhysAddr(0x20_0000), 0x2000, perm);
    root.map_2mb(&mut mem, PhysAddr(0x4000_0000), 0x40_0000, perm);
    assert_eq!(mem.available(), 61);
    assert_eq!(root.virt_to_phys(&mem, 0x40_0001), Some(PhysAddr(0x4000_0001)));
    assert_eq!(root.virt_to_phys(&mem, 0x1010), Some(PhysAddr(0x10_0010)));
    assert_eq!(root.virt_to_phys(&mem, 0x2010), Some(PhysAddr(0x20_0010)));
}

#[test]
fn scenario_bring_up_2mb() {
    let (mut root, mut mem) = fresh();
    root.map_2mb(
        &mut mem,
        PhysAddr(0x4000_0000),
        0xffff_0000_0000_0000,
        PagePermission { bits: KERNEL_RWX },
    );
    assert_eq!(root.virt_to_phys(&mem, 0xffff_0000_0000_0000), Some(PhysAddr(0x4000_0000)));
    assert_eq!(root.virt_to_phys(&mem, 0xffff_0000_001f_ffff), Some(PhysAddr(0x401f_ffff)));
    assert_eq!(root.virt_to_phys(&mem, 0xffff_0000_0020_0000), None);
    assert_eq!(mem.available(), 62);
}

#[test]
fn map_1gb_round_trip() {
    let (mut root, mut mem) = fresh();
    root.map_1gb(&mut mem, PhysAddr(0x8000_0000), 0x40_0000_0000, PagePermission { bits: 0 });
    assert_eq!(mem.available(), 63);
    assert_eq!(root.virt_to_phys(&mem, 0x40_0000_0000), Some(PhysAddr(0x8000_0000)));
    assert_eq!(root.virt_to_phys(&mem, 0x40_3fff_ffff), Some(PhysAddr(0xbfff_ffff)));
    assert_eq!(root.virt_to_phys(&mem, 0x40_4000_0000), None);
}

#[test]
fn page_inside_a_former_block() {
    let (mut root, mut mem) = fresh();
    let perm = PagePermission { bits: KERNEL_RWX };
    root.map_2mb(&mut mem, PhysAddr(0x4000_0000), 0x20_0000, perm);
    root.map_4k(&mut mem, PhysAddr(0x9000), 0x20_1000, perm);
    assert_eq!(root.virt_to_phys(&mem, 0x20_1008), Some(PhysAddr(0x9008)));
    // the rest of the former block is no longer mapped
    assert_eq!(root.virt_to_phys(&mem, 0x20_0000), None);
}

#[test]
fn user_process_shares_kernel_half() {
    let (mut kernel, mut mem) = fresh();
    let perm = PagePermission { bits: KERNEL_RWX };
    kernel.map_2mb(&mut mem, PhysAddr(0x4000_0000), 0xffff_ff00_0000_0000, perm);
    kernel.map_4k(&mut mem, PhysAddr(0x5000), 0x1000, perm);
    let user = kernel.user_process();
    assert_eq!(user.virt_to_phys(&mem, 0xffff_ff00_0000_1234), Some(PhysAddr(0x4000_1234)));
    assert_eq!(user.virt_to_phys(&mem, 0x1000), None);
    assert_eq!(kernel.virt_to_phys(&mem, 0x1000), Some(PhysAddr(0x5000)));
}

#[test]
fn tables_to_make_counts_missing_tables() {
    let (mut root, mut mem) = fresh();
    let perm = PagePermission { bits: KERNEL_RWX };
    assert_eq!(root.tables_to_make(&mem, 0x1000, 3), 3);
    assert_eq!(root.tables_to_make(&mem, 0x1000, 1), 1);
    root.map_4k(&mut mem, PhysAddr(0x10_0000), 0x1000, perm);
    assert_eq!(root.tables_to_make(&mem, 0x2000, 3), 0);
    assert_eq!(root.tables_to_make(&mem, 0x20_0000, 3), 1);
    assert_eq!(root.tables_to_make(&mem, 0x4000_0000, 3), 2);
    assert_eq!(root.tables_to_make(&mem, 0x80_0000_0000, 2), 2);
}

#[test]
fn mapping_with_existing_tables_needs_no_free_frame() {
    let mut root = PageTable::new();
    let mut mem = TableMemory::new(0x8000_0000, 3);
    let perm = PagePermission { bits: KERNEL_RWX };
    root.map_4k(&mut mem, PhysAddr(0x10_0000), 0x1000, perm);
    assert_eq!(mem.available(), 0);
    assert_eq!(root.tables_to_make(&mem, 0x5000, 3), 0);
    root.map_4k(&mut mem, PhysAddr(0x20_0000), 0x5000, perm);
    assert_eq!(root.virt_to_phys(&mem, 0x5004), Some(PhysAddr(0x20_0004)));
    assert_eq!(root.virt_to_phys(&mem, 0x1004), Some(PhysAddr(0x10_0004)));
}

#[test]
fn table_words_show_fresh_tables() {
    let (mut root, mut mem) = fresh();
    root.map_4k(&mut mem, PhysAddr(0x7000), 0x3000, PagePermission { bits: KERNEL_RWX });
    assert_eq!(mem.frame_count(), 3);
    assert_eq!(root.entry_word(0), 0x8000_0003);
    assert_eq!(root.entry_word(1), 0);
    assert_eq!(mem.table_word(0, 0), 0x8000_1003);
    assert_eq!(mem.table_word(1, 0), 0x8000_2003);
    assert_eq!(mem.table_word(2, 3), 0x7403);
    assert_eq!(mem.table_word(2, 4), 0);
    assert_eq!(mem.frame_address(2), PhysAddr(0x8000_2000));
}

#[test]
fn named_permissions_map_to_their_flags() {
    assert_eq!(KERNEL_RWX, PERM_KERNEL | PERM_WRITE | PERM_EXECUTE);
    assert_eq!(map_perms(PagePermission { bits: KERNEL_READ_EXECUTE }).bits, FLAG_AP_2);
    assert_eq!(map_perms(PagePermission { bits: KERNEL_READ_ONLY }).bits, FLAG_AP_2 | FLAG_XN);
    assert_eq!(map_perms(PagePermission { bits: USER_READ_WRITE }).bits, FLAG_AP_1 | FLAG_XN);
    assert_eq!(map_perms(PagePermission { bits: KERNEL_RWX }).bits, 0);
}

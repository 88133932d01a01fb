use kernel_core::config::PAGE_SIZE;
use kernel_core::page_table::{
    translated_byte_buffer, PTEFlags, PageTable, PageTableEntry, PhysMemory, PhysSlice, PTE_R,
    PTE_U, PTE_V, PTE_W, PTE_X,
};

fn rw() -> PTEFlags {
    PTEFlags::from_bits(PTE_R | PTE_W)
}

#[test]
fn map_then_translate_read_write_page() {
    let mut mem = PhysMemory::new(16);
    let mut pt = PageTable::new(&mut mem);
    pt.map(&mut mem, 0, 0x10, rw());
    let pte = pt.translate(&mem, 0).unwrap();
    assert_eq!(pte.ppn(), 0x10);
    assert!(pte.is_valid());
    assert!(pte.readable());
    assert!(pte.writable());
    assert!(!pte.executable());
}

#[test]
fn map_then_translate_returns_given_ppn_and_flags() {
    let mut mem = PhysMemory::new(64);
    let mut pt = PageTable::new(&mut mem);
    let cases: [(u64, u64, u8); 4] = [
        (0x7ff_ffff, 0xfff_ffff_ffff, PTE_X | PTE_U),
        (0x123_4567, 0x42, PTE_R),
        (0x200, 0x1, 0),
        (0x1ff, 0xabc_def0, PTE_R | PTE_W | PTE_X),
    ];
    for (vpn, ppn, bits) in cases {
        pt.map(&mut mem, vpn, ppn, PTEFlags::from_bits(bits));
    }
    for (vpn, ppn, bits) in cases {
        let pte = pt.translate(&mem, vpn).unwrap();
        assert_eq!(pte.ppn(), ppn);
        assert_eq!(pte.flags().bits, bits | PTE_V);
    }
}

#[test]
fn translate_unmapped_is_none() {
    let mut mem = PhysMemory::new(16);
    let mut pt = PageTable::new(&mut mem);
    assert!(pt.translate(&mem, 5).is_none());
    pt.map(&mut mem, 4, 0x20, rw());
    // same leaf table, other slot: the walk reaches an empty leaf entry
    assert!(pt.translate(&mem, 5).is_none());
    assert!(pt.translate(&mem, 4).is_some());
}

#[test]
fn unmap_removes_only_that_page() {
    let mut mem = PhysMemory::new(16);
    let mut pt = PageTable::new(&mut mem);
    pt.map(&mut mem, 7, 0x30, rw());
    pt.map(&mut mem, 8, 0x31, rw());
    pt.unmap(&mut mem, 7);
    assert!(pt.translate(&mem, 7).is_none());
    assert_eq!(pt.translate(&mem, 8).unwrap().ppn(), 0x31);
    pt.map(&mut mem, 7, 0x32, rw());
    assert_eq!(pt.translate(&mem, 7).unwrap().ppn(), 0x32);
}

#[test]
fn map_allocates_missing_tables_only() {
    let mut mem = PhysMemory::new(16);
    let mut pt = PageTable::new(&mut mem);
    assert_eq!(mem.used_frames(), 1);
    pt.map(&mut mem, 0, 1, rw());
    assert_eq!(mem.used_frames(), 3);
    pt.map(&mut mem, 1, 2, rw());
    assert_eq!(mem.used_frames(), 3);
    pt.map(&mut mem, 0x200, 3, rw());
    assert_eq!(mem.used_frames(), 4);
    pt.map(&mut mem, 0x4_0000, 4, rw());
    assert_eq!(mem.used_frames(), 6);
    assert_eq!(mem.free_frames(), 10);
}

#[test]
fn token_names_the_root_frame() {
    let mut mem = PhysMemory::new(16);
    let _first = PageTable::new(&mut mem);
    let mut pt = PageTable::new(&mut mem);
    let token = pt.token();
    assert_eq!(token, (8u64 << 60) | 1);
    pt.map(&mut mem, 3, 0x99, rw());
    let view = PageTable::from_token(token);
    assert_eq!(view.translate(&mem, 3).unwrap().ppn(), 0x99);
}

#[test]
fn entry_encoding() {
    let e = PageTableEntry::new(0x10, PTEFlags::from_bits(PTE_V | PTE_R));
    assert_eq!(e.bits, (0x10 << 10) | 3);
    assert_eq!(e.ppn(), 0x10);
    assert!(e.is_valid() && e.readable() && !e.writable() && !e.executable());
    let z = PageTableEntry::empty();
    assert!(!z.is_valid());
    assert_eq!(z.ppn(), 0);
}

#[test]
fn flags_union_and_contains() {
    let a = PTEFlags::from_bits(PTE_R);
    let b = PTEFlags::from_bits(PTE_W);
    let c = a.union(b);
    assert_eq!(c.bits, PTE_R | PTE_W);
    assert!(c.contains(a));
    assert!(!a.contains(c));
    assert!(c.contains(PTEFlags::empty()));
}

fn space_with_pages(pages: &[(u64, u64)]) -> (PhysMemory, u64) {
    let mut mem = PhysMemory::new(32);
    let mut pt = PageTable::new(&mut mem);
    for (vpn, ppn) in pages {
        pt.map(&mut mem, *vpn, *ppn, rw());
    }
    let token = pt.token();
    (mem, token)
}

#[test]
fn byte_range_across_two_boundaries() {
    let (mem, token) = space_with_pages(&[(1, 0x51), (2, 0x52), (3, 0x53)]);
    let slices = translated_byte_buffer(&mem, token, PAGE_SIZE + 100, 2 * PAGE_SIZE);
    assert_eq!(
        slices,
        vec![
            PhysSlice { ppn: 0x51, start: 100, end: 4096 },
            PhysSlice { ppn: 0x52, start: 0, end: 4096 },
            PhysSlice { ppn: 0x53, start: 0, end: 100 },
        ]
    );
    let total: u64 = slices.iter().map(|s| s.end - s.start).sum();
    assert_eq!(total, 2 * PAGE_SIZE);
}

#[test]
fn byte_range_inside_one_page() {
    let (mem, token) = space_with_pages(&[(5, 0x77)]);
    let slices = translated_byte_buffer(&mem, token, 5 * PAGE_SIZE + 8, 16);
    assert_eq!(slices, vec![PhysSlice { ppn: 0x77, start: 8, end: 24 }]);
}

#[test]
fn byte_range_ending_on_page_boundary() {
    let (mem, token) = space_with_pages(&[(5, 0x77), (6, 0x78)]);
    let slices = translated_byte_buffer(&mem, token, 5 * PAGE_SIZE, 2 * PAGE_SIZE);
    assert_eq!(
        slices,
        vec![
            PhysSlice { ppn: 0x77, start: 0, end: 4096 },
            PhysSlice { ppn: 0x78, start: 0, end: 4096 },
        ]
    );
}

#[test]
fn byte_range_empty() {
    let (mem, token) = space_with_pages(&[]);
    assert!(translated_byte_buffer(&mem, token, 123, 0).is_empty());
}

#[test]
fn filled_tables_are_valid_only_and_leaf_untouched() {
    let mut mem = PhysMemory::new(16);
    let mut pt = PageTable::new(&mut mem);
    // vpn with indexes (1, 2, 3)
    let vpn = (1u64 << 18) | (2 << 9) | 3;
    pt.map(&mut mem, vpn, 0x44, rw());
    let root_entry = mem.read(0, 1);
    assert_eq!(root_entry.bits, (1u64 << 10) | PTE_V as u64);
    let mid_entry = mem.read(1, 2);
    assert_eq!(mid_entry.bits, (2u64 << 10) | PTE_V as u64);
    let leaf = mem.read(2, 3);
    assert_eq!(leaf.bits, (0x44u64 << 10) | (PTE_V | PTE_R | PTE_W) as u64);
    // every other slot of the three tables is still empty
    for p in 0..3u64 {
        for k in 0..512u64 {
            if (p, k) != (0, 1) && (p, k) != (1, 2) && (p, k) != (2, 3) {
                assert_eq!(mem.read(p, k).bits, 0);
            }
        }
    }
    // an existing path is reused unchanged
    pt.map(&mut mem, vpn + 1, 0x45, rw());
    assert_eq!(mem.read(0, 1).bits, root_entry.bits);
    assert_eq!(mem.read(1, 2).bits, mid_entry.bits);
    assert_eq!(mem.used_frames(), 3);
}

#[test]
fn unmap_clears_leaf_and_keeps_tables() {
    let mut mem = PhysMemory::new(16);
    let mut pt = PageTable::new(&mut mem);
    pt.map(&mut mem, 9, 0x60, rw());
    let frames = mem.used_frames();
    pt.unmap(&mut mem, 9);
    assert_eq!(mem.read(2, 9).bits, 0);
    assert!(mem.read(0, 0).is_valid());
    assert!(mem.read(1, 0).is_valid());
    pt.map(&mut mem, 9, 0x61, rw());
    assert_eq!(mem.used_frames(), frames);
    assert_eq!(pt.translate(&mem, 9).unwrap().ppn(), 0x61);
}

#[test]
fn other_table_in_same_memory_is_unaffected() {
    let mut mem = PhysMemory::new(32);
    let mut user = PageTable::new(&mut mem);
    let mut kernel = PageTable::new(&mut mem);
    user.map(&mut mem, 3, 0x90, rw());
    let user_token = user.token();
    kernel.map(&mut mem, 3, 0x91, rw());
    kernel.map(&mut mem, 0x40_0000, 0x92, rw());
    kernel.unmap(&mut mem, 3);
    assert_eq!(user.translate(&mem, 3).unwrap().ppn(), 0x90);
    let slices = translated_byte_buffer(&mem, user_token, 3 * PAGE_SIZE + 1, 10);
    assert_eq!(slices, vec![PhysSlice { ppn: 0x90, start: 1, end: 11 }]);
}

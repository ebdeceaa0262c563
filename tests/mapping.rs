use guhkernel::kalloc::{kinit, KernelMemory};
use guhkernel::layout::{KERNEL_START, PHYS_STOP, PLIC, UART_LOC0, VIRTIO0};
use guhkernel::memory::PhysMemory;
use guhkernel::vm::{kvm_make, MapFault, PageTable, PageTableEntry, VirtualAddr, FLAG_EXEC, FLAG_READ, FLAG_VALID, FLAG_WRITE};

const BASE: u64 = 0x8000_0000;

fn setup(pages: usize) -> (PhysMemory, KernelMemory) {
    let mut mem = PhysMemory::new(BASE, pages);
    let k = kinit(&mut mem, BASE, BASE + 4096 * pages as u64);
    (mem, k)
}

/// Page and flags that `va` resolves to, walking without allocation.
fn resolve(t: &mut PageTable, mem: &mut PhysMemory, k: &mut KernelMemory, va: u64) -> Option<(u64, u64)> {
    let slot = t.walk(mem, k, VirtualAddr(va), false)?;
    let e = PageTableEntry(mem.read_word(slot));
    if e.is_valid() {
        Some((e.extract_physical_page_number(), e.extract_flags()))
    } else {
        None
    }
}

#[test]
fn new_table_is_empty() {
    let (mut mem, mut k) = setup(4);
    let t = PageTable::new(&mut k, &mut mem).unwrap();
    for i in 0..512 {
        assert!(t.lookup(&mem, i).is_none());
    }
    assert_eq!(t.get_ref(3), t.addr + 24);
}

#[test]
fn set_then_lookup() {
    let (mut mem, mut k) = setup(4);
    let t = PageTable::new(&mut k, &mut mem).unwrap();
    let e = PageTableEntry::new(0x1234_5000, FLAG_VALID | FLAG_READ);
    t.set(&mut mem, 7, e);
    assert_eq!(t.lookup(&mem, 7).unwrap().0, e.0);
    assert!(t.lookup(&mem, 6).is_none());
}

#[test]
fn map_then_walk_resolves_each_page() {
    let (mut mem, mut k) = setup(16);
    let mut t = PageTable::new(&mut k, &mut mem).unwrap();
    let v = 0x4000_0000u64 - 2 * 4096;
    let p = 0x9000_0000u64;
    assert_eq!(t.map_pages(&mut mem, &mut k, v, 5 * 4096, p, FLAG_READ | FLAG_WRITE), Ok(()));
    for j in 0..5u64 {
        assert_eq!(
            resolve(&mut t, &mut mem, &mut k, v + j * 4096 + 0x10),
            Some((p + j * 4096, FLAG_READ | FLAG_WRITE | FLAG_VALID))
        );
    }
    assert_eq!(resolve(&mut t, &mut mem, &mut k, v - 4096), None);
    assert_eq!(resolve(&mut t, &mut mem, &mut k, v + 5 * 4096), None);
}

#[test]
fn walk_without_allocation_changes_nothing() {
    let (mut mem, mut k) = setup(8);
    let mut t = PageTable::new(&mut k, &mut mem).unwrap();
    let before = k.free_count();
    assert_eq!(t.walk(&mut mem, &mut k, VirtualAddr(0x1234_5000), false), None);
    assert_eq!(k.free_count(), before);
    assert!(t.walk(&mut mem, &mut k, VirtualAddr(0x1234_5000), true).is_some());
    assert_eq!(k.free_count(), before - 2);
    let root_entry = t.lookup(&mem, 0).expect("root link");
    assert_eq!(root_entry.extract_flags(), FLAG_VALID);
    let again = k.free_count();
    assert!(t.walk(&mut mem, &mut k, VirtualAddr(0x1234_6000), false).is_some());
    assert_eq!(k.free_count(), again);
}

#[test]
fn walk_slot_is_level0_entry() {
    let (mut mem, mut k) = setup(8);
    let mut t = PageTable::new(&mut k, &mut mem).unwrap();
    let s1 = t.walk(&mut mem, &mut k, VirtualAddr(0x20_0000), true).unwrap();
    let s2 = t.walk(&mut mem, &mut k, VirtualAddr(0x20_3000), true).unwrap();
    assert_eq!(s2, s1 + 3 * 8);
}

#[test]
fn remap_is_refused_and_changes_nothing() {
    let (mut mem, mut k) = setup(16);
    let mut t = PageTable::new(&mut k, &mut mem).unwrap();
    assert_eq!(t.map_pages(&mut mem, &mut k, 0x10_0000, 4096, 0x5000_0000, FLAG_READ), Ok(()));
    let free = k.free_count();
    assert_eq!(
        t.map_pages(&mut mem, &mut k, 0x10_0000 - 2 * 4096, 3 * 4096, 0x6000_0000, FLAG_WRITE),
        Err(MapFault::Remap)
    );
    assert_eq!(k.free_count(), free);
    assert_eq!(resolve(&mut t, &mut mem, &mut k, 0x10_0000), Some((0x5000_0000, FLAG_READ | FLAG_VALID)));
    assert_eq!(resolve(&mut t, &mut mem, &mut k, 0x10_0000 - 4096), None);
}

#[test]
fn misaligned_or_empty_range_is_refused() {
    let (mut mem, mut k) = setup(8);
    let mut t = PageTable::new(&mut k, &mut mem).unwrap();
    assert_eq!(t.map_pages(&mut mem, &mut k, 0x1001, 4096, 0, FLAG_READ), Err(MapFault::Misaligned));
    assert_eq!(t.map_pages(&mut mem, &mut k, 0x1000, 100, 0, FLAG_READ), Err(MapFault::Misaligned));
    assert_eq!(t.map_pages(&mut mem, &mut k, 0x1000, 0, 0, FLAG_READ), Err(MapFault::Misaligned));
}

#[test]
fn exhaustion_is_reported() {
    let (mut mem, mut k) = setup(2);
    let mut t = PageTable::new(&mut k, &mut mem).unwrap();
    assert_eq!(t.map_pages(&mut mem, &mut k, 0x1000, 4096, 0, FLAG_READ), Err(MapFault::OutOfMemory));
    assert_eq!(k.free_count(), 0);
}

#[test]
fn new_table_fails_without_pages() {
    let (mut mem, mut k) = setup(1);
    let _ = k.allocate_page(&mut mem).unwrap();
    assert!(PageTable::new(&mut k, &mut mem).is_none());
    assert!(PageTableEntry::allocate_as_new_table(&mut k, &mut mem, FLAG_VALID).is_none());
}

#[test]
fn allocate_as_new_table_links_fresh_page() {
    let (mut mem, mut k) = setup(2);
    let (e, t) = PageTableEntry::allocate_as_new_table(&mut k, &mut mem, FLAG_VALID).unwrap();
    assert_eq!(e.extract_physical_page_number(), t.addr);
    assert_eq!(e.extract_flags(), FLAG_VALID);
}

#[test]
fn kernel_address_space_is_identity_mapped() {
    let base = PHYS_STOP - 256 * 4096;
    let mut mem = PhysMemory::new(base, 256);
    let mut k = kinit(&mut mem, base, PHYS_STOP);
    let etext = KERNEL_START + 0x20_0000;
    let mut t = kvm_make(&mut k, &mut mem, etext).expect("kernel table");
    let rw = FLAG_READ | FLAG_WRITE | FLAG_VALID;
    let rx = FLAG_READ | FLAG_EXEC | FLAG_VALID;
    assert_eq!(resolve(&mut t, &mut mem, &mut k, UART_LOC0), Some((UART_LOC0, rw)));
    assert_eq!(resolve(&mut t, &mut mem, &mut k, VIRTIO0), Some((VIRTIO0, rw)));
    assert_eq!(resolve(&mut t, &mut mem, &mut k, PLIC + 0x20_0000), Some((PLIC + 0x20_0000, rw)));
    assert_eq!(resolve(&mut t, &mut mem, &mut k, KERNEL_START), Some((KERNEL_START, rx)));
    assert_eq!(resolve(&mut t, &mut mem, &mut k, etext - 4096), Some((etext - 4096, rx)));
    assert_eq!(resolve(&mut t, &mut mem, &mut k, etext), Some((etext, rw)));
    assert_eq!(resolve(&mut t, &mut mem, &mut k, PHYS_STOP - 4096), Some((PHYS_STOP - 4096, rw)));
    assert_eq!(resolve(&mut t, &mut mem, &mut k, PHYS_STOP), None);
    assert_eq!(resolve(&mut t, &mut mem, &mut k, VIRTIO0 + 4096), None);
}

#[test]
fn kernel_address_space_needs_aligned_text_end() {
    let base = PHYS_STOP - 16 * 4096;
    let mut mem = PhysMemory::new(base, 16);
    let mut k = kinit(&mut mem, base, PHYS_STOP);
    assert_eq!(kvm_make(&mut k, &mut mem, KERNEL_START + 100).err(), Some(MapFault::Misaligned));
    assert_eq!(kvm_make(&mut k, &mut mem, KERNEL_START).err(), Some(MapFault::Misaligned));
}

#[test]
fn walk_takes_only_missing_tables() {
    let (mut mem, mut k) = setup(8);
    let mut t = PageTable::new(&mut k, &mut mem).unwrap();
    assert!(t.walk(&mut mem, &mut k, VirtualAddr(0x4000_0000), true).is_some());
    let before = k.free_count();
    // Same root entry, new level-1 entry: one table.
    assert!(t.walk(&mut mem, &mut k, VirtualAddr(0x4020_0000), true).is_some());
    assert_eq!(k.free_count(), before - 1);
}

#[test]
fn walk_fails_only_when_pages_run_short() {
    let (mut mem, mut k) = setup(2);
    let mut t = PageTable::new(&mut k, &mut mem).unwrap();
    assert_eq!(k.free_count(), 1);
    assert_eq!(t.walk(&mut mem, &mut k, VirtualAddr(0x1000), true), None);
    assert_eq!(k.free_count(), 0);
}

#[test]
fn mapped_leaf_is_exact_entry() {
    let (mut mem, mut k) = setup(8);
    let mut t = PageTable::new(&mut k, &mut mem).unwrap();
    assert_eq!(t.map_pages(&mut mem, &mut k, 0x8000_0000, 0x2000, 0x8000_0000, FLAG_READ | FLAG_WRITE), Ok(()));
    assert_eq!(t.map_pages(&mut mem, &mut k, 0x8000_1000, 0x2000, 0x9000_0000, FLAG_READ), Err(MapFault::Remap));
    let slot = t.walk(&mut mem, &mut k, VirtualAddr(0x8000_1000), false).unwrap();
    assert_eq!(mem.read_word(slot), PageTableEntry::new(0x8000_1000, 7).0);
}

#[test]
fn misaligned_map_changes_nothing() {
    let (mut mem, mut k) = setup(8);
    let mut t = PageTable::new(&mut k, &mut mem).unwrap();
    let before = k.free_count();
    assert_eq!(t.map_pages(&mut mem, &mut k, 0x1000, 0x1001, 0, FLAG_READ), Err(MapFault::Misaligned));
    assert_eq!(k.free_count(), before);
    assert!(t.lookup(&mem, 0).is_none());
}

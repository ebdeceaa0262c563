use guhkernel::kalloc::{kinit, set_memory, KallocFault, POISON};
use guhkernel::memory::PhysMemory;

const BASE: u64 = 0x8000_0000;

fn window(pages: usize) -> PhysMemory {
    PhysMemory::new(BASE, pages)
}

#[test]
fn exactly_n_pages_then_none() {
    let mut mem = window(8);
    let mut k = kinit(&mut mem, BASE, BASE + 5 * 4096);
    assert_eq!(k.free_count(), 5);
    let mut got: Vec<u64> = Vec::new();
    for _ in 0..5 {
        let p = k.allocate_page(&mut mem).expect("a page is left");
        assert_eq!(p % 4096, 0);
        assert!(p >= BASE && p + 4096 <= BASE + 5 * 4096);
        assert!(!got.contains(&p));
        got.push(p);
    }
    assert_eq!(k.allocate_page(&mut mem), None);
    assert_eq!(k.free_count(), 0);
}

#[test]
fn highest_page_comes_out_first() {
    let mut mem = window(4);
    let mut k = kinit(&mut mem, BASE, BASE + 3 * 4096);
    assert_eq!(k.allocate_page(&mut mem), Some(BASE + 2 * 4096));
    assert_eq!(k.allocate_page(&mut mem), Some(BASE + 4096));
    assert_eq!(k.allocate_page(&mut mem), Some(BASE));
}

#[test]
fn start_is_rounded_up() {
    let mut mem = window(4);
    let mut k = kinit(&mut mem, BASE + 10, BASE + 3 * 4096 + 100);
    assert_eq!(k.free_count(), 2);
    assert_eq!(k.allocate_page(&mut mem), Some(BASE + 2 * 4096));
    assert_eq!(k.allocate_page(&mut mem), Some(BASE + 4096));
    assert_eq!(k.allocate_page(&mut mem), None);
}

#[test]
fn empty_region_has_no_page() {
    let mut mem = window(2);
    let mut k = kinit(&mut mem, BASE + 100, BASE + 4000);
    assert_eq!(k.free_count(), 0);
    assert_eq!(k.allocate_page(&mut mem), None);
}

#[test]
fn free_then_allocate_returns_same_page() {
    let mut mem = window(4);
    let mut k = kinit(&mut mem, BASE, BASE + 4 * 4096);
    let a = k.allocate_page(&mut mem).unwrap();
    let b = k.allocate_page(&mut mem).unwrap();
    assert_eq!(k.free_page(&mut mem, a), Ok(()));
    assert_eq!(k.allocate_page(&mut mem), Some(a));
    assert_ne!(a, b);
}

#[test]
fn allocated_page_is_zeroed_and_freed_page_poisoned() {
    let mut mem = window(2);
    let mut k = kinit(&mut mem, BASE, BASE + 2 * 4096);
    let p = k.allocate_page(&mut mem).unwrap();
    for i in 0..512u64 {
        assert_eq!(mem.read_word(p + 8 * i), 0);
    }
    mem.write_word(p + 8, 42);
    assert_eq!(k.free_page(&mut mem, p), Ok(()));
    let poison = (POISON as u64) * 0x0101_0101_0101_0101;
    for i in 0..512u64 {
        assert_eq!(mem.read_word(p + 8 * i), poison);
    }
    let q = k.allocate_page(&mut mem).unwrap();
    assert_eq!(q, p);
    assert_eq!(mem.read_word(p + 8), 0);
}

#[test]
fn kinit_poisons_free_pages() {
    let mut mem = window(2);
    let _k = kinit(&mut mem, BASE, BASE + 2 * 4096);
    assert_eq!(mem.read_word(BASE + 4096 + 16), 0x5555_5555_5555_5555);
}

#[test]
fn free_refuses_misaligned_page() {
    let mut mem = window(4);
    let mut k = kinit(&mut mem, BASE + 4096, BASE + 3 * 4096);
    let _ = k.allocate_page(&mut mem).unwrap();
    assert_eq!(k.free_page(&mut mem, BASE + 4096 + 8), Err(KallocFault::InvalidPage));
}

#[test]
fn free_refuses_page_outside_range() {
    let mut mem = window(4);
    let mut k = kinit(&mut mem, BASE + 4096, BASE + 3 * 4096);
    let _ = k.allocate_page(&mut mem).unwrap();
    let _ = k.allocate_page(&mut mem).unwrap();
    assert_eq!(k.free_page(&mut mem, BASE), Err(KallocFault::InvalidPage));
    assert_eq!(k.free_page(&mut mem, BASE + 3 * 4096), Err(KallocFault::InvalidPage));
    assert_eq!(k.free_count(), 0);
}

#[test]
fn set_memory_fills_words() {
    let mut mem = window(2);
    let k = kinit(&mut mem, BASE, BASE + 2 * 4096);
    let r = set_memory(&k, &mut mem, BASE + 16, 24, 0xAB);
    assert_eq!(r, BASE + 16);
    assert_eq!(mem.read_word(BASE + 8), 0x5555_5555_5555_5555);
    assert_eq!(mem.read_word(BASE + 16), 0xABAB_ABAB_ABAB_ABAB);
    assert_eq!(mem.read_word(BASE + 32), 0xABAB_ABAB_ABAB_ABAB);
    assert_eq!(mem.read_word(BASE + 40), 0x5555_5555_5555_5555);
}

#[test]
fn allocator_lock_is_initialized() {
    let mut mem = window(1);
    let k = kinit(&mut mem, BASE, BASE + 4096);
    assert!(k.lock.is_some());
    assert_eq!(k.lock.as_ref().unwrap().cpu, None);
}

#[test]
fn set_memory_fills_any_byte_range() {
    let mut mem = window(2);
    let k = kinit(&mut mem, BASE, BASE + 2 * 4096);
    assert_eq!(set_memory(&k, &mut mem, BASE + 3, 2, 0x11), BASE + 3);
    assert_eq!(mem.read_word(BASE), 0x5555_5511_1155_5555);
    assert_eq!(mem.read_word(BASE + 8), 0x5555_5555_5555_5555);
    set_memory(&k, &mut mem, BASE + 7, 3, 0x00);
    assert_eq!(mem.read_word(BASE), 0x0055_5511_1155_5555);
    assert_eq!(mem.read_word(BASE + 8), 0x5555_5555_5555_0000);
}

#[test]
fn is_free_reports_membership() {
    let mut mem = window(2);
    let mut k = kinit(&mut mem, BASE, BASE + 2 * 4096);
    assert!(k.is_free(BASE));
    let p = k.allocate_page(&mut mem).unwrap();
    assert!(!k.is_free(p));
    assert!(!k.is_free(BASE + 8));
}

#[test]
fn allocation_keeps_the_lock() {
    let mut mem = window(2);
    let mut k = kinit(&mut mem, BASE, BASE + 2 * 4096);
    let mut cpu = guhkernel::cpu::Cpu::new();
    let g = guhkernel::spinlock::Spinlock::acquire(&mut k.lock, &mut cpu, 1, true).unwrap().unwrap();
    let p = k.allocate_page(&mut mem).unwrap();
    assert_eq!(k.lock.as_ref().unwrap().cpu, Some(1));
    assert_eq!(k.free_page(&mut mem, p), Ok(()));
    assert_eq!(g.release(&mut k.lock, &mut cpu, 1, false), Ok(true));
}

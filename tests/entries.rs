use guhkernel::layout::{get_page_round_down, get_page_round_up};
use guhkernel::vm::{make_satp, PageTableEntry, VirtualAddr, FLAG_EXEC, FLAG_READ, FLAG_USER, FLAG_VALID, FLAG_WRITE};

#[test]
fn round_up_examples() {
    assert_eq!(get_page_round_up(4097), 8192);
    assert_eq!(get_page_round_up(4096), 4096);
    assert_eq!(get_page_round_up(4), 4096);
    assert_eq!(get_page_round_up(0), 0);
}

#[test]
fn round_down_examples() {
    assert_eq!(get_page_round_down(4097), 4096);
    assert_eq!(get_page_round_down(4096), 4096);
    assert_eq!(get_page_round_down(4), 0);
}

#[test]
fn entry_round_trip_all_flag_sets() {
    let addrs: [u64; 4] = [0, 0x8000_0000, 0x8765_4000, 0x00ff_ffff_ffff_f000];
    for &a in addrs.iter() {
        for flags in 0u64..32 {
            let e = PageTableEntry::new(a, flags);
            assert_eq!(e.extract_physical_page_number(), a);
            assert_eq!(e.extract_flags(), flags);
            assert_eq!(e.is_valid(), flags & FLAG_VALID != 0);
        }
    }
}

#[test]
fn entry_layout_exact() {
    let e = PageTableEntry::new(0x8000_1000, FLAG_VALID | FLAG_READ | FLAG_WRITE);
    assert_eq!(e.0, (0x80001 << 10) | 7);
    let e = PageTableEntry::new(0x8000_1abc, FLAG_EXEC);
    assert_eq!(e.extract_physical_page_number(), 0x8000_1000);
    assert_eq!(e.extract_flags(), 8);
    assert!(!e.is_valid());
}

#[test]
fn entry_as_table_names_page() {
    let e = PageTableEntry::new(0x8020_3000, FLAG_VALID);
    assert_eq!(e.as_table().addr, 0x8020_3000);
    assert_eq!(FLAG_USER, 16);
}

#[test]
fn virtual_address_indices() {
    let va = VirtualAddr((5u64 << 30) | (17u64 << 21) | (300u64 << 12) | 0x123);
    assert_eq!(va.extract_index_at_level(2), 5);
    assert_eq!(va.extract_index_at_level(1), 17);
    assert_eq!(va.extract_index_at_level(0), 300);
    let top = VirtualAddr((1u64 << 39) - 1);
    assert_eq!(top.extract_index_at_level(2), 511);
    assert_eq!(top.extract_index_at_level(0), 511);
}

#[test]
fn satp_value_selects_sv39() {
    let r = make_satp(0x8020_5000);
    assert_eq!(r, (8u64 << 60) | 0x80205);
}

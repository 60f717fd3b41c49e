use freerustos::heap::heap_1::{Allocator, GlobalHeap1, Heap1};
use freerustos::port::cortex_m3;
use freerustos::port::cortex_m7::{self, CriticalNesting, STACK_FILL_BYTE};

#[test]
fn heap_bumps_aligned_blocks() {
    let mut h: Heap1<32> = Heap1::new();
    assert_eq!(h.alloc_bytes(3), Some(0));
    assert_eq!(h.used(), 4);
    assert_eq!(h.alloc_bytes(5), Some(4));
    assert_eq!(h.used(), 12);
    assert_eq!(h.free_space(), 20);
    assert_eq!(h.alloc_bytes(20), Some(12));
    assert_eq!(h.free_space(), 0);
    assert_eq!(h.alloc_bytes(1), None);
    assert_eq!(h.used(), 32);
}

#[test]
fn heap_refuses_zero_and_oversized() {
    let mut h: Heap1<16> = Heap1::new();
    assert_eq!(h.alloc_bytes(0), None);
    assert_eq!(h.alloc_bytes(17), None);
    assert_eq!(h.used(), 0);
    h.free(0);
    assert_eq!(h.used(), 0);
}

#[test]
fn heap_refuses_the_largest_size() {
    let mut h: Heap1<16> = Heap1::new();
    assert_eq!(h.alloc_bytes(usize::MAX), None);
    assert_eq!(h.alloc_bytes(usize::MAX - 2), None);
    assert_eq!(h.used(), 0);
    assert_eq!(h.alloc_bytes(16), Some(0));
}

#[test]
fn heap_alloc_val_writes_the_bytes() {
    let mut h: Heap1<16> = Heap1::new();
    assert_eq!(h.alloc_val(&[1, 2, 3]), Some(0));
    assert_eq!(h.alloc_val(&[7, 8]), Some(4));
    assert_eq!(&h.memory[..8], &[1, 2, 3, 0, 7, 8, 0, 0]);
    assert_eq!(h.used(), 8);
    assert_eq!(h.alloc_val(&[]), None);
    assert_eq!(h.alloc_val(&[9; 9]), None);
    assert_eq!(h.used(), 8);
    let mut g: GlobalHeap1<8> = GlobalHeap1::new();
    assert_eq!(g.alloc_val(&[5, 6, 7, 8, 9]), Some(0));
    assert_eq!(&g.inner.memory[..], &[5, 6, 7, 8, 9, 0, 0, 0]);
}

#[test]
fn global_heap_wraps_heap() {
    let mut g: GlobalHeap1<8> = GlobalHeap1::new();
    assert_eq!(g.alloc_bytes(1), Some(0));
    assert_eq!(g.alloc_bytes(1), Some(4));
    assert_eq!(g.alloc_bytes(1), None);
    assert_eq!(g.used(), 8);
    assert_eq!(g.free_space(), 0);
}

#[test]
fn cortex_m3_initial_frame() {
    let mut s = vec![STACK_FILL_BYTE; 32];
    let top = cortex_m3::initialise_stack(&mut s, 31, 0x0800_0101, 0x0800_0301, 0x2000_0000);
    assert_eq!(top, 15);
    assert_eq!(s[30], 0x0100_0000);
    assert_eq!(s[29], 0x0800_0100);
    assert_eq!(s[28], 0x0800_0301);
    assert_eq!(s[23], 0x2000_0000);
    // r12, r3, r2, r1 and r4-r11 are cleared
    for i in [24usize, 25, 26, 27] {
        assert_eq!(s[i], 0);
    }
    for i in 15usize..23 {
        assert_eq!(s[i], 0);
    }
    // the words outside the frame are kept
    assert_eq!(s[14], STACK_FILL_BYTE);
    assert_eq!(s[31], STACK_FILL_BYTE);
}

#[test]
fn cortex_m7_initial_frame_and_check() {
    let mut s = vec![STACK_FILL_BYTE; 64];
    let top = cortex_m7::initialise_stack(&mut s, 63, 0x0800_0101, 0x0800_0301, 7);
    assert_eq!(top, 14);
    // r4-r11 and s16-s31 first, then the hardware frame from r0
    let hw = top + cortex_m7::HW_FRAME_OFFSET;
    assert_eq!(hw, 38);
    assert_eq!(s[hw], 7);
    assert_eq!(s[hw + 5], 0x0800_0301);
    assert_eq!(s[hw + 6], 0x0800_0100);
    assert_eq!(s[hw + 7], 0x0100_0000);
    // every other register of the frame is cleared
    for i in 14usize..63 {
        if i != hw && i != hw + 5 && i != hw + 6 && i != hw + 7 {
            assert_eq!(s[i], 0);
        }
    }
    assert_eq!(s[13], STACK_FILL_BYTE);
    assert_eq!(s[63], STACK_FILL_BYTE);
    assert!(cortex_m7::check_stack_overflow(&s));
    s[3] = 1;
    assert!(!cortex_m7::check_stack_overflow(&s));
}

#[test]
fn critical_nesting() {
    let mut c = CriticalNesting::new();
    assert_eq!(c.depth, 0xaaaa_aaaa);
    c.reset();
    c.enter_critical();
    c.enter_critical();
    assert!(!c.exit_critical());
    assert!(c.exit_critical());
    assert_eq!(c.depth, 0);
}

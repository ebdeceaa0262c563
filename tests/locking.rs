use guhkernel::console::put_c;
use guhkernel::cpu::{disable_interrupts, enable_interrupts, Cpu, LockFault};
use guhkernel::spinlock::Spinlock;
use guhkernel::uart::{reg_map, tx_ready, uart_init};

#[test]
fn acquire_and_release() {
    let mut lock = None;
    Spinlock::init(&mut lock);
    let mut cpu = Cpu::new();
    let g = Spinlock::acquire(&mut lock, &mut cpu, 0, true).unwrap().expect("lock is free");
    assert_eq!(lock.as_ref().unwrap().cpu, Some(0));
    assert_eq!(cpu.interrupt_disable_count, 1);
    assert!(cpu.interrupts_were_on);
    assert_eq!(g.cpu(), 0);
    assert_eq!(g.release(&mut lock, &mut cpu, 0, false), Ok(true));
    assert_eq!(lock.as_ref().unwrap().cpu, None);
    assert_eq!(cpu.interrupt_disable_count, 0);
}

#[test]
fn self_acquire_is_refused() {
    let mut lock = None;
    Spinlock::init(&mut lock);
    let mut cpu = Cpu::new();
    let _g = Spinlock::acquire(&mut lock, &mut cpu, 3, false).unwrap().unwrap();
    let again = Spinlock::acquire(&mut lock, &mut cpu, 3, false);
    assert_eq!(again.err(), Some(LockFault::AlreadyHeld));
    assert_eq!(cpu.interrupt_disable_count, 2);
    assert_eq!(lock.as_ref().unwrap().cpu, Some(3));
}

#[test]
fn uninitialized_lock_is_refused() {
    let mut lock: Option<Spinlock> = None;
    let mut cpu = Cpu::new();
    assert_eq!(Spinlock::acquire(&mut lock, &mut cpu, 0, true).err(), Some(LockFault::Uninitialized));
    assert_eq!(cpu.interrupt_disable_count, 1);
    assert!(cpu.interrupts_were_on);
    assert!(lock.is_none());
}

#[test]
fn foreign_release_is_refused() {
    let mut lock = None;
    Spinlock::init(&mut lock);
    let mut c0 = Cpu::new();
    let mut c1 = Cpu::new();
    let g = Spinlock::acquire(&mut lock, &mut c0, 0, true).unwrap().unwrap();
    assert_eq!(g.release(&mut lock, &mut c1, 1, false), Err(LockFault::NotOwner));
    assert_eq!(lock.as_ref().unwrap().cpu, Some(0));
}

#[test]
fn release_with_interrupts_on_is_refused() {
    let mut lock = None;
    Spinlock::init(&mut lock);
    let mut cpu = Cpu::new();
    let g = Spinlock::acquire(&mut lock, &mut cpu, 0, true).unwrap().unwrap();
    assert_eq!(g.release(&mut lock, &mut cpu, 0, true), Err(LockFault::InterruptsEnabled));
    assert_eq!(cpu.interrupt_disable_count, 1);
}

#[test]
fn contended_lock_is_taken_after_release() {
    let mut lock = None;
    Spinlock::init(&mut lock);
    let mut c0 = Cpu::new();
    let mut c1 = Cpu::new();
    let g0 = Spinlock::acquire(&mut lock, &mut c0, 0, true).unwrap().unwrap();
    assert!(Spinlock::acquire(&mut lock, &mut c1, 1, true).unwrap().is_none());
    assert!(lock.as_mut().unwrap().try_take(1).is_none());
    assert_eq!(lock.as_ref().unwrap().cpu, Some(0));
    assert_eq!(g0.release(&mut lock, &mut c0, 0, false), Ok(true));
    let g1 = lock.as_mut().unwrap().try_take(1).expect("lock was released");
    assert_eq!(lock.as_ref().unwrap().cpu, Some(1));
    assert_eq!(g1.release(&mut lock, &mut c1, 1, false), Ok(true));
}

#[test]
fn counter_under_lock_has_no_lost_update() {
    let cores: usize = 4;
    let rounds: usize = 10_000;
    let mut lock = None;
    Spinlock::init(&mut lock);
    let mut cpus: Vec<Cpu> = (0..cores).map(|_| Cpu::new()).collect();
    let mut counter: u64 = 0;
    for _ in 0..rounds {
        for id in 0..cores {
            let g = loop {
                match Spinlock::acquire(&mut lock, &mut cpus[id], id, true).unwrap() {
                    Some(g) => break g,
                    None => panic!("lock left held"),
                }
            };
            let seen = counter;
            counter = seen + 1;
            assert_eq!(g.release(&mut lock, &mut cpus[id], id, false), Ok(true));
        }
    }
    assert_eq!(counter, (cores * rounds) as u64);
}

#[test]
fn nested_locks_restore_interrupt_state() {
    for &start_on in [true, false].iter() {
        let mut a = None;
        let mut b = None;
        Spinlock::init(&mut a);
        Spinlock::init(&mut b);
        let mut cpu = Cpu::new();
        let mut on = start_on;
        let ga = Spinlock::acquire(&mut a, &mut cpu, 0, on).unwrap().unwrap();
        on = false;
        let gb = Spinlock::acquire(&mut b, &mut cpu, 0, on).unwrap().unwrap();
        assert_eq!(cpu.interrupt_disable_count, 2);
        on = gb.release(&mut b, &mut cpu, 0, on).unwrap();
        assert!(!on);
        on = ga.release(&mut a, &mut cpu, 0, on).unwrap();
        assert_eq!(on, start_on);
        assert_eq!(cpu.interrupt_disable_count, 0);
    }
}

#[test]
fn enable_without_disable_is_refused() {
    let mut cpu = Cpu::new();
    assert_eq!(enable_interrupts(&mut cpu, false), Err(LockFault::Unbalanced));
    disable_interrupts(&mut cpu, true);
    assert_eq!(enable_interrupts(&mut cpu, true), Err(LockFault::InterruptsEnabled));
    assert_eq!(enable_interrupts(&mut cpu, false), Ok(true));
}

#[test]
fn put_c_expands_backspace() {
    assert_eq!(put_c('a'), vec!['a']);
    assert_eq!(put_c('\x08'), vec!['\x08', ' ', '\x08']);
}

#[test]
fn uart_setup_writes() {
    let w = uart_init();
    assert_eq!(w.len(), 7);
    assert_eq!(w[0], (0x1000_0001, 0));
    assert_eq!(w[1], (0x1000_0003, 0x80));
    assert_eq!(w[5], (0x1000_0002, 7));
    assert_eq!(w[6], (0x1000_0001, 3));
    assert_eq!(reg_map(5), 0x1000_0005);
    assert!(tx_ready(0x60));
    assert!(!tx_ready(0x01));
}

#[test]
fn release_of_uninitialized_slot_is_refused() {
    let mut lock = None;
    Spinlock::init(&mut lock);
    let mut cpu = Cpu::new();
    let g = Spinlock::acquire(&mut lock, &mut cpu, 2, false).unwrap().unwrap();
    let mut empty: Option<Spinlock> = None;
    assert_eq!(g.release(&mut empty, &mut cpu, 2, false), Err(LockFault::Uninitialized));
    assert_eq!(cpu.interrupt_disable_count, 1);
}

#[test]
fn take_if_free_follows_the_swapped_value() {
    let mut l = Spinlock::new();
    assert!(l.take_if_free(true, 4).is_none());
    assert_eq!(l.cpu, None);
    let g = l.take_if_free(false, 4).expect("lock was free");
    assert_eq!(g.cpu(), 4);
    assert_eq!(l.cpu, Some(4));
}

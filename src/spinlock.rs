//! A non-reentrant spinlock that keeps interrupts off on the holding core.
//! The busy-wait itself is the caller's loop: `acquire` makes the first
//! test-and-set, and `try_take` each further one.

use vstd::prelude::*;
use std::sync::atomic::{AtomicBool, Ordering};
use crate::cpu::{Cpu, LockFault, after_disable, after_enable, disable_interrupts, enable_interrupts};

verus! {

pub struct Spinlock {
    /// The core that holds the lock, if any.
    pub cpu: Option<usize>,
    pub locked: AtomicBool,
}

/// Proof that a core took a lock; handed back to release it.
pub struct SpinlockGuard {
    cpu: usize,
}

impl SpinlockGuard {
    /// The core that took the lock.
    pub closed spec fn holder(&self) -> usize {
        self.cpu
    }

    pub fn cpu(&self) -> (r: usize)
        ensures
            r == self.holder(),
    {
        self.cpu
    }
}

impl Spinlock {
    /// A free lock.
    pub fn new() -> (r: Spinlock)
        ensures
            r.cpu is None,
    {
        Spinlock { cpu: None, locked: AtomicBool::new(false) }
    }

    /// Puts a free lock into an empty slot.
    pub fn init(lock: &mut Option<Spinlock>)
        ensures
            (*final(lock)) is Some,
            (*final(lock))->Some_0.cpu is None,
    {
        *lock = Some(Spinlock::new());
    }

    /// One atomic test-and-set: takes the lock for core `cpu_id` if no core
    /// holds it.
    pub fn try_take(&mut self, cpu_id: usize) -> (r: Option<SpinlockGuard>)
        ensures
            r matches Some(g) ==> final(self).cpu == Some(cpu_id) && g.holder() == cpu_id,
            r is None ==> final(self).cpu == old(self).cpu,
    {
        let was_locked = self.locked.swap(true, Ordering::Acquire);
        self.take_if_free(was_locked, cpu_id)
    }

    /// What follows the test-and-set, given the value it found: the lock is
    /// taken for core `cpu_id` exactly when it was free.
    pub fn take_if_free(&mut self, was_locked: bool, cpu_id: usize) -> (r: Option<SpinlockGuard>)
        ensures
            was_locked ==> r is None && *final(self) == *old(self),
            !was_locked ==> (r matches Some(g) && final(self).cpu == Some(cpu_id) && g.holder()
                == cpu_id),
    {
        if was_locked {
            None
        } else {
            self.cpu = Some(cpu_id);
            Some(SpinlockGuard { cpu: cpu_id })
        }
    }

    /// Core `cpu_id`, whose bookkeeping is `cpu` and whose interrupt-enable
    /// bit is `interrupts_on`, starts to take the lock in `lock`: interrupts
    /// are accounted as turned off first, then an empty slot or a lock the
    /// core holds already is refused, and otherwise one test-and-set is made.
    /// `Ok(None)` means another core holds the lock: the caller keeps
    /// interrupts off and spins on `try_take`.
    pub fn acquire(
        lock: &mut Option<Spinlock>,
        cpu: &mut Cpu,
        cpu_id: usize,
        interrupts_on: bool,
    ) -> (r: Result<Option<SpinlockGuard>, LockFault>)
        requires
            old(cpu).interrupt_disable_count < usize::MAX,
        ensures
            *final(cpu) == after_disable(*old(cpu), interrupts_on).0,
            (*old(lock)) is None ==> r == Err::<Option<SpinlockGuard>, LockFault>(
                LockFault::Uninitialized,
            ),
            (*old(lock)) matches Some(l) && l.cpu == Some(cpu_id) ==> r == Err::<
                Option<SpinlockGuard>,
                LockFault,
            >(LockFault::AlreadyHeld),
            r is Err ==> *final(lock) == *old(lock),
            (*old(lock)) matches Some(l) && l.cpu != Some(cpu_id) ==> r is Ok,
            r is Ok ==> (*final(lock)) is Some,
            r matches Ok(Some(g)) ==> (*final(lock))->Some_0.cpu == Some(cpu_id) && g.holder()
                == cpu_id,
            r matches Ok(None) ==> (*final(lock))->Some_0.cpu == (*old(lock))->Some_0.cpu,
    {
        disable_interrupts(cpu, interrupts_on);
        match lock {
            None => Err(LockFault::Uninitialized),
            Some(l) => {
                if l.cpu == Some(cpu_id) {
                    return Err(LockFault::AlreadyHeld);
                }
                Ok(l.try_take(cpu_id))
            },
        }
    }
}

impl SpinlockGuard {
    /// Core `cpu_id` releases the lock in `lock` that this guard took: the
    /// owner is cleared, the lock is stored free, and one disable is undone.
    /// The result says whether to turn interrupts back on. A release by a
    /// core that does not hold the lock, with interrupts on, or with no
    /// outstanding disable, is refused and nothing changes.
    pub fn release(
        self,
        lock: &mut Option<Spinlock>,
        cpu: &mut Cpu,
        cpu_id: usize,
        interrupts_on: bool,
    ) -> (r: Result<bool, LockFault>)
        ensures
            (*old(lock)) is None ==> r == Err::<bool, LockFault>(LockFault::Uninitialized),
            (*old(lock)) matches Some(l) && (l.cpu != Some(cpu_id) || self.holder() != cpu_id) ==> r
                == Err::<bool, LockFault>(LockFault::NotOwner),
            (*old(lock)) matches Some(l) && l.cpu == Some(cpu_id) && self.holder() == cpu_id ==> {
                &&& interrupts_on ==> r == Err::<bool, LockFault>(LockFault::InterruptsEnabled)
                &&& !interrupts_on && old(cpu).interrupt_disable_count == 0 ==> r == Err::<
                    bool,
                    LockFault,
                >(LockFault::Unbalanced)
            },
            r is Err ==> *final(cpu) == *old(cpu) && *final(lock) == *old(lock),
            r is Ok ==> {
                &&& (*final(lock)) is Some
                &&& (*final(lock))->Some_0.cpu is None
                &&& *final(cpu) == after_enable(*old(cpu), interrupts_on).0
                &&& r->Ok_0 == after_enable(*old(cpu), interrupts_on).1
            },
            (*old(lock)) matches Some(l) && l.cpu == Some(cpu_id) && self.holder() == cpu_id
                && !interrupts_on && old(cpu).interrupt_disable_count > 0 ==> r is Ok,
    {
        match lock {
            None => Err(LockFault::Uninitialized),
            Some(l) => {
                if l.cpu != Some(cpu_id) || self.cpu != cpu_id {
                    return Err(LockFault::NotOwner);
                }
                if interrupts_on {
                    return Err(LockFault::InterruptsEnabled);
                }
                if cpu.interrupt_disable_count == 0 {
                    return Err(LockFault::Unbalanced);
                }
                l.cpu = None;
                l.locked.store(false, Ordering::Release);
                enable_interrupts(cpu, interrupts_on)
            },
        }
    }
}

} // verus!

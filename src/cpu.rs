//! Per-core interrupt-disable accounting. The interrupt-enable bit itself is
//! a register of the core: callers read it, pass it in, and apply the
//! decision these functions return.

use vstd::prelude::*;

verus! {

/// Bookkeeping of one core.
#[derive(Clone, Copy, Debug, PartialEq, Eq, Structural)]
pub struct Cpu {
    /// How many disables are outstanding.
    pub interrupt_disable_count: usize,
    /// Whether interrupts were on before the outermost disable.
    pub interrupts_were_on: bool,
}

/// Fatal misuse of a lock or of the interrupt accounting.
#[derive(Clone, Copy, Debug, PartialEq, Eq, Structural)]
pub enum LockFault {
    /// The lock slot was never initialized.
    Uninitialized,
    /// The calling core holds the lock already.
    AlreadyHeld,
    /// The releasing core is not the one that holds the lock.
    NotOwner,
    /// Interrupts are on although a disable is outstanding.
    InterruptsEnabled,
    /// No disable is outstanding.
    Unbalanced,
}

/// A core's bookkeeping and its interrupt-enable bit after a disable.
pub open spec fn after_disable(c: Cpu, on: bool) -> (Cpu, bool) {
    (
        Cpu {
            interrupt_disable_count: (c.interrupt_disable_count + 1) as usize,
            interrupts_were_on: if c.interrupt_disable_count == 0 {
                on
            } else {
                c.interrupts_were_on
            },
        },
        false,
    )
}

/// A core's bookkeeping and its interrupt-enable bit after an enable: the
/// bit comes back on only when the count returns to 0 and it was on before
/// the outermost disable.
pub open spec fn after_enable(c: Cpu, on: bool) -> (Cpu, bool) {
    let n = (c.interrupt_disable_count - 1) as usize;
    (
        Cpu { interrupt_disable_count: n, interrupts_were_on: c.interrupts_were_on },
        n == 0 && c.interrupts_were_on,
    )
}

impl Cpu {
    /// A core with no outstanding disable.
    pub fn new() -> (r: Cpu)
        ensures
            r.interrupt_disable_count == 0,
            !r.interrupts_were_on,
    {
        Cpu { interrupt_disable_count: 0, interrupts_were_on: false }
    }
}

/// Records that the core turns interrupts off; `interrupts_on` is the state of
/// its interrupt-enable bit just before.
pub fn disable_interrupts(cpu: &mut Cpu, interrupts_on: bool)
    requires
        old(cpu).interrupt_disable_count < usize::MAX,
    ensures
        *final(cpu) == after_disable(*old(cpu), interrupts_on).0,
{
    if cpu.interrupt_disable_count == 0 {
        cpu.interrupts_were_on = interrupts_on;
    }
    cpu.interrupt_disable_count = cpu.interrupt_disable_count + 1;
}

/// Undoes one disable; `interrupts_on` is the state of the core's
/// interrupt-enable bit. The result says whether to turn interrupts back on.
/// Interrupts found on, or no outstanding disable, are refused.
pub fn enable_interrupts(cpu: &mut Cpu, interrupts_on: bool) -> (r: Result<bool, LockFault>)
    ensures
        interrupts_on ==> r == Err::<bool, LockFault>(LockFault::InterruptsEnabled),
        !interrupts_on && old(cpu).interrupt_disable_count == 0 ==> r == Err::<bool, LockFault>(
            LockFault::Unbalanced,
        ),
        r is Err ==> *final(cpu) == *old(cpu),
        !interrupts_on && old(cpu).interrupt_disable_count > 0 ==> {
            &&& r is Ok
            &&& *final(cpu) == after_enable(*old(cpu), interrupts_on).0
            &&& r->Ok_0 == after_enable(*old(cpu), interrupts_on).1
        },
{
    if interrupts_on {
        return Err(LockFault::InterruptsEnabled);
    }
    if cpu.interrupt_disable_count == 0 {
        return Err(LockFault::Unbalanced);
    }
    cpu.interrupt_disable_count = cpu.interrupt_disable_count - 1;
    Ok(cpu.interrupt_disable_count == 0 && cpu.interrupts_were_on)
}

/// A core's bookkeeping and interrupt-enable bit after running `ops` in
/// order: `true` is a disable (taking a lock), `false` an enable (releasing
/// one).
pub open spec fn run_ops(c: Cpu, on: bool, ops: Seq<bool>) -> (Cpu, bool)
    decreases ops.len(),
{
    if ops.len() == 0 {
        (c, on)
    } else {
        let (c1, on1) = run_ops(c, on, ops.drop_last());
        if ops.last() {
            after_disable(c1, on1)
        } else {
            after_enable(c1, on1)
        }
    }
}

/// Disables minus enables in `ops`.
pub open spec fn depth(ops: Seq<bool>) -> int
    decreases ops.len(),
{
    if ops.len() == 0 {
        0
    } else {
        depth(ops.drop_last()) + if ops.last() {
            1int
        } else {
            -1int
        }
    }
}

/// `ops` never enables more than it disabled, and ends with every disable
/// undone: properly nested acquire/release pairs.
pub open spec fn balanced(ops: Seq<bool>) -> bool {
    &&& forall|k: int| 0 <= k <= ops.len() ==> depth(#[trigger] ops.take(k)) >= 0
    &&& depth(ops) == 0
}

proof fn lemma_run_prefix(c: Cpu, on: bool, ops: Seq<bool>, k: int)
    requires
        c.interrupt_disable_count == 0,
        forall|m: int| 0 <= m <= ops.len() ==> depth(#[trigger] ops.take(m)) >= 0,
        ops.len() < usize::MAX,
        0 <= k <= ops.len(),
    ensures
        ({
            let (ck, onk) = run_ops(c, on, ops.take(k));
            &&& ck.interrupt_disable_count == depth(ops.take(k))
            &&& depth(ops.take(k)) == 0 ==> onk == on
            &&& depth(ops.take(k)) > 0 ==> !onk && ck.interrupts_were_on == on
            &&& depth(ops.take(k)) <= k
        }),
    decreases k,
{
    if k == 0 {
        assert(ops.take(0) =~= Seq::<bool>::empty());
    } else {
        lemma_run_prefix(c, on, ops, k - 1);
        let p = ops.take(k);
        assert(p.drop_last() =~= ops.take(k - 1));
        assert(p.last() == ops[k - 1]);
        assert(depth(ops.take(k)) >= 0);
    }
}

/// Once properly nested acquire/release pairs have all been undone on a core,
/// its interrupt-enable bit is what it was before the outermost acquire, and
/// no disable is outstanding. Between the pairs the bit stays off.
pub proof fn nested_release_restores_interrupts(c: Cpu, on: bool, ops: Seq<bool>)
    requires
        c.interrupt_disable_count == 0,
        balanced(ops),
        ops.len() < usize::MAX,
    ensures
        run_ops(c, on, ops).1 == on,
        run_ops(c, on, ops).0.interrupt_disable_count == 0,
        forall|k: int|
            0 <= k <= ops.len() && depth(#[trigger] ops.take(k)) > 0 ==> !run_ops(
                c,
                on,
                ops.take(k),
            ).1,
{
    lemma_run_prefix(c, on, ops, ops.len() as int);
    assert(ops.take(ops.len() as int) =~= ops);
    assert forall|k: int|
        0 <= k <= ops.len() && depth(#[trigger] ops.take(k)) > 0 implies !run_ops(
        c,
        on,
        ops.take(k),
    ).1 by {
        lemma_run_prefix(c, on, ops, k);
    }
}

} // verus!

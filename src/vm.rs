//! Sv39 page tables: entry encoding, the three-level walk, and range mapping.
//! Tables live in pages taken from the allocator, inside `PhysMemory`.

use vstd::prelude::*;
use crate::kalloc::KernelMemory;
use crate::memory::PhysMemory;
use crate::layout::{KERNEL_START, PAGE_SIZE, PHYS_STOP, PLIC, PLIC_SIZE, UART_LOC0, VIRTIO0, page_floor};

verus! {

/// The permission and status bits of an entry (bits 0..10).
pub open spec fn pte_flags(e: u64) -> u64 {
    e & 0x3FF
}

/// The physical page an entry names: its page number (the bits above 10) shifted
/// back to an address.
pub open spec fn pte_addr(e: u64) -> u64 {
    (e >> 10u64) << 12u64
}

pub open spec fn pte_valid(e: u64) -> bool {
    e & 1 != 0
}

/// The 9-bit table index that `va` selects at `level` (2 is the root).
pub open spec fn va_index(va: u64, level: usize) -> u64 {
    (va >> ((12 + 9 * level) as u64)) & 0x1FF
}

/// The entry that names the page holding `physical`, with `flags`.
pub open spec fn pte_encode(physical: u64, flags: u64) -> u64 {
    ((physical >> 12u64) << 10u64) | flags
}

/// Flag bits that describe a mapping: valid, read, write, execute, user.
pub open spec fn is_permission_set(flags: u64) -> bool {
    flags & !0x1Fu64 == 0
}

/// One entry of a page table: flags in bits 0..10, physical page number in
/// bits 10..54, the rest reserved.
#[derive(Clone, Copy, Debug)]
pub struct PageTableEntry(pub u64);

/// A virtual address of the 39-bit translated space.
#[derive(Clone, Copy, Debug)]
pub struct VirtualAddr(pub u64);

pub const FLAG_VALID: u64 = 1;
pub const FLAG_READ: u64 = 2;
pub const FLAG_WRITE: u64 = 4;
pub const FLAG_EXEC: u64 = 8;
pub const FLAG_USER: u64 = 16;

impl PageTableEntry {
    pub fn extract_flags(&self) -> (r: u64)
        ensures
            r == pte_flags(self.0),
            r < 1024,
    {
        let e = self.0;
        assert(e & 0x3FF < 1024) by (bit_vector);
        e & 0x3FF
    }

    pub fn extract_physical_page_number(&self) -> (r: u64)
        ensures
            r == pte_addr(self.0),
            r % 4096 == 0,
    {
        let e = self.0;
        assert(((e >> 10u64) << 12u64) % 4096 == 0) by (bit_vector);
        (e >> 10) << 12
    }

    pub fn is_valid(&self) -> (r: bool)
        ensures
            r == pte_valid(self.0),
    {
        self.0 & FLAG_VALID != 0
    }

    /// The entry that names the page holding `physical` with `flags`.
    pub fn new(physical: u64, flags: u64) -> (r: Self)
        requires
            flags < 1024,
        ensures
            r.0 == pte_encode(physical, flags),
            pte_addr(r.0) == physical - physical % 4096,
            pte_flags(r.0) == flags,
            pte_valid(r.0) == (flags & 1 != 0),
    {
        let e = ((physical >> 12) << 10) | flags;
        assert(((((physical >> 12u64) << 10u64) | flags) >> 10u64) << 12u64
            == physical - physical % 4096) by (bit_vector)
            requires flags < 1024;
        assert((((physical >> 12u64) << 10u64) | flags) & 0x3FF == flags) by (bit_vector)
            requires flags < 1024;
        assert(((((physical >> 12u64) << 10u64) | flags) & 1 != 0) == (flags & 1 != 0))
            by (bit_vector);
        PageTableEntry(e)
    }
}

/// Encoding an entry and decoding it again gives back the page-aligned address
/// and the flags, for every address that an entry can name and every set of
/// permission flags.
pub proof fn pte_round_trip(physical: u64, flags: u64)
    requires
        physical % 4096 == 0,
        is_permission_set(flags),
    ensures
        pte_addr(pte_encode(physical, flags)) == physical,
        pte_flags(pte_encode(physical, flags)) == flags,
{
    assert(flags & !0x1Fu64 == 0 ==> flags < 1024) by (bit_vector);
    assert((((physical >> 12u64) << 10u64) | flags) >> 10u64 << 12u64
        == physical - physical % 4096) by (bit_vector)
        requires flags < 1024;
    assert((((physical >> 12u64) << 10u64) | flags) & 0x3FF == flags) by (bit_vector)
        requires flags < 1024;
}

impl VirtualAddr {
    pub fn extract_index_at_level(&self, level: usize) -> (r: usize)
        requires
            level <= 2,
        ensures
            r == va_index(self.0, level),
            r < 512,
    {
        let va = self.0;
        let shift: u64 = 12 + level as u64 * 9;
        assert((va >> shift) & 0x1FF < 512) by (bit_vector);
        ((va >> shift) & 0x1FF) as usize
    }
}


/// Entry `i` of the table in the page at `t`.
pub open spec fn entry(mem: &PhysMemory, t: u64, i: int) -> u64 {
    mem.word_at(mem.index_of(t as int) + i)
}

/// The level-0 table that `va` reaches from the root table `root`, if both
/// entries on the way are valid.
pub open spec fn leaf_table(mem: &PhysMemory, root: u64, va: u64) -> Option<u64> {
    let e2 = entry(mem, root, va_index(va, 2) as int);
    if !pte_valid(e2) {
        None
    } else {
        let e1 = entry(mem, pte_addr(e2), va_index(va, 1) as int);
        if !pte_valid(e1) {
            None
        } else {
            Some(pte_addr(e1))
        }
    }
}

/// The page and flags that `va` translates to under the root table `root`.
pub open spec fn translate(mem: &PhysMemory, root: u64, va: u64) -> Option<(u64, u64)> {
    match leaf_table(mem, root, va) {
        None => None,
        Some(t0) => {
            let e0 = entry(mem, t0, va_index(va, 0) as int);
            if pte_valid(e0) {
                Some((pte_addr(e0), pte_flags(e0)))
            } else {
                None
            }
        },
    }
}

/// Every valid entry of every table in `lv` is the same in `after` as in
/// `before`.
pub open spec fn entries_kept(before: &PhysMemory, after: &PhysMemory, lv: Map<u64, int>) -> bool {
    forall|t: u64, i: int|
        lv.contains_key(t) && 0 <= i < 512 && pte_valid(#[trigger] entry(before, t, i)) ==> entry(
            after,
            t,
            i,
        ) == entry(before, t, i)
}

proof fn lemma_page_index(mem: &PhysMemory, t: int)
    requires
        mem.wf(),
        mem.holds_page(t),
    ensures
        mem.index_of(t) % 512 == 0,
        0 <= mem.index_of(t),
        mem.index_of(t) + 512 <= mem.len_words(),
        forall|i: int| 0 <= i < 512 ==> #[trigger] mem.index_of(t + 8 * i) == mem.index_of(t) + i,
{
    let b = mem.base_addr();
    let l = mem.len_words();
    let x = t - b;
    assert(x % 4096 == 0) by (nonlinear_arith)
        requires
            t % 4096 == 0,
            b % 4096 == 0,
            x == t - b,
    ;
    assert((x / 8) % 512 == 0) by (nonlinear_arith)
        requires
            x % 4096 == 0,
    ;
    assert(x / 8 + 512 <= l) by (nonlinear_arith)
        requires
            x + 4096 <= 8 * l,
            x % 4096 == 0,
            x >= 0,
    ;
    assert forall|i: int| 0 <= i < 512 implies #[trigger] mem.index_of(t + 8 * i) == mem.index_of(t)
        + i by {
        assert((x + 8 * i) / 8 == x / 8 + i) by (nonlinear_arith)
            requires
                x % 4096 == 0,
        ;
    }
}

/// No two valid entries of tables of level above 0 name the same table.
pub open spec fn links_unique(mem: &PhysMemory, lv: Map<u64, int>) -> bool {
    forall|t: u64, i: int, u: u64, j: int|
        lv.contains_key(t) && lv[t] > 0 && lv.contains_key(u) && lv[u] > 0 && 0 <= i < 512 && 0
            <= j < 512 && pte_valid(#[trigger] entry(mem, t, i)) && pte_valid(
            #[trigger] entry(mem, u, j),
        ) && pte_addr(entry(mem, t, i)) == pte_addr(entry(mem, u, j)) ==> t == u && i == j
}

/// Every address translates under `after` as it does under `before`.
pub open spec fn same_translations(before: &PhysMemory, after: &PhysMemory, root: u64) -> bool {
    forall|v: u64| #[trigger] translate(after, root, v) == translate(before, root, v)
}

proof fn lemma_va_index_shape(v: u64)
    ensures
        va_index(v, 2) == (v >> 30u64) & 0x1FF,
        va_index(v, 1) == (v >> 21u64) & 0x1FF,
        va_index(v, 0) == (v >> 12u64) & 0x1FF,
        va_index(v, 2) < 512,
        va_index(v, 1) < 512,
        va_index(v, 0) < 512,
{
    assert((v >> 30u64) & 0x1FF < 512) by (bit_vector);
    assert((v >> 21u64) & 0x1FF < 512) by (bit_vector);
    assert((v >> 12u64) & 0x1FF < 512) by (bit_vector);
}

/// Two addresses of the 39-bit space with the same three indices lie in the
/// same page.
proof fn lemma_same_page(v: u64, w: u64)
    requires
        v < 0x80_0000_0000u64,
        w < 0x80_0000_0000u64,
        w % 4096 == 0,
        va_index(v, 2) == va_index(w, 2),
        va_index(v, 1) == va_index(w, 1),
        va_index(v, 0) == va_index(w, 0),
    ensures
        w <= v < w + 4096,
{
    lemma_va_index_shape(v);
    lemma_va_index_shape(w);
    assert(w <= v && v < w + 4096) by (bit_vector)
        requires
            v < 0x80_0000_0000u64,
            w < 0x80_0000_0000u64,
            w % 4096 == 0,
            (v >> 30u64) & 0x1FF == (w >> 30u64) & 0x1FF,
            (v >> 21u64) & 0x1FF == (w >> 21u64) & 0x1FF,
            (v >> 12u64) & 0x1FF == (w >> 12u64) & 0x1FF,
    ;
}

/// Every entry of the tables in `lv`, except entry `i` of `t`, is the same in
/// `after` as in `before`.
pub open spec fn only_slot_changed(
    before: &PhysMemory,
    after: &PhysMemory,
    lv: Map<u64, int>,
    t: u64,
    i: int,
) -> bool {
    forall|u: u64, j: int|
        lv.contains_key(u) && 0 <= j < 512 && !(u == t && j == i) ==> #[trigger] entry(after, u, j)
            == entry(before, u, j)
}

/// Each valid entry of a table of level above 0 in `after` that was not a
/// valid entry of a table of `lvb` in `before` links, with the valid bit
/// alone, to a table that is not in `lvb`.
pub open spec fn links_bare(
    before: &PhysMemory,
    after: &PhysMemory,
    lvb: Map<u64, int>,
    lva: Map<u64, int>,
) -> bool {
    forall|t: u64, i: int|
        lva.contains_key(t) && lva[t] > 0 && 0 <= i < 512 && pte_valid(#[trigger] entry(after, t, i))
            && !(lvb.contains_key(t) && pte_valid(entry(before, t, i))) ==> entry(after, t, i)
            == pte_encode(pte_addr(entry(after, t, i)), FLAG_VALID) && !lvb.contains_key(
            pte_addr(entry(after, t, i)),
        )
}

/// The tables of `lva` that are not in `lvb` hold 0 in every entry that is
/// not valid.
pub open spec fn new_tables_zeroed(after: &PhysMemory, lvb: Map<u64, int>, lva: Map<u64, int>) -> bool {
    forall|q: u64, i: int|
        lva.contains_key(q) && !lvb.contains_key(q) && 0 <= i < 512 && !pte_valid(
            #[trigger] entry(after, q, i),
        ) ==> entry(after, q, i) == 0
}

/// The tables of `lva` that are not in `lvb` were pages of `free`.
pub open spec fn new_tables_from(free: Seq<u64>, lvb: Map<u64, int>, lva: Map<u64, int>) -> bool {
    forall|q: u64| #[trigger] lva.contains_key(q) && !lvb.contains_key(q) ==> free.contains(q)
}

/// A page table: the physical address of its page. `levels` records, for the
/// root and every table reachable from it, its level (2 for the root, 0 for
/// the tables whose entries map pages).
#[derive(Clone, Copy)]
pub struct PageTable {
    pub addr: u64,
    pub levels: Ghost<Map<u64, int>>,
}

/// Fatal misuse of `map_pages`, or exhaustion of the allocator.
#[derive(Clone, Copy, Debug, PartialEq, Eq, Structural)]
pub enum MapFault {
    /// The virtual address or the size is not page-aligned, or the size is 0.
    Misaligned,
    /// A page of the range is mapped already.
    Remap,
    /// No page was left for an intermediate table.
    OutOfMemory,
}

impl PageTable {
    pub open spec fn tables(&self) -> Map<u64, int> {
        self.levels@
    }

    /// The tree below this root table is well formed in `mem`: every table
    /// is a page of `mem`, and each valid entry of a table of level `l > 0`
    /// names a table of level `l - 1`.
    pub open spec fn wf(&self, mem: &PhysMemory) -> bool {
        let lv = self.tables();
        &&& mem.wf()
        &&& lv.contains_key(self.addr)
        &&& lv[self.addr] == 2
        &&& forall|t: u64| #[trigger]
            lv.contains_key(t) ==> mem.holds_page(t as int) && 0 <= lv[t] <= 2
        &&& forall|t: u64, i: int|
            lv.contains_key(t) && lv[t] > 0 && 0 <= i < 512 && pte_valid(
                #[trigger] entry(mem, t, i),
            ) ==> lv.contains_key(pte_addr(entry(mem, t, i))) && lv[pte_addr(entry(mem, t, i))]
                == lv[t] - 1
        &&& links_unique(mem, lv)
    }

    /// No page of the tree is on the allocator's free list, and the
    /// allocator's pages lie in `mem`.
    pub open spec fn apart_from(&self, kmem: &KernelMemory, mem: &PhysMemory) -> bool {
        &&& kmem.wf()
        &&& kmem.inside(mem)
        &&& forall|i: int|
            0 <= i < kmem.free_list().len() ==> !self.tables().contains_key(
                #[trigger] kmem.free_list()[i],
            )
    }
}


impl PageTableEntry {
    /// The table in the page this entry names.
    pub fn as_table(&self) -> (r: PageTable)
        ensures
            r.addr == pte_addr(self.0),
            r.tables() == Map::<u64, int>::empty(),
    {
        let pg = self.extract_physical_page_number();
        let ghost lv = Map::<u64, int>::empty();
        PageTable { addr: pg, levels: Ghost(lv) }
    }

    /// Takes a fresh zeroed table from the allocator and builds the entry
    /// that links to it with `flags`.
    pub fn allocate_as_new_table(kmem: &mut KernelMemory, mem: &mut PhysMemory, flags: u64) -> (r:
        Option<(Self, PageTable)>)
        requires
            old(kmem).wf(),
            old(kmem).inside(old(mem)),
            flags < 1024,
        ensures
            final(kmem).wf(),
            final(kmem).inside(final(mem)),
            final(kmem).range_start() == old(kmem).range_start(),
            final(kmem).range_end() == old(kmem).range_end(),
            old(kmem).free_list().len() == 0 <==> r is None,
            r is None ==> *final(mem) == *old(mem) && *final(kmem) == *old(kmem),
            r matches Some((e, t)) ==> {
                &&& t.addr == old(kmem).free_list().last()
                &&& final(kmem).free_list() == old(kmem).free_list().drop_last()
                &&& fresh_table(old(mem), final(mem), t.addr)
                &&& e.0 == pte_encode(t.addr, flags)
                &&& pte_addr(e.0) == t.addr
                &&& pte_flags(e.0) == flags
                &&& pte_valid(e.0) == (flags & 1 != 0)
            },
    {
        match PageTable::new(kmem, mem) {
            None => None,
            Some(table) => {
                let e = PageTableEntry::new(table.addr, flags);
                Some((e, table))
            },
        }
    }
}

/// `after` is `before` with the page `p` of the window zeroed, and `p` a
/// page of the window.
pub open spec fn fresh_table(before: &PhysMemory, after: &PhysMemory, p: u64) -> bool {
    &&& after.wf()
    &&& after.holds_page(p as int)
    &&& crate::kalloc::mem_page_filled(before, after, p as int, 0)
    &&& forall|i: int| 0 <= i < 512 ==> #[trigger] entry(after, p, i) == 0
}

impl PageTable {
    /// A new empty root table, in a page taken from the allocator.
    pub fn new(kmem: &mut KernelMemory, mem: &mut PhysMemory) -> (r: Option<PageTable>)
        requires
            old(kmem).wf(),
            old(kmem).inside(old(mem)),
        ensures
            final(kmem).wf(),
            final(kmem).inside(final(mem)),
            final(kmem).range_start() == old(kmem).range_start(),
            final(kmem).range_end() == old(kmem).range_end(),
            old(kmem).free_list().len() == 0 <==> r is None,
            r is None ==> *final(mem) == *old(mem) && *final(kmem) == *old(kmem),
            r matches Some(t) ==> {
                &&& t.addr == old(kmem).free_list().last()
                &&& final(kmem).free_list() == old(kmem).free_list().drop_last()
                &&& fresh_table(old(mem), final(mem), t.addr)
                &&& t.tables() == map![t.addr => 2int]
                &&& t.wf(final(mem))
                &&& t.apart_from(final(kmem), final(mem))
                &&& forall|v: u64| #[trigger] translate(final(mem), t.addr, v) is None
            },
    {
        match kmem.allocate_page(mem) {
            None => None,
            Some(page) => {
                let ghost lv = map![page => 2int];
                let t = PageTable { addr: page, levels: Ghost(lv) };
                proof {
                    lemma_page_index(mem, page as int);
                    assert forall|i: int| 0 <= i < 512 implies #[trigger] entry(mem, page, i)
                        == 0 by {
                        assert(mem.word_at(mem.index_of(page as int) + i) == crate::memory::splat(
                            0,
                        ));
                    }
                    assert(!pte_valid(0u64)) by (bit_vector);
                    assert(mem.holds_page(page as int));
                    assert(t.wf(mem));
                    assert forall|v: u64| #[trigger] translate(mem, page, v) is None by {
                        lemma_va_index_shape(v);
                        assert(entry(mem, page, va_index(v, 2) as int) == 0);
                    }
                    let f = kmem.free_list();
                    let o = old(kmem).free_list();
                    assert forall|i: int| 0 <= i < f.len() implies !t.tables().contains_key(
                        #[trigger] f[i],
                    ) by {
                        assert(f[i] == o[i]);
                        assert(o[o.len() - 1] == page);
                    }
                }
                Some(t)
            },
        }
    }

    /// Entry `index` of this table, if it is valid.
    pub fn lookup(&self, mem: &PhysMemory, index: usize) -> (r: Option<PageTableEntry>)
        requires
            mem.wf(),
            mem.holds_page(self.addr as int),
            index < 512,
        ensures
            pte_valid(entry(mem, self.addr, index as int)) ==> r == Some(
                PageTableEntry(entry(mem, self.addr, index as int)),
            ),
            !pte_valid(entry(mem, self.addr, index as int)) ==> r is None,
    {
        proof {
            lemma_page_index(mem, self.addr as int);
        }
        let w = mem.read_word(self.get_ref(index));
        let e = PageTableEntry(w);
        if e.is_valid() {
            Some(e)
        } else {
            None
        }
    }

    /// Stores `e` as entry `index` of this table.
    pub fn set(&self, mem: &mut PhysMemory, index: usize, e: PageTableEntry)
        requires
            old(mem).wf(),
            old(mem).holds_page(self.addr as int),
            index < 512,
        ensures
            final(mem).wf(),
            entry(final(mem), self.addr, index as int) == e.0,
            old(mem).same_outside(
                final(mem),
                old(mem).index_of(self.addr as int) + index,
                old(mem).index_of(self.addr as int) + index + 1,
            ),
    {
        proof {
            lemma_page_index(mem, self.addr as int);
        }
        let slot = self.get_ref(index);
        mem.write_word(slot, e.0);
    }

    /// Physical address of entry `index` of this table.
    pub fn get_ref(&self, index: usize) -> (r: u64)
        requires
            index < 512,
            self.addr + 4096 <= u64::MAX,
        ensures
            r == self.addr + 8 * index,
    {
        self.addr + 8 * (index as u64)
    }
}


/// The words of two different pages of the window do not overlap.
proof fn lemma_pages_disjoint(mem: &PhysMemory, t: int, p: int)
    requires
        mem.wf(),
        mem.holds_page(t),
        mem.holds_page(p),
        t != p,
    ensures
        forall|i: int|
            0 <= i < 512 ==> #[trigger] (mem.index_of(t) + i) < mem.index_of(p) || mem.index_of(t)
                + i >= mem.index_of(p) + 512,
{
    let b = mem.base_addr();
    let x = t - b;
    let y = p - b;
    assert(x % 4096 == 0 && y % 4096 == 0) by (nonlinear_arith)
        requires
            t % 4096 == 0,
            p % 4096 == 0,
            b % 4096 == 0,
            x == t - b,
            y == p - b,
    ;
    assert(x / 8 + 512 <= y / 8 || y / 8 + 512 <= x / 8) by (nonlinear_arith)
        requires
            x % 4096 == 0,
            y % 4096 == 0,
            x != y,
    ;
}

impl PageTable {
    /// One step down the tree from the table `t`, of level `level`, through
    /// its entry `idx`: the table that entry names. Where the entry is not
    /// valid and `alloc` holds, a fresh zeroed table is linked in with the
    /// valid bit alone.
    fn descend(
        &mut self,
        mem: &mut PhysMemory,
        kmem: &mut KernelMemory,
        t: u64,
        idx: usize,
        alloc: bool,
        Ghost(level): Ghost<int>,
    ) -> (r: Option<u64>)
        requires
            old(self).wf(old(mem)),
            old(self).apart_from(old(kmem), old(mem)),
            old(self).tables().contains_key(t),
            old(self).tables()[t] == level,
            1 <= level <= 2,
            idx < 512,
        ensures
            final(self).addr == old(self).addr,
            final(self).wf(final(mem)),
            final(self).apart_from(final(kmem), final(mem)),
            tables_grow(old(self).tables(), final(self).tables()),
            entries_kept(old(mem), final(mem), old(self).tables()),
            final(kmem).range_start() == old(kmem).range_start(),
            final(kmem).range_end() == old(kmem).range_end(),
            pte_valid(entry(old(mem), t, idx as int)) || !alloc ==> {
                &&& *final(mem) == *old(mem)
                &&& *final(kmem) == *old(kmem)
                &&& final(self).tables() == old(self).tables()
            },
            pte_valid(entry(old(mem), t, idx as int)) ==> r == Some(
                pte_addr(entry(old(mem), t, idx as int)),
            ),
            !pte_valid(entry(old(mem), t, idx as int)) && !alloc ==> r is None,
            r matches Some(n) ==> {
                &&& pte_valid(entry(final(mem), t, idx as int))
                &&& pte_addr(entry(final(mem), t, idx as int)) == n
                &&& final(self).tables().contains_key(n)
                &&& final(self).tables()[n] == level - 1
            },
            r is None && alloc ==> final(kmem).free_list().len() == 0,
            r is None ==> {
                &&& *final(mem) == *old(mem)
                &&& *final(kmem) == *old(kmem)
                &&& final(self).tables() == old(self).tables()
                &&& !pte_valid(entry(old(mem), t, idx as int))
            },
            alloc && old(kmem).free_list().len() > 0 ==> r is Some,
            !pte_valid(entry(old(mem), t, idx as int)) && r is Some ==> {
                &&& final(kmem).free_list() == old(kmem).free_list().drop_last()
                &&& final(self).tables() == old(self).tables().insert(r->Some_0, level - 1)
                &&& forall|i: int| 0 <= i < 512 ==> #[trigger] entry(final(mem), r->Some_0, i) == 0
            },
            same_translations(old(mem), final(mem), old(self).addr),
            only_slot_changed(old(mem), final(mem), old(self).tables(), t, idx as int),
            links_bare(old(mem), final(mem), old(self).tables(), final(self).tables()),
            new_tables_zeroed(final(mem), old(self).tables(), final(self).tables()),
            new_tables_from(old(kmem).free_list(), old(self).tables(), final(self).tables()),
    {
        let ghost lv = self.tables();
        let ghost lv_empty = Map::<u64, int>::empty();
        let table = PageTable { addr: t, levels: Ghost(lv_empty) };
        proof {
            lemma_page_index(mem, t as int);
        }
        match table.lookup(mem, idx) {
            Some(e) => Some(e.extract_physical_page_number()),
            None => {
                if !alloc {
                    return None;
                }
                let ghost mem0 = *mem;
                let ghost free0 = kmem.free_list();
                match PageTableEntry::allocate_as_new_table(kmem, mem, FLAG_VALID) {
                    None => None,
                    Some((e, new_table)) => {
                        let p = new_table.addr;
                        let ghost mem1 = *mem;
                        proof {
                            assert(free0[free0.len() - 1] == p);
                            assert(!lv.contains_key(p));
                            assert(pte_valid(e.0)) by {
                                assert(FLAG_VALID & 1 != 0) by (bit_vector);
                            }
                        }
                        table.set(mem, idx, e);
                        let ghost lv2 = lv.insert(p, level - 1);
                        self.levels = Ghost(lv2);
                        proof {
                            assert(!pte_valid(0u64)) by (bit_vector);
                            lemma_page_index(&mem0, p as int);
                            // Entries of the old tables survive the zeroing
                            // of the new page and the write of the link.
                            assert forall|u: u64, i: int|
                                lv2.contains_key(u) && 0 <= i < 512 && !(u == t && i == idx)
                                    implies #[trigger] entry(mem, u, i) == entry(&mem1, u, i) && (
                                u != p ==> entry(&mem1, u, i) == entry(&mem0, u, i)) by {
                                lemma_page_index(&mem0, u as int);
                                if u != t {
                                    lemma_pages_disjoint(&mem0, u as int, t as int);
                                    assert(mem0.index_of(u as int) + i < mem0.index_of(t as int)
                                        || mem0.index_of(u as int) + i >= mem0.index_of(t as int)
                                        + 512);
                                }
                                if u != p {
                                    lemma_pages_disjoint(&mem0, u as int, p as int);
                                    assert(mem0.index_of(u as int) + i < mem0.index_of(p as int)
                                        || mem0.index_of(u as int) + i >= mem0.index_of(p as int)
                                        + 512);
                                }
                            }
                            assert forall|u: u64, i: int|
                                lv2.contains_key(u) && lv2[u] > 0 && 0 <= i < 512 && pte_valid(
                                    #[trigger] entry(mem, u, i),
                                ) implies lv2.contains_key(pte_addr(entry(mem, u, i)))
                                && lv2[pte_addr(entry(mem, u, i))] == lv2[u] - 1 by {
                                if u == t && i == idx {
                                } else if u == p {
                                    assert(entry(&mem1, p, i) == 0);
                                } else {
                                    assert(entry(&mem0, u, i) == entry(mem, u, i));
                                }
                            }
                            assert forall|u: u64| #[trigger]
                                lv2.contains_key(u) implies mem.holds_page(u as int) && 0 <= lv2[u]
                                <= 2 by {}
                            assert(self.wf(mem));
                            assert(entries_kept(&mem0, mem, lv));
                            let f = kmem.free_list();
                            assert forall|i: int| 0 <= i < f.len() implies !lv2.contains_key(
                                #[trigger] f[i],
                            ) by {
                                assert(f[i] == free0[i]);
                            }
                            assert(tables_grow(lv, lv2));
                            assert(pte_addr(e.0) == p);
                            assert(only_slot_changed(&mem0, mem, lv, t, idx as int));
                            assert forall|u: u64, i: int|
                                lv2.contains_key(u) && lv2[u] > 0 && 0 <= i < 512 && pte_valid(
                                    #[trigger] entry(mem, u, i),
                                ) && !(lv.contains_key(u) && pte_valid(entry(&mem0, u, i)))
                                implies entry(mem, u, i) == pte_encode(
                                pte_addr(entry(mem, u, i)),
                                FLAG_VALID,
                            ) && !lv.contains_key(pte_addr(entry(mem, u, i))) by {
                                if u == t && i == idx {
                                } else if u == p {
                                    assert(entry(&mem1, p, i) == 0);
                                } else {
                                    assert(entry(&mem0, u, i) == entry(mem, u, i));
                                }
                            }
                            assert forall|q: u64, i: int|
                                lv2.contains_key(q) && !lv.contains_key(q) && 0 <= i < 512
                                    && !pte_valid(#[trigger] entry(mem, q, i)) implies entry(
                                mem,
                                q,
                                i,
                            ) == 0 by {
                                assert(q == p);
                                assert(entry(&mem1, p, i) == 0);
                            }
                            assert forall|i: int| 0 <= i < 512 implies #[trigger] entry(mem, p, i)
                                == 0 by {
                                assert(entry(&mem1, p, i) == 0);
                            }
                            assert forall|q: u64| #[trigger]
                                lv2.contains_key(q) && !lv.contains_key(q) implies free0.contains(
                                q,
                            ) by {
                                assert(q == p);
                                assert(free0[free0.len() - 1] == p);
                            }
                            let root = self.addr;
                            assert forall|v: u64| #[trigger]
                                translate(mem, root, v) == translate(&mem0, root, v) by {
                                lemma_va_index_shape(v);
                                let i2 = va_index(v, 2) as int;
                                let i1 = va_index(v, 1) as int;
                                let i0 = va_index(v, 0) as int;
                                if root == t && i2 == idx {
                                    assert(entry(mem, p, i1) == entry(&mem1, p, i1));
                                } else {
                                    assert(entry(mem, root, i2) == entry(&mem0, root, i2));
                                    if pte_valid(entry(&mem0, root, i2)) {
                                        let t1 = pte_addr(entry(&mem0, root, i2));
                                        assert(lv.contains_key(t1) && lv[t1] == 1);
                                        if t1 == t && i1 == idx {
                                            assert(entry(mem, p, i0) == entry(&mem1, p, i0));
                                        } else {
                                            assert(entry(mem, t1, i1) == entry(&mem0, t1, i1));
                                            if pte_valid(entry(&mem0, t1, i1)) {
                                                let t0 = pte_addr(entry(&mem0, t1, i1));
                                                assert(lv.contains_key(t0) && lv[t0] == 0);
                                                assert(entry(mem, t0, i0) == entry(&mem0, t0, i0));
                                            }
                                        }
                                    }
                                }
                            }
                        }
                        Some(p)
                    },
                }
            },
        }
    }
}


/// `entries_kept` composes over two steps whose tables grow.
proof fn lemma_entries_kept_trans(
    m0: &PhysMemory,
    m1: &PhysMemory,
    m2: &PhysMemory,
    lv0: Map<u64, int>,
    lv1: Map<u64, int>,
)
    requires
        entries_kept(m0, m1, lv0),
        entries_kept(m1, m2, lv1),
        tables_grow(lv0, lv1),
    ensures
        entries_kept(m0, m2, lv0),
{
    assert forall|t: u64, i: int|
        lv0.contains_key(t) && 0 <= i < 512 && pte_valid(#[trigger] entry(m0, t, i)) implies entry(
        m2,
        t,
        i,
    ) == entry(m0, t, i) by {
        assert(entry(m1, t, i) == entry(m0, t, i));
        assert(lv1.contains_key(t));
    }
}

/// Every table of `a` is in `b`, at the same level.
pub open spec fn tables_grow(a: Map<u64, int>, b: Map<u64, int>) -> bool {
    forall|k: u64| #[trigger] a.contains_key(k) ==> b.contains_key(k) && b[k] == a[k]
}

proof fn lemma_same_translations_trans(m0: &PhysMemory, m1: &PhysMemory, m2: &PhysMemory, root: u64)
    requires
        same_translations(m0, m1, root),
        same_translations(m1, m2, root),
    ensures
        same_translations(m0, m2, root),
{
    assert forall|v: u64| #[trigger] translate(m2, root, v) == translate(m0, root, v) by {
        assert(translate(m1, root, v) == translate(m0, root, v));
    }
}

proof fn lemma_tables_grow_trans(a: Map<u64, int>, b: Map<u64, int>, c: Map<u64, int>)
    requires
        tables_grow(a, b),
        tables_grow(b, c),
    ensures
        tables_grow(a, c),
{
    assert forall|k: u64| a.contains_key(k) implies c.contains_key(k) && c[k] == a[k] by {
        assert(b.contains_key(k) && b[k] == a[k]);
    }
}

/// How many tables a walk to `va` from the root table `root` must add: two
/// when the root entry is not valid, one when the level-1 entry is not.
pub open spec fn tables_missing(mem: &PhysMemory, root: u64, va: u64) -> nat {
    let e2 = entry(mem, root, va_index(va, 2) as int);
    if !pte_valid(e2) {
        2
    } else if !pte_valid(entry(mem, pte_addr(e2), va_index(va, 1) as int)) {
        1
    } else {
        0
    }
}

proof fn lemma_links_bare_trans(
    m0: &PhysMemory,
    m1: &PhysMemory,
    m2: &PhysMemory,
    l0: Map<u64, int>,
    l1: Map<u64, int>,
    l2: Map<u64, int>,
)
    requires
        links_bare(m0, m1, l0, l1),
        links_bare(m1, m2, l1, l2),
        entries_kept(m1, m2, l1),
        tables_grow(l0, l1),
        tables_grow(l1, l2),
    ensures
        links_bare(m0, m2, l0, l2),
{
    assert forall|t: u64, i: int|
        l2.contains_key(t) && l2[t] > 0 && 0 <= i < 512 && pte_valid(#[trigger] entry(m2, t, i))
            && !(l0.contains_key(t) && pte_valid(entry(m0, t, i))) implies entry(m2, t, i)
        == pte_encode(pte_addr(entry(m2, t, i)), FLAG_VALID) && !l0.contains_key(
        pte_addr(entry(m2, t, i)),
    ) by {
        if l1.contains_key(t) && pte_valid(entry(m1, t, i)) {
            assert(entry(m2, t, i) == entry(m1, t, i));
        } else {
            let a = pte_addr(entry(m2, t, i));
            if l0.contains_key(a) {
                assert(l1.contains_key(a));
            }
        }
    }
}

proof fn lemma_zeroed_trans(
    m1: &PhysMemory,
    m2: &PhysMemory,
    l0: Map<u64, int>,
    l1: Map<u64, int>,
    l2: Map<u64, int>,
    t: u64,
    idx: int,
)
    requires
        new_tables_zeroed(m1, l0, l1),
        new_tables_zeroed(m2, l1, l2),
        only_slot_changed(m1, m2, l1, t, idx),
        !pte_valid(entry(m2, t, idx)) ==> entry(m2, t, idx) == entry(m1, t, idx),
        tables_grow(l0, l1),
    ensures
        new_tables_zeroed(m2, l0, l2),
{
    assert forall|q: u64, i: int|
        l2.contains_key(q) && !l0.contains_key(q) && 0 <= i < 512 && !pte_valid(
            #[trigger] entry(m2, q, i),
        ) implies entry(m2, q, i) == 0 by {
        if l1.contains_key(q) {
            assert(entry(m2, q, i) == entry(m1, q, i));
        }
    }
}

proof fn lemma_from_trans(
    f0: Seq<u64>,
    f1: Seq<u64>,
    l0: Map<u64, int>,
    l1: Map<u64, int>,
    l2: Map<u64, int>,
)
    requires
        new_tables_from(f0, l0, l1),
        new_tables_from(f1, l1, l2),
        f1.len() <= f0.len(),
        f1 == f0.take(f1.len() as int),
        tables_grow(l0, l1),
    ensures
        new_tables_from(f0, l0, l2),
{
    assert forall|q: u64| #[trigger] l2.contains_key(q) && !l0.contains_key(q) implies f0.contains(
        q,
    ) by {
        if !l1.contains_key(q) {
            assert(f1.contains(q));
            let k = choose|k: int| 0 <= k < f1.len() && f1[k] == q;
            assert(f0[k] == q);
        }
    }
}

/// The level-0 entry that `va` reaches from the root table `root`.
pub open spec fn leaf_entry(mem: &PhysMemory, root: u64, va: u64) -> Option<u64> {
    match leaf_table(mem, root, va) {
        None => None,
        Some(t0) => Some(entry(mem, t0, va_index(va, 0) as int)),
    }
}

proof fn lemma_leaf_entry_kept(pt: PageTable, m0: &PhysMemory, m1: &PhysMemory)
    requires
        pt.wf(m0),
        entries_kept(m0, m1, pt.tables()),
    ensures
        forall|v: u64|
            translate(m0, pt.addr, v) is Some ==> #[trigger] leaf_entry(m1, pt.addr, v)
                == leaf_entry(m0, pt.addr, v),
{
    lemma_translations_kept(pt, m0, m1);
    assert forall|v: u64| translate(m0, pt.addr, v) is Some implies #[trigger] leaf_entry(
        m1,
        pt.addr,
        v,
    ) == leaf_entry(m0, pt.addr, v) by {
        lemma_va_index_shape(v);
        let root = pt.addr;
        let lv = pt.tables();
        assert(leaf_table(m1, root, v) == leaf_table(m0, root, v));
        let t1 = pte_addr(entry(m0, root, va_index(v, 2) as int));
        assert(lv.contains_key(t1) && lv[t1] == 1);
        let t0 = leaf_table(m0, root, v)->Some_0;
        assert(lv.contains_key(t0) && lv[t0] == 0);
    }
}

impl PageTable {
    /// The physical address of the level-0 entry for `va`, reached through
    /// the root and a level-1 table. A missing table is allocated, zeroed and
    /// linked in when `alloc` holds; otherwise the walk stops with `None` and
    /// changes nothing. `None` with `alloc` means the allocator ran out.
    pub fn walk(
        &mut self,
        mem: &mut PhysMemory,
        kmem: &mut KernelMemory,
        va: VirtualAddr,
        alloc: bool,
    ) -> (r: Option<u64>)
        requires
            old(self).wf(old(mem)),
            old(self).apart_from(old(kmem), old(mem)),
        ensures
            final(self).addr == old(self).addr,
            final(self).wf(final(mem)),
            final(self).apart_from(final(kmem), final(mem)),
            tables_grow(old(self).tables(), final(self).tables()),
            entries_kept(old(mem), final(mem), old(self).tables()),
            final(kmem).range_start() == old(kmem).range_start(),
            final(kmem).range_end() == old(kmem).range_end(),
            !alloc || leaf_table(old(mem), old(self).addr, va.0) is Some ==> {
                &&& *final(mem) == *old(mem)
                &&& *final(kmem) == *old(kmem)
                &&& final(self).tables() == old(self).tables()
            },
            !alloc ==> (r is Some <==> leaf_table(old(mem), old(self).addr, va.0) is Some),
            r matches Some(s) ==> ({
                let t0 = leaf_table(final(mem), final(self).addr, va.0)->0;
                &&& leaf_table(final(mem), final(self).addr, va.0) is Some
                &&& s == t0 + 8 * va_index(va.0, 0)
                &&& final(self).tables().contains_key(t0)
                &&& final(self).tables()[t0] == 0
            }),
            alloc && r is None ==> final(kmem).free_list().len() == 0,
            alloc ==> (r is Some <==> old(kmem).free_list().len() >= tables_missing(
                old(mem),
                old(self).addr,
                va.0,
            )),
            alloc && r is Some ==> final(kmem).free_list() == old(kmem).free_list().take(
                old(kmem).free_list().len() - tables_missing(old(mem), old(self).addr, va.0),
            ),
            r is None ==> leaf_table(final(mem), old(self).addr, va.0) is None,
            same_translations(old(mem), final(mem), old(self).addr),
            links_bare(old(mem), final(mem), old(self).tables(), final(self).tables()),
            new_tables_zeroed(final(mem), old(self).tables(), final(self).tables()),
            new_tables_from(old(kmem).free_list(), old(self).tables(), final(self).tables()),
    {
        let ghost mem0 = *mem;
        let ghost lv0 = self.tables();
        let ghost f0 = kmem.free_list();
        let root = self.addr;
        proof {
            assert(!pte_valid(0u64)) by (bit_vector);
            lemma_va_index_shape(va.0);
            assert(f0 =~= f0.take(f0.len() as int));
        }
        let i2 = va.extract_index_at_level(2);
        let i1 = va.extract_index_at_level(1);
        let i0 = va.extract_index_at_level(0);
        let t1 = match self.descend(mem, kmem, root, i2, alloc, Ghost(2)) {
            Some(t) => t,
            None => {
                return None;
            },
        };
        let ghost mem1 = *mem;
        let ghost lv1 = self.tables();
        let ghost f1 = kmem.free_list();
        proof {
            if f0.len() > 0 {
                assert(f0.drop_last() =~= f0.take(f0.len() - 1));
            }
            if f0.len() > 1 {
                assert(f0.drop_last().drop_last() =~= f0.take(f0.len() - 2));
            }
        }
        let t0 = match self.descend(mem, kmem, t1, i1, alloc, Ghost(1)) {
            Some(t) => t,
            None => {
                proof {
                    lemma_entries_kept_trans(&mem0, &mem1, mem, lv0, lv1);
                    lemma_tables_grow_trans(lv0, lv1, self.tables());
                    lemma_same_translations_trans(&mem0, &mem1, mem, root);
                    assert(entry(mem, root, i2 as int) == entry(&mem1, root, i2 as int));
                }
                return None;
            },
        };
        proof {
            lemma_links_bare_trans(&mem0, &mem1, mem, lv0, lv1, self.tables());
            lemma_zeroed_trans(&mem1, mem, lv0, lv1, self.tables(), t1, i1 as int);
            assert(f1 == f0.take(f1.len() as int));
            lemma_from_trans(f0, f1, lv0, lv1, self.tables());
            lemma_entries_kept_trans(&mem0, &mem1, mem, lv0, lv1);
            lemma_tables_grow_trans(lv0, lv1, self.tables());
            lemma_same_translations_trans(&mem0, &mem1, mem, root);
            assert(entry(mem, root, i2 as int) == entry(&mem1, root, i2 as int));
            assert(leaf_table(mem, root, va.0) == Some(t0));
            assert(mem.holds_page(t0 as int));
        }
        let ghost lv_empty = Map::<u64, int>::empty();
        let table = PageTable { addr: t0, levels: Ghost(lv_empty) };
        Some(table.get_ref(i0))
    }
}


/// Each of the `size / 4096` pages from `va` translates to the matching page
/// from `pa`, with `flags`.
pub open spec fn range_mapped(
    mem: &PhysMemory,
    root: u64,
    va: int,
    size: int,
    pa: int,
    flags: u64,
) -> bool {
    forall|j: int|
        0 <= j < size / 4096 ==> #[trigger] translate(mem, root, (va + 4096 * j) as u64) == Some(
            ((pa + 4096 * j) as u64, flags),
        )
}

/// The level-0 entry of each of the `size / 4096` pages from `va` is the
/// entry for the matching page from `pa` with `flags`.
pub open spec fn range_encoded(
    mem: &PhysMemory,
    root: u64,
    va: int,
    size: int,
    pa: int,
    flags: u64,
) -> bool {
    forall|j: int|
        0 <= j < size / 4096 ==> #[trigger] leaf_entry(mem, root, (va + 4096 * j) as u64) == Some(
            pte_encode((pa + 4096 * j) as u64, flags),
        )
}

/// Every address that translates under `before` translates the same way
/// under `after`.
pub open spec fn translations_kept(before: &PhysMemory, after: &PhysMemory, root: u64) -> bool {
    forall|v: u64| #[trigger]
        translate(before, root, v) is Some ==> translate(after, root, v) == translate(
            before,
            root,
            v,
        )
}

proof fn lemma_translations_kept(pt: PageTable, m0: &PhysMemory, m1: &PhysMemory)
    requires
        pt.wf(m0),
        entries_kept(m0, m1, pt.tables()),
    ensures
        translations_kept(m0, m1, pt.addr),
        forall|v: u64| #[trigger]
            leaf_table(m0, pt.addr, v) is Some ==> leaf_table(m1, pt.addr, v) == leaf_table(
                m0,
                pt.addr,
                v,
            ),
{
    let root = pt.addr;
    let lv = pt.tables();
    assert forall|v: u64| #[trigger]
        leaf_table(m0, root, v) is Some implies leaf_table(m1, root, v) == leaf_table(
            m0,
            root,
            v,
        ) by {
        let i2 = va_index(v, 2) as int;
        let i1 = va_index(v, 1) as int;
        lemma_va_index_shape(v);
        assert(entry(m1, root, i2) == entry(m0, root, i2));
        let t1 = pte_addr(entry(m0, root, i2));
        assert(lv.contains_key(t1) && lv[t1] == 1);
        assert(entry(m1, t1, i1) == entry(m0, t1, i1));
    }
    assert forall|v: u64| #[trigger]
        translate(m0, root, v) is Some implies translate(m1, root, v) == translate(m0, root, v) by {
        let i2 = va_index(v, 2) as int;
        let i1 = va_index(v, 1) as int;
        let i0 = va_index(v, 0) as int;
        lemma_va_index_shape(v);
        assert(leaf_table(m0, root, v) is Some);
        assert(entry(m1, root, i2) == entry(m0, root, i2));
        let t1 = pte_addr(entry(m0, root, i2));
        assert(lv.contains_key(t1) && lv[t1] == 1);
        assert(entry(m1, t1, i1) == entry(m0, t1, i1));
        let t0 = pte_addr(entry(m0, t1, i1));
        assert(lv.contains_key(t0) && lv[t0] == 0);
        assert(entry(m1, t0, i0) == entry(m0, t0, i0));
    }
}

proof fn lemma_translations_kept_trans(m0: &PhysMemory, m1: &PhysMemory, m2: &PhysMemory, root: u64)
    requires
        translations_kept(m0, m1, root),
        translations_kept(m1, m2, root),
    ensures
        translations_kept(m0, m2, root),
{
    assert forall|v: u64| #[trigger]
        translate(m0, root, v) is Some implies translate(m2, root, v) == translate(m0, root, v) by {
        assert(translate(m1, root, v) == translate(m0, root, v));
    }
}

/// Two addresses that reach the same level-0 table went through the same
/// root and level-1 entries.
proof fn lemma_leaf_slot_unique(pt: PageTable, mem: &PhysMemory, v: u64, w: u64)
    requires
        pt.wf(mem),
        leaf_table(mem, pt.addr, v) is Some,
        leaf_table(mem, pt.addr, v) == leaf_table(mem, pt.addr, w),
    ensures
        va_index(v, 2) == va_index(w, 2),
        va_index(v, 1) == va_index(w, 1),
{
    lemma_va_index_shape(v);
    lemma_va_index_shape(w);
    let root = pt.addr;
    let lv = pt.tables();
    let i2v = va_index(v, 2) as int;
    let i2w = va_index(w, 2) as int;
    let i1v = va_index(v, 1) as int;
    let i1w = va_index(w, 1) as int;
    let t1v = pte_addr(entry(mem, root, i2v));
    let t1w = pte_addr(entry(mem, root, i2w));
    assert(lv.contains_key(t1v) && lv[t1v] == 1);
    assert(lv.contains_key(t1w) && lv[t1w] == 1);
    assert(pte_valid(entry(mem, t1v, i1v)) && pte_valid(entry(mem, t1w, i1w)));
    assert(t1v == t1w && i1v == i1w);
    assert(i2v == i2w);
}

/// Writing the level-0 entry of `a` changes the translation of no address
/// outside the page of `a`.
proof fn lemma_leaf_write_frame(
    pt: PageTable,
    before: &PhysMemory,
    after: &PhysMemory,
    a: u64,
    t0: u64,
)
    requires
        pt.wf(before),
        leaf_table(before, pt.addr, a) == Some(t0),
        a % 4096 == 0,
        a < 0x80_0000_0000u64,
        pt.tables().contains_key(t0),
        pt.tables()[t0] == 0,
        forall|u: u64, i: int|
            pt.tables().contains_key(u) && 0 <= i < 512 && !(u == t0 && i == va_index(a, 0))
                ==> #[trigger] entry(after, u, i) == entry(before, u, i),
    ensures
        forall|v: u64|
            v < 0x80_0000_0000u64 && !(a <= v < a + 4096) ==> #[trigger] translate(
                after,
                pt.addr,
                v,
            ) == translate(before, pt.addr, v),
{
    let root = pt.addr;
    let lv = pt.tables();
    assert forall|v: u64|
        v < 0x80_0000_0000u64 && !(a <= v < a + 4096) implies #[trigger] translate(
        after,
        root,
        v,
    ) == translate(before, root, v) by {
        lemma_va_index_shape(v);
        lemma_va_index_shape(a);
        let i2 = va_index(v, 2) as int;
        let i1 = va_index(v, 1) as int;
        let i0 = va_index(v, 0) as int;
        assert(entry(after, root, i2) == entry(before, root, i2));
        if pte_valid(entry(before, root, i2)) {
            let t1 = pte_addr(entry(before, root, i2));
            assert(lv.contains_key(t1) && lv[t1] == 1);
            assert(entry(after, t1, i1) == entry(before, t1, i1));
            if pte_valid(entry(before, t1, i1)) {
                let u0 = pte_addr(entry(before, t1, i1));
                assert(lv.contains_key(u0) && lv[u0] == 0);
                if u0 == t0 && i0 == va_index(a, 0) {
                    lemma_leaf_slot_unique(pt, before, v, a);
                    lemma_same_page(v, a);
                }
                assert(entry(after, u0, i0) == entry(before, u0, i0));
            }
        }
    }
}

/// Writing any value into entry `i0` of the level-0 table `t0` keeps the
/// tree well formed and every other entry of its tables.
proof fn lemma_leaf_written(pt: PageTable, before: &PhysMemory, after: &PhysMemory, t0: u64, i0: int)
    requires
        pt.wf(before),
        pt.tables().contains_key(t0),
        pt.tables()[t0] == 0,
        0 <= i0 < 512,
        !pte_valid(entry(before, t0, i0)),
        after.wf(),
        before.same_outside(
            after,
            before.index_of(t0 as int) + i0,
            before.index_of(t0 as int) + i0 + 1,
        ),
    ensures
        pt.wf(after),
        entries_kept(before, after, pt.tables()),
        links_bare(before, after, pt.tables(), pt.tables()),
        forall|u: u64, i: int|
            pt.tables().contains_key(u) && 0 <= i < 512 && !(u == t0 && i == i0)
                ==> #[trigger] entry(after, u, i) == entry(before, u, i),
{
    let lv = pt.tables();
    assert forall|u: u64, i: int| lv.contains_key(u) && 0 <= i < 512 && !(u == t0 && i == i0)
        implies #[trigger] entry(after, u, i) == entry(before, u, i) by {
        lemma_page_index(before, u as int);
        lemma_page_index(before, t0 as int);
        if u != t0 {
            lemma_pages_disjoint(before, u as int, t0 as int);
            assert(before.index_of(u as int) + i < before.index_of(t0 as int) || before.index_of(
                u as int,
            ) + i >= before.index_of(t0 as int) + 512);
        }
    }
    assert forall|u: u64, i: int|
        lv.contains_key(u) && lv[u] > 0 && 0 <= i < 512 && pte_valid(#[trigger] entry(after, u, i))
            implies lv.contains_key(pte_addr(entry(after, u, i))) && lv[pte_addr(
        entry(after, u, i),
    )] == lv[u] - 1 by {
        assert(u != t0);
        assert(entry(after, u, i) == entry(before, u, i));
    }
    assert forall|t: u64, i: int, u: u64, j: int|
        lv.contains_key(t) && lv[t] > 0 && lv.contains_key(u) && lv[u] > 0 && 0 <= i < 512 && 0
            <= j < 512 && pte_valid(#[trigger] entry(after, t, i)) && pte_valid(
            #[trigger] entry(after, u, j),
        ) && pte_addr(entry(after, t, i)) == pte_addr(entry(after, u, j)) implies t == u && i
        == j by {
        assert(entry(after, t, i) == entry(before, t, i));
        assert(entry(after, u, j) == entry(before, u, j));
    }
}

impl PageTable {
    /// Maps the `size / 4096` pages from `virtual_addr` to the pages from
    /// `physical_address`, each with `perm` and the valid bit. A misaligned
    /// range, an empty one, or one holding a page that is mapped already is
    /// refused; a page already mapped is never overwritten.
    #[verifier::rlimit(100)]
    pub fn map_pages(
        &mut self,
        mem: &mut PhysMemory,
        kmem: &mut KernelMemory,
        virtual_addr: u64,
        size: u64,
        physical_address: u64,
        perm: u64,
    ) -> (r: Result<(), MapFault>)
        requires
            old(self).wf(old(mem)),
            old(self).apart_from(old(kmem), old(mem)),
            virtual_addr + size <= crate::layout::VA_SPACE,
            physical_address + size <= crate::layout::PA_SPACE,
            perm < 1024,
        ensures
            final(self).addr == old(self).addr,
            final(self).wf(final(mem)),
            final(self).apart_from(final(kmem), final(mem)),
            tables_grow(old(self).tables(), final(self).tables()),
            final(kmem).range_start() == old(kmem).range_start(),
            final(kmem).range_end() == old(kmem).range_end(),
            r == Err::<(), MapFault>(MapFault::Misaligned) <==> (virtual_addr % 4096 != 0 || size
                % 4096 != 0 || size == 0),
            r == Err::<(), MapFault>(MapFault::Misaligned) ==> {
                &&& *final(mem) == *old(mem)
                &&& *final(kmem) == *old(kmem)
                &&& final(self).tables() == old(self).tables()
            },
            r == Err::<(), MapFault>(MapFault::Remap) <==> r != Err::<(), MapFault>(
                MapFault::Misaligned,
            ) && (exists|j: int|
                0 <= j < size / 4096 && #[trigger] translate(
                    old(mem),
                    old(self).addr,
                    (virtual_addr + 4096 * j) as u64,
                ) is Some),
            r == Err::<(), MapFault>(MapFault::Remap) ==> *final(mem) == *old(mem) && *final(kmem)
                == *old(kmem),
            r is Ok ==> range_mapped(
                final(mem),
                old(self).addr,
                virtual_addr as int,
                size as int,
                page_floor(physical_address as int),
                perm | 1,
            ),
            r is Ok ==> range_encoded(
                final(mem),
                old(self).addr,
                virtual_addr as int,
                size as int,
                physical_address as int,
                perm | 1,
            ),
            entries_kept(old(mem), final(mem), old(self).tables()),
            links_bare(old(mem), final(mem), old(self).tables(), final(self).tables()),
            new_tables_from(old(kmem).free_list(), old(self).tables(), final(self).tables()),
            final(kmem).free_list() == old(kmem).free_list().take(
                final(kmem).free_list().len() as int,
            ),
            final(kmem).free_list().len() <= old(kmem).free_list().len(),
            r is Ok ==> final(kmem).free_list().len() + 2 * (size / 4096) >= old(
                kmem,
            ).free_list().len(),
            translations_kept(old(mem), final(mem), old(self).addr),
            forall|v: u64|
                v < crate::layout::VA_SPACE && !(virtual_addr <= v < virtual_addr + size)
                    ==> #[trigger] translate(final(mem), old(self).addr, v) == translate(
                    old(mem),
                    old(self).addr,
                    v,
                ),
            r == Err::<(), MapFault>(MapFault::OutOfMemory) ==> {
                &&& final(kmem).free_list().len() == 0
                &&& exists|j: int|
                    0 <= j < size / 4096 && #[trigger] leaf_table(
                        final(mem),
                        old(self).addr,
                        (virtual_addr + 4096 * j) as u64,
                    ) is None
            },
            virtual_addr % 4096 == 0 && size % 4096 == 0 && size > 0 && (forall|j: int|
                0 <= j < size / 4096 ==> #[trigger] translate(
                    old(mem),
                    old(self).addr,
                    (virtual_addr + 4096 * j) as u64,
                ) is None) && old(kmem).free_list().len() >= 2 * (size / 4096) ==> r is Ok,
    {
        if virtual_addr % PAGE_SIZE != 0 || size % PAGE_SIZE != 0 || size == 0 {
            return Err(MapFault::Misaligned);
        }
        let ghost mem0 = *mem;
        let ghost root = self.addr;
        let ghost lv0 = self.tables();
        let ghost f0 = kmem.free_list();
        let n = size / PAGE_SIZE;
        // Refuse the whole range before changing anything if a page of it is
        // mapped already.
        let mut j: u64 = 0;
        while j < n
            invariant
                self.wf(mem),
                self.apart_from(kmem, mem),
                *mem == mem0,
                *mem == *old(mem),
                *kmem == *old(kmem),
                self.addr == root,
                root == old(self).addr,
                self.tables() == lv0,
                lv0 == old(self).tables(),
                n == size / 4096,
                virtual_addr % 4096 == 0,
                size % 4096 == 0,
                size > 0,
                virtual_addr + size <= crate::layout::VA_SPACE,
                j <= n,
                forall|k: int|
                    0 <= k < j ==> #[trigger] translate(mem, root, (virtual_addr + 4096 * k) as u64)
                        is None,
            decreases n - j,
        {
            let va = VirtualAddr(virtual_addr + j * PAGE_SIZE);
            match self.walk(mem, kmem, va, false) {
                None => {},
                Some(slot) => {
                    proof {
                        let t0 = leaf_table(mem, root, va.0)->0;
                        lemma_page_index(mem, t0 as int);
                        lemma_va_index_shape(va.0);
                    }
                    if PageTableEntry(mem.read_word(slot)).is_valid() {
                        proof {
                            let t0 = leaf_table(mem, root, va.0)->0;
                            let ji = j as int;
                            assert(entry(mem, t0, va_index(va.0, 0) as int) == mem.word(slot as int));
                            assert(va.0 == (virtual_addr + 4096 * ji) as u64);
                            assert(translate(mem, root, (virtual_addr + 4096 * ji) as u64) is Some);
                        }
                        return Err(MapFault::Remap);
                    }
                },
            }
            j = j + 1;
        }
        assert(forall|k: int|
            0 <= k < size / 4096 ==> #[trigger] translate(
                &mem0,
                root,
                (virtual_addr + 4096 * k) as u64,
            ) is None);
        let flags = perm | FLAG_VALID;
        proof {
            assert(perm | 1 < 1024 && (perm | 1) & 1 != 0) by (bit_vector)
                requires
                    perm < 1024,
            ;
        }
        let mut j: u64 = 0;
        while j < n
            invariant
                self.wf(mem),
                self.apart_from(kmem, mem),
                self.addr == root,
                root == old(self).addr,
                lv0 == old(self).tables(),
                mem0 == *old(mem),
                f0 == old(kmem).free_list(),
                tables_grow(lv0, self.tables()),
                entries_kept(&mem0, mem, lv0),
                links_bare(&mem0, mem, lv0, self.tables()),
                new_tables_from(f0, lv0, self.tables()),
                kmem.free_list().len() <= f0.len(),
                kmem.free_list() == f0.take(kmem.free_list().len() as int),
                kmem.free_list().len() + 2 * j >= f0.len(),
                physical_address + size <= crate::layout::PA_SPACE,
                forall|k: int|
                    0 <= k < j ==> #[trigger] leaf_entry(mem, root, (virtual_addr + 4096 * k) as u64)
                        == Some(pte_encode((physical_address + 4096 * k) as u64, flags)),
                kmem.range_start() == old(kmem).range_start(),
                kmem.range_end() == old(kmem).range_end(),
                n == size / 4096,
                size % 4096 == 0,
                virtual_addr % 4096 == 0,
                size > 0,
                forall|k: int|
                    0 <= k < size / 4096 ==> #[trigger] translate(
                        &mem0,
                        root,
                        (virtual_addr + 4096 * k) as u64,
                    ) is None,
                virtual_addr + size <= crate::layout::VA_SPACE,
                physical_address + size <= u64::MAX,
                j <= n,
                flags == perm | 1,
                flags < 1024,
                flags & 1 != 0,
                translations_kept(&mem0, mem, root),
                forall|v: u64|
                    v < crate::layout::VA_SPACE && !(virtual_addr <= v < virtual_addr + size)
                        ==> #[trigger] translate(mem, root, v) == translate(&mem0, root, v),
                forall|k: int|
                    j <= k < n ==> #[trigger] translate(mem, root, (virtual_addr + 4096 * k) as u64)
                        is None,
                forall|k: int|
                    0 <= k < j ==> #[trigger] translate(mem, root, (virtual_addr + 4096 * k) as u64)
                        == Some(
                        ((page_floor(physical_address as int) + 4096 * k) as u64, flags),
                    ),
            decreases n - j,
        {
            let ghost mem1 = *mem;
            let ghost pt1 = *self;
            let ghost ja = j as int;
            let ghost fl1 = kmem.free_list();
            assert(forall|k: int|
                0 <= k < ja ==> #[trigger] leaf_entry(&mem1, root, (virtual_addr + 4096 * k) as u64)
                    == Some(pte_encode((physical_address + 4096 * k) as u64, flags)));
            assert(forall|k: int|
                0 <= k < ja ==> #[trigger] translate(&mem1, root, (virtual_addr + 4096 * k) as u64)
                    == Some(((page_floor(physical_address as int) + 4096 * k) as u64, flags)));
            let a = virtual_addr + j * PAGE_SIZE;
            let p = physical_address + j * PAGE_SIZE;
            let va = VirtualAddr(a);
            let slot = match self.walk(mem, kmem, va, true) {
                None => {
                    proof {
                        lemma_translations_kept(pt1, &mem1, mem);
                        lemma_translations_kept_trans(&mem0, &mem1, mem, root);
                        lemma_tables_grow_trans(lv0, pt1.tables(), self.tables());
                        lemma_entries_kept_trans(&mem0, &mem1, mem, lv0, pt1.tables());
                        lemma_links_bare_trans(&mem0, &mem1, mem, lv0, pt1.tables(), self.tables());
                        lemma_from_trans(f0, fl1, lv0, pt1.tables(), self.tables());
                        assert(kmem.free_list() =~= f0.take(0));
                        assert(a == (virtual_addr + 4096 * ja) as u64);
                        assert(leaf_table(mem, root, (virtual_addr + 4096 * ja) as u64) is None);
                    }
                    return Err(MapFault::OutOfMemory);
                },
                Some(s) => s,
            };
            let ghost mem2 = *mem;
            let ghost pt2 = *self;
            let ghost t0 = leaf_table(mem, root, a)->0;
            let ghost i0 = va_index(a, 0) as int;
            proof {
                lemma_translations_kept(pt1, &mem1, mem);
                lemma_translations_kept_trans(&mem0, &mem1, mem, root);
                lemma_tables_grow_trans(lv0, pt1.tables(), self.tables());
                lemma_entries_kept_trans(&mem0, &mem1, mem, lv0, pt1.tables());
                lemma_links_bare_trans(&mem0, &mem1, mem, lv0, pt1.tables(), self.tables());
                lemma_from_trans(f0, fl1, lv0, pt1.tables(), self.tables());
                lemma_leaf_entry_kept(pt1, &mem1, mem);
                assert(kmem.free_list() =~= f0.take(kmem.free_list().len() as int));
                lemma_page_index(mem, t0 as int);
                lemma_va_index_shape(a);
            }
            proof {
                assert(translate(mem, root, (virtual_addr + 4096 * ja) as u64) == translate(
                    &mem1,
                    root,
                    (virtual_addr + 4096 * ja) as u64,
                ));
                assert(!pte_valid(entry(mem, t0, i0)));
            }
            if PageTableEntry(mem.read_word(slot)).is_valid() {
                return Err(MapFault::Remap);
            }
            let e = PageTableEntry::new(p, flags);
            mem.write_word(slot, e.0);
            proof {
                let lv = self.tables();
                assert(entry(mem, t0, i0) == e.0);
                lemma_leaf_written(pt2, &mem2, mem, t0, i0);
                assert(self.wf(mem));
                lemma_entries_kept_trans(&mem0, &mem2, mem, lv0, lv);
                lemma_links_bare_trans(&mem0, &mem2, mem, lv0, lv, lv);
                lemma_leaf_entry_kept(pt2, &mem2, mem);
                lemma_translations_kept(pt2, &mem2, mem);
                lemma_translations_kept_trans(&mem0, &mem2, mem, root);
                assert(lv.contains_key(t0) && lv[t0] == 0);
                lemma_leaf_write_frame(pt2, &mem2, mem, a, t0);
                assert forall|v: u64|
                    v < crate::layout::VA_SPACE && !(virtual_addr <= v < virtual_addr + size)
                        implies #[trigger] translate(mem, root, v) == translate(&mem0, root, v) by {
                    assert(translate(&mem2, root, v) == translate(&mem1, root, v));
                    assert(translate(&mem1, root, v) == translate(&mem0, root, v));
                }
                assert forall|k: int| ja + 1 <= k < n implies #[trigger] translate(
                    mem,
                    root,
                    (virtual_addr + 4096 * k) as u64,
                ) is None by {
                    let vk = (virtual_addr + 4096 * k) as u64;
                    assert(translate(&mem1, root, vk) is None);
                    assert(translate(&mem2, root, vk) == translate(&mem1, root, vk));
                    assert(translate(mem, root, vk) == translate(&mem2, root, vk));
                }
                // The new entry is reached through the same two tables.
                let i2 = va_index(a, 2) as int;
                let i1 = va_index(a, 1) as int;
                let t1 = pte_addr(entry(&mem2, root, i2));
                assert(lv.contains_key(t1) && lv[t1] == 1);
                assert(entry(mem, root, i2) == entry(&mem2, root, i2));
                assert(entry(mem, t1, i1) == entry(&mem2, t1, i1));
                assert(leaf_table(mem, root, a) == Some(t0));
                assert(leaf_entry(mem, root, (virtual_addr + 4096 * ja) as u64) == Some(
                    pte_encode((physical_address + 4096 * ja) as u64, flags),
                ));
                assert forall|k: int| 0 <= k < ja + 1 implies #[trigger] leaf_entry(
                    mem,
                    root,
                    (virtual_addr + 4096 * k) as u64,
                ) == Some(pte_encode((physical_address + 4096 * k) as u64, flags)) by {
                    if k < ja {
                        let vk = (virtual_addr + 4096 * k) as u64;
                        assert(translate(&mem1, root, vk) is Some);
                        assert(leaf_entry(&mem2, root, vk) == leaf_entry(&mem1, root, vk));
                        assert(translate(&mem2, root, vk) is Some);
                        assert(leaf_entry(mem, root, vk) == leaf_entry(&mem2, root, vk));
                    }
                }
                assert(p - p % 4096 == page_floor(physical_address as int) + 4096 * ja) by (
                nonlinear_arith)
                    requires
                        p == physical_address + 4096 * ja,
                ;
                assert(translate(mem, root, (virtual_addr + 4096 * ja) as u64) == Some(
                    ((page_floor(physical_address as int) + 4096 * ja) as u64, flags),
                ));
                assert forall|k: int| 0 <= k < ja + 1 implies #[trigger] translate(
                    mem,
                    root,
                    (virtual_addr + 4096 * k) as u64,
                ) == Some(((page_floor(physical_address as int) + 4096 * k) as u64, flags)) by {
                    if k < ja {
                        let vk = (virtual_addr + 4096 * k) as u64;
                        assert(translate(&mem1, root, vk) == Some(
                            ((page_floor(physical_address as int) + 4096 * k) as u64, flags),
                        ));
                        assert(translate(&mem2, root, vk) == translate(&mem1, root, vk));
                        assert(translate(mem, root, vk) == translate(&mem2, root, vk));
                    }
                }
            }
            j = j + 1;
        }
        Ok(())
    }
}


/// The shared kernel mapping is in place under `root`: the devices read and
/// write, the kernel text `[KERNEL_START, etext)` read and execute, and the
/// rest of memory up to `PHYS_STOP` read and write, each mapped to itself.
pub open spec fn kernel_mapped(mem: &PhysMemory, root: u64, etext: u64) -> bool {
    let rw = FLAG_READ | FLAG_WRITE | FLAG_VALID;
    let rx = FLAG_EXEC | FLAG_READ | FLAG_VALID;
    &&& range_mapped(mem, root, UART_LOC0 as int, PAGE_SIZE as int, UART_LOC0 as int, rw)
    &&& range_mapped(mem, root, VIRTIO0 as int, PAGE_SIZE as int, VIRTIO0 as int, rw)
    &&& range_mapped(mem, root, PLIC as int, PLIC_SIZE as int, PLIC as int, rw)
    &&& range_mapped(
        mem,
        root,
        KERNEL_START as int,
        etext - KERNEL_START,
        KERNEL_START as int,
        rx,
    )
    &&& range_mapped(mem, root, etext as int, PHYS_STOP - etext, etext as int, rw)
}

proof fn lemma_range_mapped_kept(
    m0: &PhysMemory,
    m1: &PhysMemory,
    root: u64,
    va: int,
    size: int,
    pa: int,
    flags: u64,
)
    requires
        range_mapped(m0, root, va, size, pa, flags),
        translations_kept(m0, m1, root),
    ensures
        range_mapped(m1, root, va, size, pa, flags),
{
    assert forall|j: int| 0 <= j < size / 4096 implies #[trigger] translate(
        m1,
        root,
        (va + 4096 * j) as u64,
    ) == Some(((pa + 4096 * j) as u64, flags)) by {
        assert(translate(m0, root, (va + 4096 * j) as u64) is Some);
    }
}

/// No address of `[lo, hi)` translates under `root`.
pub open spec fn unmapped_in(mem: &PhysMemory, root: u64, lo: int, hi: int) -> bool {
    forall|v: u64| lo <= v < hi ==> #[trigger] translate(mem, root, v) is None
}

proof fn lemma_unmapped_kept(
    m0: &PhysMemory,
    m1: &PhysMemory,
    root: u64,
    lo: int,
    hi: int,
    a: int,
    b: int,
)
    requires
        unmapped_in(m0, root, lo, hi),
        hi <= 0x80_0000_0000,
        hi <= a || b <= lo,
        forall|v: u64|
            v < 0x80_0000_0000u64 && !(a <= v < b) ==> #[trigger] translate(m1, root, v)
                == translate(m0, root, v),
    ensures
        unmapped_in(m1, root, lo, hi),
{
    assert forall|v: u64| lo <= v < hi implies #[trigger] translate(m1, root, v) is None by {
        assert(translate(m0, root, v) is None);
    }
}

/// `v` lies in a range of the kernel mapping: the UART or virtio window, the
/// interrupt controller, or physical memory from `KERNEL_START` to
/// `PHYS_STOP`.
pub open spec fn in_kernel_map(v: int) -> bool {
    ||| UART_LOC0 <= v < UART_LOC0 + PAGE_SIZE
    ||| VIRTIO0 <= v < VIRTIO0 + PAGE_SIZE
    ||| PLIC <= v < PLIC + PLIC_SIZE
    ||| KERNEL_START <= v < PHYS_STOP
}

/// No address of the Sv39 space outside the kernel mapping translates.
pub open spec fn only_kernel_mapped(mem: &PhysMemory, root: u64) -> bool {
    forall|v: u64|
        v < crate::layout::VA_SPACE && !in_kernel_map(v as int) ==> #[trigger] translate(
            mem,
            root,
            v,
        ) is None
}

/// The leaf entries of the kernel mapping are exactly the identity entries
/// with the mapping's permissions and the valid bit.
pub open spec fn kernel_encoded(mem: &PhysMemory, root: u64, etext: u64) -> bool {
    let rw = FLAG_READ | FLAG_WRITE | FLAG_VALID;
    let rx = FLAG_EXEC | FLAG_READ | FLAG_VALID;
    &&& range_encoded(mem, root, UART_LOC0 as int, PAGE_SIZE as int, UART_LOC0 as int, rw)
    &&& range_encoded(mem, root, VIRTIO0 as int, PAGE_SIZE as int, VIRTIO0 as int, rw)
    &&& range_encoded(mem, root, PLIC as int, PLIC_SIZE as int, PLIC as int, rw)
    &&& range_encoded(
        mem,
        root,
        KERNEL_START as int,
        etext - KERNEL_START,
        KERNEL_START as int,
        rx,
    )
    &&& range_encoded(mem, root, etext as int, PHYS_STOP - etext, etext as int, rw)
}

/// Free pages that always suffice to build the kernel mapping: the root
/// table and two tables for each mapped page.
pub const KERNEL_MAP_PAGES: usize = 98309;

proof fn lemma_range_encoded_kept(
    pt: PageTable,
    m0: &PhysMemory,
    m1: &PhysMemory,
    va: int,
    size: int,
    flags: u64,
)
    requires
        pt.wf(m0),
        entries_kept(m0, m1, pt.tables()),
        range_mapped(m0, pt.addr, va, size, va, flags),
        range_encoded(m0, pt.addr, va, size, va, flags),
    ensures
        range_encoded(m1, pt.addr, va, size, va, flags),
{
    lemma_leaf_entry_kept(pt, m0, m1);
    assert forall|j: int| 0 <= j < size / 4096 implies #[trigger] leaf_entry(
        m1,
        pt.addr,
        (va + 4096 * j) as u64,
    ) == Some(pte_encode((va + 4096 * j) as u64, flags)) by {
        assert(translate(m0, pt.addr, (va + 4096 * j) as u64) is Some);
    }
}

proof fn lemma_rest_unmapped_kept(m0: &PhysMemory, m1: &PhysMemory, root: u64, a: int, b: int)
    requires
        only_kernel_mapped(m0, root),
        forall|v: u64|
            v < 0x80_0000_0000u64 && !(a <= v < b) ==> #[trigger] translate(m1, root, v)
                == translate(m0, root, v),
        forall|v: int| a <= v < b ==> in_kernel_map(v),
    ensures
        only_kernel_mapped(m1, root),
{
    assert forall|v: u64|
        v < crate::layout::VA_SPACE && !in_kernel_map(v as int) implies #[trigger] translate(
        m1,
        root,
        v,
    ) is None by {
        assert(!(a <= v < b));
        assert(translate(m0, root, v) is None);
    }
}

/// One range of the kernel mapping: `[start, start + size)`, not mapped yet,
/// mapped to itself with `perm`.
fn map_identity(
    t: &mut PageTable,
    mem: &mut PhysMemory,
    kmem: &mut KernelMemory,
    start: u64,
    size: u64,
    perm: u64,
) -> (r: Result<(), MapFault>)
    requires
        old(t).wf(old(mem)),
        old(t).apart_from(old(kmem), old(mem)),
        start % 4096 == 0,
        size % 4096 == 0,
        size > 0,
        start + size <= crate::layout::VA_SPACE,
        perm < 1024,
        unmapped_in(old(mem), old(t).addr, start as int, start + size),
    ensures
        final(t).addr == old(t).addr,
        final(t).wf(final(mem)),
        final(t).apart_from(final(kmem), final(mem)),
        tables_grow(old(t).tables(), final(t).tables()),
        entries_kept(old(mem), final(mem), old(t).tables()),
        translations_kept(old(mem), final(mem), old(t).addr),
        forall|v: u64|
            v < crate::layout::VA_SPACE && !(start <= v < start + size) ==> #[trigger] translate(
                final(mem),
                old(t).addr,
                v,
            ) == translate(old(mem), old(t).addr, v),
        r is Ok || r == Err::<(), MapFault>(MapFault::OutOfMemory),
        r is Ok ==> {
            &&& range_mapped(final(mem), old(t).addr, start as int, size as int, start as int, perm | 1)
            &&& range_encoded(final(mem), old(t).addr, start as int, size as int, start as int, perm | 1)
            &&& final(kmem).free_list().len() + 2 * (size / 4096) >= old(kmem).free_list().len()
        },
        old(kmem).free_list().len() >= 2 * (size / 4096) ==> r is Ok,
        r == Err::<(), MapFault>(MapFault::OutOfMemory) ==> final(kmem).free_list().len() == 0,
{
    proof {
        assert forall|j: int| 0 <= j < size / 4096 implies #[trigger] translate(
            mem,
            t.addr,
            (start + 4096 * j) as u64,
        ) is None by {
            assert(start <= start + 4096 * j < start + size);
        }
        assert(page_floor(start as int) == start);
    }
    let ghost m0 = *mem;
    let ghost root = t.addr;
    let r = t.map_pages(mem, kmem, start, size, start, perm);
    proof {
        if r == Err::<(), MapFault>(MapFault::Remap) {
            let j = choose|j: int|
                0 <= j < size / 4096 && #[trigger] translate(&m0, root, (start + 4096 * j) as u64)
                    is Some;
            assert(translate(&m0, root, (start + 4096 * j) as u64) is None);
        }
        assert(r != Err::<(), MapFault>(MapFault::Misaligned));
        assert(r != Err::<(), MapFault>(MapFault::Remap));
        match r {
            Ok(()) => {},
            Err(e) => {
                assert(e != MapFault::Misaligned && e != MapFault::Remap);
                assert(e is OutOfMemory);
            },
        }
    }
    r
}

/// Builds the kernel's address space in a fresh root table; `etext` is the
/// end of the kernel text. The devices are mapped read and write, the text
/// read and execute, the rest of memory read and write, each to itself, and
/// nothing else; the result fails only on a misplaced `etext` or when the
/// allocator runs out.
#[verifier::rlimit(100)]
pub fn kvm_make(kmem: &mut KernelMemory, mem: &mut PhysMemory, etext: u64) -> (r: Result<
    PageTable,
    MapFault,
>)
    requires
        old(kmem).wf(),
        old(kmem).inside(old(mem)),
        KERNEL_START <= etext <= PHYS_STOP,
    ensures
        final(kmem).wf(),
        final(kmem).inside(final(mem)),
        r matches Ok(t) ==> {
            &&& t.wf(final(mem))
            &&& t.apart_from(final(kmem), final(mem))
            &&& kernel_mapped(final(mem), t.addr, etext)
            &&& kernel_encoded(final(mem), t.addr, etext)
            &&& only_kernel_mapped(final(mem), t.addr)
        },
        r == Err::<PageTable, MapFault>(MapFault::Misaligned) <==> (etext % 4096 != 0 || etext
            == KERNEL_START || etext == PHYS_STOP),
        r == Err::<PageTable, MapFault>(MapFault::OutOfMemory) ==> final(kmem).free_list().len()
            == 0,
        r != Err::<PageTable, MapFault>(MapFault::Remap),
        old(kmem).free_list().len() >= KERNEL_MAP_PAGES ==> r is Ok || r == Err::<
            PageTable,
            MapFault,
        >(MapFault::Misaligned),
{
    if etext == KERNEL_START || etext == PHYS_STOP || etext % PAGE_SIZE != 0 {
        return Err(MapFault::Misaligned);
    }
    let ghost len0 = kmem.free_list().len();
    let mut t = match PageTable::new(kmem, mem) {
        Some(t) => t,
        None => {
            return Err(MapFault::OutOfMemory);
        },
    };
    let rw = FLAG_READ | FLAG_WRITE;
    let rx = FLAG_EXEC | FLAG_READ;
    assert(rw | 1 == FLAG_READ | FLAG_WRITE | FLAG_VALID && rx | 1 == FLAG_EXEC | FLAG_READ
        | FLAG_VALID && rw < 1024 && rx < 1024) by (bit_vector)
        requires
            rw == FLAG_READ | FLAG_WRITE,
            rx == FLAG_EXEC | FLAG_READ,
    ;
    let ghost root = t.addr;
    let text = etext - KERNEL_START;
    let ghost uart = UART_LOC0 as int;
    let ghost virtio = VIRTIO0 as int;
    let ghost plic = PLIC as int;
    let ghost kstart = KERNEL_START as int;
    let ghost etx = etext as int;
    let ghost stop = PHYS_STOP as int;
    proof {
        assert(text / 4096 + (PHYS_STOP - etext) / 4096 == 32768) by (nonlinear_arith)
            requires
                text == etext - 0x8000_0000,
                etext % 4096 == 0,
                0x8000_0000 <= etext <= 0x8800_0000,
        ;
    }
    let ghost m0 = *mem;
    let ghost p0 = t;
    match map_identity(&mut t, mem, kmem, UART_LOC0, PAGE_SIZE, rw) {
        Ok(()) => {},
        Err(e) => {
            return Err(e);
        },
    }
    proof {
        lemma_unmapped_kept(&m0, mem, root, virtio, virtio + 4096, uart, uart + 4096);
        lemma_unmapped_kept(&m0, mem, root, plic, plic + PLIC_SIZE, uart, uart + 4096);
        lemma_unmapped_kept(&m0, mem, root, kstart, etx, uart, uart + 4096);
        lemma_unmapped_kept(&m0, mem, root, etx, stop, uart, uart + 4096);
        lemma_rest_unmapped_kept(&m0, mem, root, uart, uart + 4096);
    }
    let ghost m1 = *mem;
    let ghost p1 = t;
    match map_identity(&mut t, mem, kmem, VIRTIO0, PAGE_SIZE, rw) {
        Ok(()) => {},
        Err(e) => {
            return Err(e);
        },
    }
    proof {
        lemma_unmapped_kept(&m1, mem, root, plic, plic + PLIC_SIZE, virtio, virtio + 4096);
        lemma_unmapped_kept(&m1, mem, root, kstart, etx, virtio, virtio + 4096);
        lemma_unmapped_kept(&m1, mem, root, etx, stop, virtio, virtio + 4096);
        lemma_rest_unmapped_kept(&m1, mem, root, virtio, virtio + 4096);
        lemma_range_mapped_kept(&m1, mem, root, uart, 4096, uart, rw | 1);
        lemma_range_encoded_kept(p1, &m1, mem, uart, 4096, rw | 1);
    }
    let ghost m2 = *mem;
    let ghost p2 = t;
    match map_identity(&mut t, mem, kmem, PLIC, PLIC_SIZE, rw) {
        Ok(()) => {},
        Err(e) => {
            return Err(e);
        },
    }
    proof {
        lemma_unmapped_kept(&m2, mem, root, kstart, etx, plic, plic + PLIC_SIZE);
        lemma_unmapped_kept(&m2, mem, root, etx, stop, plic, plic + PLIC_SIZE);
        lemma_rest_unmapped_kept(&m2, mem, root, plic, plic + PLIC_SIZE);
        lemma_range_mapped_kept(&m2, mem, root, uart, 4096, uart, rw | 1);
        lemma_range_encoded_kept(p2, &m2, mem, uart, 4096, rw | 1);
        lemma_range_mapped_kept(&m2, mem, root, virtio, 4096, virtio, rw | 1);
        lemma_range_encoded_kept(p2, &m2, mem, virtio, 4096, rw | 1);
    }
    let ghost m3 = *mem;
    let ghost p3 = t;
    match map_identity(&mut t, mem, kmem, KERNEL_START, text, rx) {
        Ok(()) => {},
        Err(e) => {
            return Err(e);
        },
    }
    proof {
        lemma_unmapped_kept(&m3, mem, root, etx, stop, kstart, etx);
        lemma_rest_unmapped_kept(&m3, mem, root, kstart, etx);
        lemma_range_mapped_kept(&m3, mem, root, uart, 4096, uart, rw | 1);
        lemma_range_encoded_kept(p3, &m3, mem, uart, 4096, rw | 1);
        lemma_range_mapped_kept(&m3, mem, root, virtio, 4096, virtio, rw | 1);
        lemma_range_encoded_kept(p3, &m3, mem, virtio, 4096, rw | 1);
        lemma_range_mapped_kept(&m3, mem, root, plic, PLIC_SIZE as int, plic, rw | 1);
        lemma_range_encoded_kept(p3, &m3, mem, plic, PLIC_SIZE as int, rw | 1);
    }
    let ghost m4 = *mem;
    let ghost p4 = t;
    match map_identity(&mut t, mem, kmem, etext, PHYS_STOP - etext, rw) {
        Ok(()) => {},
        Err(e) => {
            return Err(e);
        },
    }
    proof {
        lemma_rest_unmapped_kept(&m4, mem, root, etx, stop);
        lemma_range_mapped_kept(&m4, mem, root, uart, 4096, uart, rw | 1);
        lemma_range_encoded_kept(p4, &m4, mem, uart, 4096, rw | 1);
        lemma_range_mapped_kept(&m4, mem, root, virtio, 4096, virtio, rw | 1);
        lemma_range_encoded_kept(p4, &m4, mem, virtio, 4096, rw | 1);
        lemma_range_mapped_kept(&m4, mem, root, plic, PLIC_SIZE as int, plic, rw | 1);
        lemma_range_encoded_kept(p4, &m4, mem, plic, PLIC_SIZE as int, rw | 1);
        lemma_range_mapped_kept(&m4, mem, root, kstart, text as int, kstart, rx | 1);
        lemma_range_encoded_kept(p4, &m4, mem, kstart, text as int, rx | 1);
    }
    Ok(t)
}

/// Value of the translation-root register that selects Sv39 translation
/// (mode 8, bits 60..64) through the root table at `root` (page number in
/// bits 0..44).
pub fn make_satp(root: u64) -> (r: u64)
    requires
        root < crate::layout::PA_SPACE,
    ensures
        r >> 60u64 == 8,
        r & 0xFFF_FFFF_FFFFu64 == root >> 12u64,
        (r >> 44u64) & 0xFFFFu64 == 0,
{
    let r = (8u64 << 60) | (root >> 12);
    assert(root < 0x100_0000_0000_0000u64 ==> {
        let r = (8u64 << 60u64) | (root >> 12u64);
        &&& r >> 60u64 == 8
        &&& r & 0xFFF_FFFF_FFFFu64 == root >> 12u64
        &&& (r >> 44u64) & 0xFFFFu64 == 0
    }) by (bit_vector);
    r
}

} // verus!

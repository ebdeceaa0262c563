//! Physical page allocator: a LIFO free list of whole pages of a managed
//! physical range. The list is kept beside the pages rather than inside them.

use vstd::prelude::*;
use crate::layout::{PAGE_SIZE, page_ceil};
use crate::memory::{PhysMemory, splat};
use crate::spinlock::Spinlock;

verus! {

/// Byte written over a page when it is freed, so that a use after free shows.
pub const POISON: u8 = 0x55;

/// The pages `first`, `first + 4096`, ... (`n` of them), in that order.
pub open spec fn region_pages(first: int, n: nat) -> Seq<u64> {
    Seq::new(n, |i: int| (first + 4096 * i) as u64)
}

/// Number of whole pages from `first` up to `end`.
pub open spec fn pages_between(first: int, end: int) -> nat {
    if end <= first {
        0
    } else {
        ((end - first) / 4096) as nat
    }
}

/// Fatal misuse of the allocator.
#[derive(Clone, Copy, Debug, PartialEq, Eq, Structural)]
pub enum KallocFault {
    /// The page is not page-aligned or lies outside the managed range.
    InvalidPage,
}

/// The allocator's state: the managed range `[start, end)` and its free
/// pages.
pub struct KernelMemory {
    /// Guards the allocator when several cores share it: a caller that
    /// reaches it through a shared slot holds this lock around each call.
    pub lock: Option<Spinlock>,
    /// First address of the managed range.
    pub start: u64,
    /// One past the last address of the managed range.
    pub end: u64,
    /// The free pages; the last one is the head, handed out next.
    pub free: Vec<u64>,
}

impl KernelMemory {
    /// First address of the managed range.
    pub open spec fn range_start(&self) -> int {
        self.start as int
    }

    /// One past the last address of the managed range.
    pub open spec fn range_end(&self) -> int {
        self.end as int
    }

    /// The free pages; the last one is the next to be handed out.
    pub open spec fn free_list(&self) -> Seq<u64> {
        self.free@
    }

    /// `p` is a whole page of the managed range.
    pub open spec fn is_managed_page(&self, p: int) -> bool {
        &&& p % 4096 == 0
        &&& self.range_start() <= p
        &&& p + 4096 <= self.range_end()
    }

    /// Every free page is a whole page of the managed range, and no page is
    /// on the list twice.
    pub open spec fn wf(&self) -> bool {
        &&& self.free_list().no_duplicates()
        &&& forall|i: int|
            0 <= i < self.free_list().len() ==> self.is_managed_page(
                #[trigger] self.free_list()[i] as int,
            )
    }

    /// The managed range lies inside the memory window `mem`.
    pub open spec fn inside(&self, mem: &PhysMemory) -> bool {
        &&& mem.wf()
        &&& mem.base_addr() <= self.range_start()
        &&& self.range_start() <= self.range_end()
        &&& self.range_end() <= mem.end_addr()
    }

    /// An allocator over `[start, end)` with no free page yet, and its lock.
    fn empty(start: u64, end: u64) -> (r: KernelMemory)
        ensures
            r.range_start() == start,
            r.range_end() == end,
            r.free_list() == Seq::<u64>::empty(),
            r.wf(),
            r.lock is Some,
            r.lock->Some_0.cpu is None,
    {
        let mut lock = None;
        Spinlock::init(&mut lock);
        KernelMemory { lock, start, end, free: Vec::new() }
    }

    /// `page` is on the free list.
    pub fn is_free(&self, page: u64) -> (r: bool)
        ensures
            r == self.free_list().contains(page),
    {
        let mut i: usize = 0;
        while i < self.free.len()
            invariant
                i <= self.free@.len(),
                forall|k: int| 0 <= k < i ==> self.free@[k] != page,
            decreases self.free@.len() - i,
        {
            if self.free[i] == page {
                return true;
            }
            i = i + 1;
        }
        false
    }

    /// Number of free pages.
    pub fn free_count(&self) -> (r: usize)
        ensures
            r == self.free_list().len(),
    {
        self.free.len()
    }

    /// Takes the most recently freed page off the list, fills it with zeros
    /// and hands it out; `None` once every page is in use.
    pub fn allocate_page(&mut self, mem: &mut PhysMemory) -> (r: Option<u64>)
        requires
            old(self).wf(),
            old(self).inside(old(mem)),
        ensures
            final(self).wf(),
            final(self).inside(final(mem)),
            final(self).range_start() == old(self).range_start(),
            final(self).range_end() == old(self).range_end(),
            final(self).lock == old(self).lock,
            old(self).free_list().len() == 0 <==> r is None,
            r is None ==> *final(mem) == *old(mem) && *final(self) == *old(self),
            r matches Some(p) ==> {
                &&& p == old(self).free_list().last()
                &&& final(self).free_list() == old(self).free_list().drop_last()
                &&& old(self).is_managed_page(p as int)
                &&& mem_page_filled(old(mem), final(mem), p as int, 0)
            },
    {
        if self.free.len() == 0 {
            return None;
        }
        match self.free.pop() {
            None => None,
            Some(page) => {
                proof {
                    assert(old(self).free_list()[old(self).free_list().len() - 1] == page);
                    lemma_page_words(mem, page as int);
                }
                mem.fill(page, PAGE_SIZE, 0);
                proof {
                    assert forall|i: int| 0 <= i < self.free@.len() implies self.is_managed_page(
                        #[trigger] self.free@[i] as int,
                    ) by {
                        assert(self.free@[i] == old(self).free@[i]);
                    }
                }
                Some(page)
            },
        }
    }

    /// Fills `page` with the poison byte and puts it at the head of the free
    /// list. A page that is not a whole page of the managed range is refused.
    pub fn free_page(&mut self, mem: &mut PhysMemory, page: u64) -> (r: Result<(), KallocFault>)
        requires
            old(self).wf(),
            old(self).inside(old(mem)),
            !old(self).free_list().contains(page),
        ensures
            final(self).wf(),
            final(self).inside(final(mem)),
            final(self).range_start() == old(self).range_start(),
            final(self).range_end() == old(self).range_end(),
            final(self).lock == old(self).lock,
            r is Ok <==> old(self).is_managed_page(page as int),
            r is Err ==> *final(mem) == *old(mem) && final(self).free_list() == old(
                self,
            ).free_list(),
            r is Ok ==> {
                &&& final(self).free_list() == old(self).free_list().push(page)
                &&& mem_page_filled(old(mem), final(mem), page as int, POISON)
            },
    {
        if page % PAGE_SIZE != 0 || page < self.start || page >= self.end || self.end - page
            < PAGE_SIZE {
            return Err(KallocFault::InvalidPage);
        }
        proof {
            lemma_page_words(mem, page as int);
        }
        mem.fill(page, PAGE_SIZE, POISON);
        self.free.push(page);
        proof {
            assert forall|i: int| 0 <= i < self.free@.len() implies self.is_managed_page(
                #[trigger] self.free@[i] as int,
            ) by {
                if i < old(self).free@.len() {
                    assert(self.free@[i] == old(self).free@[i]);
                }
            }
            assert(self.free@.no_duplicates()) by {
                assert forall|i: int, j: int|
                    0 <= i < self.free@.len() && 0 <= j < self.free@.len() && i != j implies
                    self.free@[i] != self.free@[j] by {
                    if i == self.free@.len() - 1 {
                        assert(old(self).free@[j] == self.free@[j]);
                    } else if j == self.free@.len() - 1 {
                        assert(old(self).free@[i] == self.free@[i]);
                    }
                }
            }
        }
        Ok(())
    }
}

/// `after` is `before` with every byte of the page at `p` set to `b`.
pub open spec fn mem_page_filled(before: &PhysMemory, after: &PhysMemory, p: int, b: u8) -> bool {
    &&& before.same_outside(after, before.index_of(p), before.index_of(p) + 512)
    &&& forall|k: int|
        before.index_of(p) <= k < before.index_of(p) + 512 ==> #[trigger] after.word_at(k)
            == splat(b)
}

proof fn lemma_page_words(mem: &PhysMemory, p: int)
    requires
        mem.wf(),
        mem.holds_page(p),
    ensures
        (p - mem.base_addr()) % 8 == 0,
        mem.index_of(p) + 512 <= mem.len_words(),
        (4096 as int) / 8 == 512,
{
    let b = mem.base_addr();
    assert((p - b) % 8 == 0) by (nonlinear_arith)
        requires
            p % 4096 == 0,
            b % 4096 == 0,
    ;
}

/// Sets each byte of `[start, start + size)` to `value`; the range must lie in
/// the managed range.
pub fn set_memory(kmem: &KernelMemory, mem: &mut PhysMemory, start: u64, size: u64, value: u8)
    -> (r: u64)
    requires
        kmem.inside(old(mem)),
        kmem.range_start() <= start,
        start + size <= kmem.range_end(),
    ensures
        r == start,
        final(mem).wf(),
        final(mem).base_addr() == old(mem).base_addr(),
        final(mem).len_words() == old(mem).len_words(),
        forall|a: int| start <= a < start + size ==> #[trigger] final(mem).byte(a) == value as u64,
        forall|a: int|
            old(mem).holds_byte(a) && !(start <= a < start + size) ==> #[trigger] final(mem).byte(a)
                == old(mem).byte(a),
{
    let mut i: u64 = 0;
    while i < size
        invariant
            i <= size,
            start + size <= kmem.range_end(),
            kmem.range_start() <= start,
            kmem.inside(old(mem)),
            mem.base_addr() == old(mem).base_addr(),
            mem.len_words() == old(mem).len_words(),
            forall|a: int| start <= a < start + i ==> #[trigger] mem.byte(a) == value as u64,
            forall|a: int|
                old(mem).holds_byte(a) && !(start <= a < start + i) ==> #[trigger] mem.byte(a)
                    == old(mem).byte(a),
        decreases size - i,
    {
        let ghost prev = *mem;
        mem.write_byte(start + i, value);
        proof {
            assert forall|a: int| start <= a < start + i + 1 implies #[trigger] mem.byte(a)
                == value as u64 by {
                assert(prev.holds_byte(a));
            }
            assert forall|a: int|
                old(mem).holds_byte(a) && !(start <= a < start + i + 1) implies #[trigger] mem.byte(
                a,
            ) == old(mem).byte(a) by {
                assert(prev.byte(a) == old(mem).byte(a));
            }
        }
        i = i + 1;
    }
    start
}

/// Builds the allocator over `[kernel_end, phys_stop)`: every whole page from
/// `kernel_end` rounded up to a page boundary is poisoned and freed, in
/// increasing order, so the highest page is handed out first.
pub fn kinit(mem: &mut PhysMemory, kernel_end: u64, phys_stop: u64) -> (r: KernelMemory)
    requires
        old(mem).wf(),
        old(mem).base_addr() <= kernel_end,
        kernel_end <= phys_stop,
        phys_stop <= old(mem).end_addr(),
    ensures
        r.wf(),
        r.inside(final(mem)),
        r.range_start() == kernel_end,
        r.range_end() == phys_stop,
        r.lock is Some,
        r.lock->Some_0.cpu is None,
        r.free_list() == region_pages(
            page_ceil(kernel_end as int),
            pages_between(page_ceil(kernel_end as int), phys_stop as int),
        ),
{
    let mut kmem = KernelMemory::empty(kernel_end, phys_stop);
    free_range(&mut kmem, mem, kernel_end, phys_stop);
    assert(kmem.free_list() =~= region_pages(
        page_ceil(kernel_end as int),
        pages_between(page_ceil(kernel_end as int), phys_stop as int),
    ));
    kmem
}

/// Frees every whole page between `page_start`, rounded up to a page
/// Frees every whole page between `page_start`, rounded up to a page
/// boundary, and `page_end`, lowest first, after the pages already free: the
/// highest page ends at the head. No page already free may lie in the range.
fn free_range(kmem: &mut KernelMemory, mem: &mut PhysMemory, page_start: u64, page_end: u64)
    requires
        old(kmem).wf(),
        old(kmem).inside(old(mem)),
        old(kmem).range_start() <= page_start,
        page_start <= page_end,
        page_end <= old(kmem).range_end(),
        forall|i: int|
            0 <= i < old(kmem).free_list().len() ==> !(page_start <= #[trigger] old(
                kmem,
            ).free_list()[i] < page_end),
    ensures
        final(kmem).wf(),
        final(kmem).inside(final(mem)),
        final(kmem).range_start() == old(kmem).range_start(),
        final(kmem).range_end() == old(kmem).range_end(),
        final(kmem).lock == old(kmem).lock,
        final(kmem).free_list() == old(kmem).free_list() + region_pages(
            page_ceil(page_start as int),
            pages_between(page_ceil(page_start as int), page_end as int),
        ),
{
    proof {
        let b = mem.base_addr();
        let l = mem.len_words();
        assert((b + 8 * l) % 4096 == 0) by (nonlinear_arith)
            requires
                b % 4096 == 0,
                l % 512 == 0,
        ;
    }
    let ghost before = kmem.free_list();
    let first = crate::layout::get_page_round_up(page_start);
    let ghost n = pages_between(first as int, page_end as int);
    let mut page = first;
    let mut count: u64 = 0;
    while page <= page_end && page_end - page >= PAGE_SIZE
        invariant
            kmem.wf(),
            kmem.inside(mem),
            kmem.range_start() == old(kmem).range_start(),
            kmem.range_end() == old(kmem).range_end(),
            kmem.range_start() <= page_start,
            page_end <= kmem.range_end(),
            kmem.lock == old(kmem).lock,
            before == old(kmem).free_list(),
            forall|i: int| 0 <= i < before.len() ==> !(page_start <= #[trigger] before[i] < page_end),
            first as int == page_ceil(page_start as int),
            first % 4096 == 0,
            page_start <= first,
            page == first + 4096 * count,
            page % 4096 == 0,
            kmem.free_list() == before + region_pages(first as int, count as nat),
            count <= n,
            n == pages_between(first as int, page_end as int),
            page <= page_end ==> count + (page_end - page) / 4096 == n,
            page > page_end ==> count == n,
        decreases page_end + 4096 - page,
    {
        proof {
            let f = kmem.free_list();
            assert forall|i: int| 0 <= i < f.len() implies #[trigger] f[i] != page by {
                if i >= before.len() {
                    assert(f[i] == region_pages(first as int, count as nat)[i - before.len()]);
                } else {
                    assert(f[i] == before[i]);
                }
            }
        }
        let _ = kmem.free_page(mem, page);
        proof {
            assert(kmem.free_list() =~= before + region_pages(first as int, (count + 1) as nat));
        }
        page = page + PAGE_SIZE;
        count = count + 1;
    }
    proof {
        assert(region_pages(first as int, count as nat) =~= region_pages(first as int, n));
    }
}

/// The pages that initialization frees over a range are pairwise distinct,
/// page-aligned and inside the range, and there are exactly as many as whole
/// pages fit between the rounded-up start and the end.
pub proof fn region_pages_distinct(start: int, end: int)
    requires
        0 <= start,
        end <= u64::MAX,
    ensures
        ({
            let first = page_ceil(start);
            let pages = region_pages(first, pages_between(first, end));
            &&& pages.no_duplicates()
            &&& forall|i: int|
                0 <= i < pages.len() ==> {
                    &&& #[trigger] pages[i] % 4096 == 0
                    &&& start <= pages[i]
                    &&& pages[i] + 4096 <= end
                }
            &&& end >= first ==> pages.len() == (end - first) / 4096
        }),
{
    let first = page_ceil(start);
    let n = pages_between(first, end);
    let pages = region_pages(first, n);
    assert(first % 4096 == 0 && start <= first);
    assert forall|i: int| 0 <= i < pages.len() implies {
        &&& #[trigger] pages[i] % 4096 == 0
        &&& start <= pages[i]
        &&& pages[i] + 4096 <= end
    } by {
        assert(4096 * i + 4096 <= end - first) by (nonlinear_arith)
            requires
                0 <= i < n,
                n == (end - first) / 4096,
                end > first,
        ;
        assert((first + 4096 * i) % 4096 == 0) by (nonlinear_arith)
            requires
                first % 4096 == 0,
        ;
    }
}

/// A run of allocations right after initialization over `[start, end)`:
/// `lists[i]` is the free list before call `i` and `got[i]` the page that call
/// returned, as `allocate_page` states. The calls hand out the region's pages
/// from the top down, pairwise distinct, page-aligned and inside the region;
/// there are at most as many as whole pages in it, and once that many are out
/// the free list is empty, so the next call returns none.
pub proof fn allocations_exhaust_region(
    start: int,
    end: int,
    lists: Seq<Seq<u64>>,
    got: Seq<u64>,
)
    requires
        0 <= start,
        end <= u64::MAX,
        lists.len() == got.len() + 1,
        lists[0] == region_pages(page_ceil(start), pages_between(page_ceil(start), end)),
        forall|i: int|
            0 <= i < got.len() ==> {
                &&& #[trigger] lists[i].len() > 0
                &&& got[i] == lists[i].last()
                &&& lists[i + 1] == lists[i].drop_last()
            },
    ensures
        ({
            let n = pages_between(page_ceil(start), end);
            &&& got.len() <= n
            &&& got.no_duplicates()
            &&& forall|i: int|
                0 <= i < got.len() ==> {
                    &&& #[trigger] got[i] % 4096 == 0
                    &&& start <= got[i]
                    &&& got[i] + 4096 <= end
                }
            &&& got.len() == n ==> lists[got.len() as int].len() == 0
        }),
{
    let first = page_ceil(start);
    let n = pages_between(first, end);
    let pages = region_pages(first, n);
    region_pages_distinct(start, end);
    // Before call `i` the free list is the region's first `n - i` pages.
    assert forall|i: int| 0 <= i <= got.len() implies #[trigger] lists[i] == pages.take(
        n - i,
    ) && i <= n by {
        lemma_lists_prefix(lists, got, pages, i);
    }
    assert forall|i: int| 0 <= i < got.len() implies got[i] == pages[n - 1 - i] by {
        assert(lists[i] == pages.take(n - i));
    }
    assert(got.len() <= n) by {
        assert(lists[got.len() as int] == pages.take(n - got.len()));
    }
    assert forall|i: int| 0 <= i < got.len() implies {
        &&& #[trigger] got[i] % 4096 == 0
        &&& start <= got[i]
        &&& got[i] + 4096 <= end
    } by {
        assert(got[i] == pages[n - 1 - i]);
    }
    assert forall|i: int, j: int| 0 <= i < got.len() && 0 <= j < got.len() && i != j implies got[i]
        != got[j] by {
        assert(got[i] == pages[n - 1 - i]);
        assert(got[j] == pages[n - 1 - j]);
    }
}

proof fn lemma_lists_prefix(lists: Seq<Seq<u64>>, got: Seq<u64>, pages: Seq<u64>, i: int)
    requires
        lists.len() == got.len() + 1,
        lists[0] == pages,
        forall|k: int|
            0 <= k < got.len() ==> {
                &&& #[trigger] lists[k].len() > 0
                &&& got[k] == lists[k].last()
                &&& lists[k + 1] == lists[k].drop_last()
            },
        0 <= i <= got.len(),
    ensures
        i <= pages.len(),
        lists[i] == pages.take(pages.len() - i),
    decreases i,
{
    if i == 0 {
        assert(pages.take(pages.len() as int) =~= pages);
    } else {
        lemma_lists_prefix(lists, got, pages, i - 1);
        assert(lists[i - 1].len() > 0);
        assert(lists[i] =~= pages.take(pages.len() - i));
    }
}

/// Freeing a page and then allocating hands back that same page, and leaves
/// the free list as it was before the free: `after_free` is the allocator
/// after `free_page(page)` succeeded on `before`, and `after_alloc` the one
/// after `allocate_page` returned `got` from `after_free`.
pub proof fn free_then_allocate_same_page(
    before: KernelMemory,
    after_free: KernelMemory,
    after_alloc: KernelMemory,
    page: u64,
    got: u64,
)
    requires
        after_free.free_list() == before.free_list().push(page),
        got == after_free.free_list().last(),
        after_alloc.free_list() == after_free.free_list().drop_last(),
    ensures
        got == page,
        after_alloc.free_list() == before.free_list(),
{
    assert(before.free_list().push(page).drop_last() =~= before.free_list());
}

} // verus!

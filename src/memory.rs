//! An in-memory stand-in for the machine's physical memory: a window of
//! 64-bit words starting at a page-aligned physical address.

use vstd::prelude::*;

verus! {

/// The byte `b` repeated in each of the eight bytes of a word.
pub open spec fn splat(b: u8) -> u64 {
    ((b as u64) * 0x0101_0101_0101_0101u64) as u64
}

pub struct PhysMemory {
    base: u64,
    words: Vec<u64>,
}

impl PhysMemory {
    /// First physical address of the window.
    pub closed spec fn base_addr(&self) -> int {
        self.base as int
    }

    /// Number of words in the window.
    pub closed spec fn len_words(&self) -> int {
        self.words@.len() as int
    }

    /// One past the last physical address of the window.
    pub open spec fn end_addr(&self) -> int {
        self.base_addr() + 8 * self.len_words()
    }

    /// The word stored at index `k` of the window (address `base + 8 * k`).
    pub closed spec fn word_at(&self, k: int) -> u64 {
        self.words@[k]
    }

    pub open spec fn wf(&self) -> bool {
        &&& self.base_addr() % 4096 == 0
        &&& self.len_words() % 512 == 0
        &&& self.end_addr() <= u64::MAX
    }

    /// Index of the word at address `a`.
    pub open spec fn index_of(&self, a: int) -> int {
        (a - self.base_addr()) / 8
    }

    /// The word at physical address `a`.
    pub open spec fn word(&self, a: int) -> u64 {
        self.word_at(self.index_of(a))
    }

    /// The byte at physical address `a` (words are little-endian).
    pub open spec fn byte(&self, a: int) -> u64 {
        (self.word(a) >> ((8 * ((a - self.base_addr()) % 8)) as u64)) & 0xFF
    }

    /// `a` is the address of a byte inside the window.
    pub open spec fn holds_byte(&self, a: int) -> bool {
        self.base_addr() <= a < self.end_addr()
    }

    /// `a` is the address of a whole word inside the window.
    pub open spec fn holds_word(&self, a: int) -> bool {
        &&& self.base_addr() <= a
        &&& a + 8 <= self.end_addr()
        &&& (a - self.base_addr()) % 8 == 0
    }

    /// `p` is the address of a whole page inside the window.
    pub open spec fn holds_page(&self, p: int) -> bool {
        &&& self.base_addr() <= p
        &&& p + 4096 <= self.end_addr()
        &&& p % 4096 == 0
    }

    /// `other` holds the same words as `self`, except those in `[lo, hi)`.
    pub open spec fn same_outside(&self, other: &PhysMemory, lo: int, hi: int) -> bool {
        &&& other.base_addr() == self.base_addr()
        &&& other.len_words() == self.len_words()
        &&& forall|k: int|
            0 <= k < self.len_words() && !(lo <= k < hi) ==> #[trigger] other.word_at(k)
                == self.word_at(k)
    }

    /// A window of `npages` zeroed pages starting at `base`.
    pub fn new(base: u64, npages: usize) -> (r: PhysMemory)
        requires
            base % 4096 == 0,
            base + 4096 * npages <= u64::MAX,
            512 * npages <= usize::MAX,
        ensures
            r.wf(),
            r.base_addr() == base,
            r.len_words() == 512 * npages,
            forall|k: int| 0 <= k < r.len_words() ==> #[trigger] r.word_at(k) == 0,
    {
        let words = vec![0u64; 512 * npages];
        PhysMemory { base, words }
    }

    pub fn base(&self) -> (r: u64)
        ensures
            r == self.base_addr(),
    {
        self.base
    }

    pub fn end(&self) -> (r: u64)
        requires
            self.wf(),
        ensures
            r == self.end_addr(),
    {
        self.base + 8 * (self.words.len() as u64)
    }

    pub fn read_word(&self, addr: u64) -> (r: u64)
        requires
            self.holds_word(addr as int),
        ensures
            r == self.word(addr as int),
    {
        let k = self.word_index(addr);
        self.words[k]
    }

    fn word_index(&self, addr: u64) -> (k: usize)
        requires
            self.holds_word(addr as int),
        ensures
            k == self.index_of(addr as int),
            k < self.words@.len(),
    {
        let d = (addr - self.base) / 8;
        let len = self.words.len();
        proof {
            let x = addr - self.base;
            assert(x / 8 < len) by (nonlinear_arith)
                requires
                    x + 8 <= 8 * len,
                    x >= 0,
            ;
        }
        d as usize
    }

    pub fn write_word(&mut self, addr: u64, value: u64)
        requires
            old(self).holds_word(addr as int),
        ensures
            final(self).base_addr() == old(self).base_addr(),
            final(self).len_words() == old(self).len_words(),
            final(self).word(addr as int) == value,
            old(self).same_outside(
                final(self),
                old(self).index_of(addr as int),
                old(self).index_of(addr as int) + 1,
            ),
    {
        let k = self.word_index(addr);
        self.words[k] = value;
    }

    /// Stores `value` in the byte at `addr`.
    pub fn write_byte(&mut self, addr: u64, value: u8)
        requires
            old(self).holds_byte(addr as int),
        ensures
            final(self).base_addr() == old(self).base_addr(),
            final(self).len_words() == old(self).len_words(),
            forall|b: int|
                old(self).holds_byte(b) ==> #[trigger] final(self).byte(b) == if b == addr {
                    value as u64
                } else {
                    old(self).byte(b)
                },
    {
        let len = self.words.len();
        let d = addr - self.base;
        proof {
            assert(d / 8 < len) by (nonlinear_arith)
                requires
                    d < 8 * len,
                    d >= 0,
            ;
        }
        let k = (d / 8) as usize;
        let s = d % 8;
        let w = self.words[k];
        let w2 = (w & !(0xFFu64 << (8 * s))) | ((value as u64) << (8 * s));
        self.words[k] = w2;
        proof {
            lemma_byte_set(w, s, value);
            assert forall|b: int| old(self).holds_byte(b) implies #[trigger] self.byte(b) == if b
                == addr {
                value as u64
            } else {
                old(self).byte(b)
            } by {
                let e = b - self.base;
                if e / 8 == d / 8 {
                    let t = (e % 8) as u64;
                    assert(t < 8);
                    if b != addr {
                        assert(e % 8 != d % 8);
                        lemma_byte_other(w, s, t, value);
                    }
                }
            }
        }
    }

    /// Sets every byte of `[start, start + size)` to `value`. The range is
    /// whole words.
    pub fn fill(&mut self, start: u64, size: u64, value: u8)
        requires
            old(self).base_addr() <= start,
            start + size <= old(self).end_addr(),
            (start - old(self).base_addr()) % 8 == 0,
            size % 8 == 0,
        ensures
            old(self).same_outside(
                final(self),
                old(self).index_of(start as int),
                old(self).index_of(start as int) + size / 8,
            ),
            forall|k: int|
                old(self).index_of(start as int) <= k < old(self).index_of(start as int) + size
                    / 8 ==> #[trigger] final(self).word_at(k) == splat(value),
    {
        let w: u64 = (value as u64) * 0x0101_0101_0101_0101u64;
        let len = self.words.len();
        proof {
            let x = start - self.base;
            assert(x / 8 + size / 8 <= len) by (nonlinear_arith)
                requires
                    x + size <= 8 * len,
                    x >= 0,
                    x % 8 == 0,
                    size % 8 == 0,
            ;
        }
        let first = ((start - self.base) / 8) as usize;
        let n = (size / 8) as usize;
        let mut i: usize = 0;
        while i < n
            invariant
                first + n <= len,
                len == self.words@.len(),
                len == old(self).words@.len(),
                first == old(self).index_of(start as int),
                n == size / 8,
                w == splat(value),
                i <= n,
                self.base == old(self).base,
                forall|k: int|
                    0 <= k < len && !(first <= k < first + i) ==> #[trigger] self.words@[k]
                        == old(self).words@[k],
                forall|k: int| first <= k < first + i ==> #[trigger] self.words@[k] == w,
            decreases n - i,
        {
            self.words[first + i] = w;
            i = i + 1;
        }
    }
}

proof fn lemma_byte_set(w: u64, s: u64, v: u8)
    requires
        s < 8,
    ensures
        ((((w & !(0xFFu64 << (8 * s))) | ((v as u64) << (8 * s))) >> (8 * s)) & 0xFF) == v as u64,
{
    assert(s < 8 ==> ((((w & !(0xFFu64 << (8 * s))) | ((v as u64) << (8 * s))) >> (8 * s)) & 0xFF)
        == v as u64) by (bit_vector);
}

proof fn lemma_byte_other(w: u64, s: u64, t: u64, v: u8)
    requires
        s < 8,
        t < 8,
        s != t,
    ensures
        ((((w & !(0xFFu64 << (8 * s))) | ((v as u64) << (8 * s))) >> (8 * t)) & 0xFF) == (w >> (8
            * t)) & 0xFF,
{
    assert(s < 8 && t < 8 && s != t ==> ((((w & !(0xFFu64 << (8 * s))) | ((v as u64) << (8 * s)))
        >> (8 * t)) & 0xFF) == (w >> (8 * t)) & 0xFF) by (bit_vector);
}

} // verus!

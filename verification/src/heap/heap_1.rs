use vstd::prelude::*;

verus! {

/// Alignment of every block handed out.
pub const ALIGN: usize = 4usize;

/// `x` rounded up to a multiple of `ALIGN`.
pub open spec fn align_up(x: int) -> int {
    (x + 3) - (x + 3) % 4
}

/// An allocator of byte blocks; a block is named by its offset in the heap.
pub trait Allocator {
    /// Reserves `size` bytes; `None` when it cannot.
    fn alloc_bytes(&mut self, size: usize) -> Option<usize>;

    /// Gives a block back.
    fn free(&mut self, ptr: usize);
}

/// A bump allocator over `N` bytes: blocks are handed out in increasing
/// order of address and never freed.
pub struct Heap1<const N: usize> {
    pub memory: Vec<u8>,
    /// The offset of the first byte not handed out.
    pub next: usize,
}

proof fn lemma_align(x: usize)
    requires
        x + 3 <= usize::MAX,
    ensures
        ((x + 3) as usize & !3usize) as int == align_up(x as int),
{
    let y = (x + 3) as usize;
    assert(y & !3usize == y - y % 4) by (bit_vector);
}

/// A value within 3 of the largest address rounds up past it.
proof fn lemma_align_past_max(x: usize)
    requires
        x > usize::MAX - 3,
    ensures
        align_up(x as int) > usize::MAX,
{
    assert(usize::MAX == 0xffff_ffff || usize::MAX == 0xffff_ffff_ffff_ffff);
}

impl<const N: usize> Heap1<N> {
    pub open spec fn wf(&self) -> bool {
        self.memory@.len() == N && self.next <= N
    }

    /// An empty heap of `N` zero bytes.
    pub fn new() -> (h: Self)
        ensures
            h.wf(),
            h.next == 0,
            h.memory@ == Seq::new(N as nat, |i: int| 0u8),
    {
        let mut memory: Vec<u8> = Vec::new();
        let mut i: usize = 0;
        while i < N
            invariant
                i <= N,
                memory@ == Seq::new(i as nat, |j: int| 0u8),
            decreases N - i,
        {
            memory.push(0u8);
            i = i + 1;
        }
        Heap1 { memory, next: 0 }
    }

    /// The number of bytes handed out, alignment padding included.
    pub fn used(&self) -> (r: usize)
        ensures
            r == self.next,
    {
        self.next
    }

    /// Reserves a block for `bytes` as `alloc_bytes` does and writes them at
    /// its start, which is aligned to `ALIGN`; the rest of the memory is
    /// kept. A value whose type needs an alignment above `ALIGN` gets none
    /// better. `None`, with the heap
    /// unchanged, when the block cannot be had.
    pub fn alloc_val(&mut self, bytes: &[u8]) -> (r: Option<usize>)
        requires
            old(self).wf(),
        ensures
            final(self).wf(),
            ({
                let start = align_up(old(self).next as int);
                let end = start + align_up(bytes@.len() as int);
                &&& (bytes@.len() == 0 || end > N) ==> r.is_none() && *final(self) == *old(self)
                &&& !(bytes@.len() == 0 || end > N) ==> r == Some(start as usize) && start % 4 == 0 && final(self).next == end
                    && final(self).memory@ == Seq::new(
                        N as nat,
                        |j: int|
                            if start <= j < start + bytes@.len() {
                                bytes@[j - start]
                            } else {
                                old(self).memory@[j]
                            },
                    )
            }),
    {
        let ghost m0 = self.memory@;
        let r = self.alloc_bytes(bytes.len());
        match r {
            None => None,
            Some(start) => {
                proof {
                    lemma_align_up(bytes@.len() as int);
                }
                let ghost end = self.next;
                let mut i: usize = 0;
                while i < bytes.len()
                    invariant
                        self.wf(),
                        self.next == end,
                        self.memory@.len() == m0.len(),
                        m0.len() == N,
                        start + bytes@.len() <= N,
                        i <= bytes@.len(),
                        forall|j: int| 0 <= j < i ==> self.memory@[start + j] == bytes@[j],
                        forall|j: int|
                            0 <= j < N && !(start <= j < start + i) ==> self.memory@[j] == m0[j],
                    decreases bytes@.len() - i,
                {
                    self.memory.set(start + i, bytes[i]);
                    i = i + 1;
                }
                proof {
                    assert(self.memory@ =~= Seq::new(
                        N as nat,
                        |j: int|
                            if start <= j < start + bytes@.len() {
                                bytes@[j - start]
                            } else {
                                m0[j]
                            },
                    )) by {
                        assert forall|j: int| start <= j < start + bytes@.len() implies self.memory@[j]
                            == bytes@[j - start] by {
                            assert(self.memory@[start + (j - start)] == bytes@[j - start]);
                        }
                    }
                }
                Some(start)
            },
        }
    }

    /// The number of bytes not handed out yet.
    pub fn free_space(&self) -> (r: usize)
        ensures
            r == (if N >= self.next { N - self.next } else { 0 }),
    {
        N.saturating_sub(self.next)
    }
}

impl<const N: usize> Allocator for Heap1<N> {
    /// Hands out the next `size` bytes, rounded up to `ALIGN`, at the next
    /// aligned offset. Fails for a zero size, and when the block would not
    /// fit (the heap is then unchanged).
    fn alloc_bytes(&mut self, size: usize) -> (r: Option<usize>)
        ensures
            old(self).wf() ==> {
                let start = align_up(old(self).next as int);
                let end = start + align_up(size as int);
                &&& final(self).wf()
                &&& final(self).memory == old(self).memory
                &&& (size == 0 || end > N) ==> r.is_none() && final(self).next == old(self).next
                &&& !(size == 0 || end > N) ==> r == Some(start as usize) && final(self).next
                    == end && start % 4 == 0
            },
    {
        if size == 0 {
            return None;
        }
        if self.next > usize::MAX - 3 || size > usize::MAX - 3 {
            // the aligned offset or size would pass the largest address
            proof {
                if self.next > usize::MAX - 3 {
                    lemma_align_past_max(self.next);
                }
                if size > usize::MAX - 3 {
                    lemma_align_past_max(size);
                }
                lemma_align_up(self.next as int);
                lemma_align_up(size as int);
            }
            return None;
        }
        let start = (self.next + (ALIGN - 1)) & !(ALIGN - 1);
        let aligned_size = (size + (ALIGN - 1)) & !(ALIGN - 1);
        proof {
            lemma_align(self.next);
            lemma_align(size);
        }
        let end = match start.checked_add(aligned_size) {
            Some(e) => {
                if e <= N {
                    e
                } else {
                    return None;
                }
            },
            None => return None,
        };
        self.next = end;
        Some(start)
    }

    /// Blocks are never given back.
    fn free(&mut self, _ptr: usize)
        ensures
            *final(self) == *old(self),
    {
    }
}

/// A heap meant to be shared; its caller keeps accesses exclusive.
pub struct GlobalHeap1<const N: usize> {
    pub inner: Heap1<N>,
}

impl<const N: usize> GlobalHeap1<N> {
    pub fn new() -> (h: Self)
        ensures
            h.inner.wf(),
            h.inner.next == 0,
    {
        GlobalHeap1 { inner: Heap1::new() }
    }

    /// As `Heap1::alloc_bytes`.
    pub fn alloc_bytes(&mut self, size: usize) -> (r: Option<usize>)
        requires
            old(self).inner.wf(),
        ensures
            ({
                let start = align_up(old(self).inner.next as int);
                let end = start + align_up(size as int);
                &&& final(self).inner.wf()
                &&& (size == 0 || end > N) ==> r.is_none() && final(self).inner.next == old(self).inner.next
                &&& !(size == 0 || end > N) ==> r == Some(start as usize) && final(self).inner.next
                    == end && start % 4 == 0
            }),
    {
        self.inner.alloc_bytes(size)
    }

    /// As `Heap1::alloc_val`.
    pub fn alloc_val(&mut self, bytes: &[u8]) -> (r: Option<usize>)
        requires
            old(self).inner.wf(),
        ensures
            final(self).inner.wf(),
            ({
                let start = align_up(old(self).inner.next as int);
                let end = start + align_up(bytes@.len() as int);
                &&& (bytes@.len() == 0 || end > N) ==> r.is_none() && *final(self) == *old(self)
                &&& !(bytes@.len() == 0 || end > N) ==> r == Some(start as usize) && start % 4 == 0 && final(self).inner.next == end
                    && final(self).inner.memory@ == Seq::new(
                        N as nat,
                        |j: int|
                            if start <= j < start + bytes@.len() {
                                bytes@[j - start]
                            } else {
                                old(self).inner.memory@[j]
                            },
                    )
            }),
    {
        self.inner.alloc_val(bytes)
    }

    pub fn used(&self) -> (r: usize)
        ensures
            r == self.inner.next,
    {
        self.inner.used()
    }

    pub fn free_space(&self) -> (r: usize)
        ensures
            r == (if N >= self.inner.next { N - self.inner.next } else { 0 }),
    {
        self.inner.free_space()
    }
}

/// Blocks handed out one after the other are aligned and do not overlap:
/// the second starts at or after the end of the first, which is at least
/// `size1` bytes long.
pub proof fn lemma_blocks_disjoint(next: int, size1: int)
    requires
        0 <= next,
        0 <= size1,
    ensures
        align_up(next) % 4 == 0,
        align_up(next) >= next,
        align_up(size1) >= size1,
        align_up(align_up(next) + align_up(size1)) >= align_up(next) + align_up(size1),
        align_up(align_up(next) + align_up(size1)) % 4 == 0,
{
    lemma_align_up(next);
    lemma_align_up(size1);
    lemma_align_up(align_up(next) + align_up(size1));
}

/// `align_up(x)` is the least multiple of 4 at or above `x`.
pub proof fn lemma_align_up(x: int)
    requires
        0 <= x,
    ensures
        align_up(x) % 4 == 0,
        x <= align_up(x) < x + 4,
{
    vstd::arithmetic::div_mod::lemma_fundamental_div_mod(x + 3, 4);
    vstd::arithmetic::div_mod::lemma_mod_bound(x + 3, 4);
    vstd::arithmetic::div_mod::lemma_mod_multiples_basic((x + 3) / 4, 4);
}

} // verus!

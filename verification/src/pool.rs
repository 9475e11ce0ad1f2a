//! The memory pool: blocks that are allocated one after another, written
//! once so that the host commits them, and kept until the process ends.

use vstd::prelude::*;

verus! {

/// The sum of the block sizes `sizes`.
pub open spec fn total(sizes: Seq<nat>) -> nat
    decreases sizes.len(),
{
    if sizes.len() == 0 {
        0
    } else {
        total(sizes.drop_last()) + sizes.last()
    }
}

/// One more block adds its size to the total.
pub proof fn lemma_total_push(sizes: Seq<nat>, bytes: nat)
    ensures
        total(sizes.push(bytes)) == total(sizes) + bytes,
{
    assert(sizes.push(bytes).drop_last() == sizes);
}

/// The total of two runs of blocks is the sum of their totals.
pub proof fn lemma_total_concat(a: Seq<nat>, b: Seq<nat>)
    ensures
        total(a + b) == total(a) + total(b),
    decreases b.len(),
{
    if b.len() == 0 {
        assert(a + b == a);
    } else {
        assert((a + b).drop_last() == a + b.drop_last());
        lemma_total_concat(a, b.drop_last());
    }
}

/// Blocks of memory owned until the process ends. Its view is the sizes of
/// the blocks in bytes, oldest first; what the blocks hold means nothing.
pub struct MemoryPool {
    blocks: Vec<Vec<u8>>,
}

impl View for MemoryPool {
    type V = Seq<nat>;

    closed spec fn view(&self) -> Seq<nat> {
        Seq::new(self.blocks@.len(), |i: int| self.blocks@[i]@.len())
    }
}

/// Allocates a block of `bytes` bytes and writes every one of them.
fn new_block(bytes: usize) -> (block: Vec<u8>)
    ensures
        block@.len() == bytes,
{
    let mut block: Vec<u8> = Vec::with_capacity(bytes);
    let mut i: usize = 0;
    while i < bytes
        invariant
            i <= bytes,
            block@.len() == i,
        decreases bytes - i,
    {
        block.push((i % 256) as u8);
        i += 1;
    }
    block
}

impl MemoryPool {
    /// A pool without blocks.
    pub fn new() -> (pool: MemoryPool)
        ensures
            pool@ == Seq::<nat>::empty(),
    {
        MemoryPool { blocks: Vec::new() }
    }

    /// Adds a block of `bytes` bytes. No earlier block is touched, so the
    /// total never goes down.
    pub fn grow(&mut self, bytes: usize)
        ensures
            final(self)@ == old(self)@.push(bytes as nat),
            total(final(self)@) == total(old(self)@) + bytes,
    {
        let block = new_block(bytes);
        self.blocks.push(block);
        proof {
            assert(self@ == old(self)@.push(bytes as nat));
            lemma_total_push(old(self)@, bytes as nat);
        }
    }

    /// The number of blocks.
    pub fn block_count(&self) -> (n: usize)
        ensures
            n == self@.len(),
    {
        self.blocks.len()
    }

    /// The bytes held in all blocks together.
    pub fn total_bytes(&self) -> (sum: u128)
        ensures
            sum == total(self@),
    {
        let n = self.blocks.len();
        let mut sum: u128 = 0;
        let mut i: usize = 0;
        while i < n
            invariant
                n == self.blocks@.len(),
                i <= n,
                sum == total(self@.subrange(0, i as int)),
                sum <= i * usize::MAX,
            decreases n - i,
        {
            let size = self.blocks[i].len();
            proof {
                assert(self@.subrange(0, i + 1) == self@.subrange(0, i as int).push(size as nat));
                lemma_total_push(self@.subrange(0, i as int), size as nat);
                assert((i + 1) * usize::MAX <= u128::MAX) by (nonlinear_arith)
                    requires
                        i < usize::MAX,
                        usize::MAX <= u64::MAX,
                ;
                assert(i * usize::MAX + usize::MAX == (i + 1) * usize::MAX) by (nonlinear_arith);
            }
            sum = sum + size as u128;
            i += 1;
        }
        assert(self@.subrange(0, n as int) == self@);
        sum
    }
}

} // verus!

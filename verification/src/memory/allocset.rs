//! A set of allocated indices, backed by a bitset of 64-bit blocks.
use vstd::prelude::*;
use vstd::std_specs::bits::u64_trailing_zeros;

verus! {

/// The block `k` steps after block `hint` in a cyclic order of `n` blocks.
pub open spec fn cyclic(hint: int, k: int, n: int) -> int {
    (hint + k) % n
}

/// The number of `true` entries of a boolean sequence.
pub open spec fn count_true(s: Seq<bool>) -> nat
    decreases s.len(),
{
    if s.len() == 0 {
        0
    } else {
        count_true(s.drop_last()) + if s.last() {
            1nat
        } else {
            0nat
        }
    }
}

/// Updating one entry of a boolean sequence changes its count of `true` entries accordingly.
pub proof fn lemma_count_update(s: Seq<bool>, i: int, b: bool)
    requires
        0 <= i < s.len(),
    ensures
        count_true(s.update(i, b)) + (if s[i] {
            1int
        } else {
            0
        }) == count_true(s) + (if b {
            1int
        } else {
            0
        }),
    decreases s.len(),
{
    if i < s.len() - 1 {
        assert(s.update(i, b).drop_last() =~= s.drop_last().update(i, b));
        lemma_count_update(s.drop_last(), i, b);
    } else {
        assert(s.update(i, b).drop_last() =~= s.drop_last());
    }
}

/// The count of `true` entries is at most the length, and below it when an entry is `false`.
pub proof fn lemma_count_bound(s: Seq<bool>)
    ensures
        count_true(s) <= s.len(),
        count_true(s) == s.len() <==> forall|i: int| 0 <= i < s.len() ==> #[trigger] s[i],
    decreases s.len(),
{
    if s.len() > 0 {
        lemma_count_bound(s.drop_last());
        if forall|i: int| 0 <= i < s.len() ==> #[trigger] s[i] {
            assert forall|i: int| 0 <= i < s.drop_last().len() implies #[trigger] s.drop_last()[i] by {
                assert(s[i]);
            }
        }
        if count_true(s) == s.len() {
            assert forall|i: int| 0 <= i < s.len() implies #[trigger] s[i] by {
                if i < s.len() - 1 {
                    assert(s.drop_last()[i]);
                }
            }
        }
    }
}

/// Bit-level facts about setting and clearing one bit of a block.
proof fn lemma_block_bits(b: u64, k: u64, j: u64)
    by (bit_vector)
    requires
        k < 64,
        j < 64,
    ensures
        ((b | (1u64 << k)) >> j) & 1 == if j == k {
            1u64
        } else {
            (b >> j) & 1
        },
        ((b & !(1u64 << k)) >> j) & 1 == if j == k {
            0u64
        } else {
            (b >> j) & 1
        },
        (0xffff_ffff_ffff_ffffu64 >> j) & 1 == 1,
        ((!b) >> j) & 1 == 1 ==> (b >> j) & 1 == 0,
        (b & (1u64 << k)) != 0 <==> (b >> k) & 1 == 1,
{
}

/// A set of allocated indices `0..size`, with allocation of the first free index at or after
/// the block of the most recent free, and growth when every index is allocated.
#[derive(Debug, Clone)]
pub struct AllocSet {
    blocks: Vec<u64>,
    size: usize,
    alloc_count: usize,
    hint_block_index: usize,
}

impl AllocSet {
    /// Whether index `i` is marked allocated in the blocks.
    pub closed spec fn bit(self, i: int) -> bool {
        (self.blocks@[i / 64] >> ((i % 64) as u64)) & 1 == 1
    }

    /// The allocation flags of the indices `0..size`.
    pub closed spec fn view(self) -> Seq<bool> {
        Seq::new(self.size as nat, |i: int| self.bit(i))
    }

    /// The block where the search for a free index starts.
    pub closed spec fn hint(self) -> int {
        self.hint_block_index as int
    }

    /// The number of blocks.
    pub closed spec fn num_blocks(self) -> int {
        self.blocks@.len() as int
    }

    /// Whether every index of block `k` is allocated.
    pub closed spec fn block_full(self, k: int) -> bool {
        self.blocks@[k] == u64::MAX
    }

    /// Well-formedness: the blocks cover the indices, the padding bits of the last block are
    /// set, the count of allocated indices is maintained and the hint points into the blocks.
    pub closed spec fn wf(self) -> bool {
        &&& self.blocks@.len() == (self.size + 63) / 64
        &&& forall|i: int|
            self.size <= i < self.blocks@.len() * 64 ==> #[trigger] self.bit(i)
        &&& self.alloc_count == count_true(self.view())
        &&& self.blocks@.len() > 0 ==> self.hint_block_index < self.blocks@.len()
        &&& self.blocks@.len() == 0 ==> self.hint_block_index == 0
    }

    /// The number of indices fits in a `usize`.
    pub proof fn lemma_view_len(self)
        ensures
            self.view().len() <= usize::MAX,
    {
    }

    /// Creates an empty set, reserving room for the given number of indices.
    pub fn with_capacity(capacity: usize) -> (r: Self)
        requires
            capacity <= usize::MAX - 63,
        ensures
            r.wf(),
            r.view() == Seq::<bool>::empty(),
    {
        let num_blocks = (capacity + 63) / 64;
        let r = AllocSet {
            blocks: Vec::with_capacity(num_blocks),
            size: 0,
            alloc_count: 0,
            hint_block_index: 0,
        };
        proof {
            assert(r.view() =~= Seq::<bool>::empty());
        }
        r
    }

    /// The number of indices, allocated or free.
    pub fn size(&self) -> (r: usize)
        requires
            self.wf(),
        ensures
            r == self.view().len(),
    {
        self.size
    }

    /// The number of allocated indices.
    pub fn alloc_count(&self) -> (r: usize)
        requires
            self.wf(),
        ensures
            r == count_true(self.view()),
    {
        self.alloc_count
    }

    /// Whether every index is allocated.
    pub fn is_full(&self) -> (r: bool)
        requires
            self.wf(),
        ensures
            r == (forall|i: int| 0 <= i < self.view().len() ==> #[trigger] self.view()[i]),
    {
        proof {
            lemma_count_bound(self.view());
        }
        self.alloc_count == self.size
    }

    /// Adds a new index, allocated.
    fn push_allocated(&mut self) -> (r: usize)
        requires
            old(self).wf(),
            old(self).view().len() < usize::MAX,
        ensures
            final(self).wf(),
            r == old(self).view().len(),
            final(self).view() == old(self).view().push(true),
            final(self).hint() == old(self).hint() || old(self).num_blocks() == 0,
    {
        let current_size = self.size;
        let ghost old_self = *self;
        proof {
            lemma_count_bound(self.view());
        }
        if current_size % 64 == 0 {
            self.blocks.push(u64::MAX);
        }
        self.size = self.size + 1;
        self.alloc_count = self.alloc_count + 1;
        proof {
            assert(self.blocks@.len() == (self.size + 63) / 64);
            assert forall|i: int| 0 <= i < current_size implies self.bit(i) == old_self.bit(i) by {
                assert(i / 64 < old_self.blocks@.len());
            }
            assert(self.view() =~= old_self.view().push(true)) by {
                let i = current_size as int;
                if current_size % 64 == 0 {
                    assert(i / 64 == old_self.blocks@.len());
                    lemma_block_bits(0, 0, (i % 64) as u64);
                } else {
                    assert(old_self.bit(i));
                }
            }
            assert(self.view().drop_last() =~= old_self.view());
            assert forall|i: int| self.size <= i < self.blocks@.len() * 64 implies #[trigger] self.bit(
                i,
            ) by {
                if current_size % 64 == 0 {
                    if i / 64 == old_self.blocks@.len() {
                        lemma_block_bits(0, 0, (i % 64) as u64);
                    } else {
                        assert(old_self.bit(i));
                    }
                } else {
                    assert(old_self.bit(i));
                }
            }
        }
        current_size
    }

    /// Frees an allocated index.
    pub fn free(&mut self, index: usize)
        requires
            old(self).wf(),
            index < old(self).view().len(),
            old(self).view()[index as int],
        ensures
            final(self).wf(),
            final(self).view() == old(self).view().update(index as int, false),
            final(self).hint() == index / 64,
    {
        let block_index = index / 64;
        let mask: u64 = 1u64 << ((index % 64) as u64);
        let ghost old_self = *self;
        proof {
            lemma_block_bits(self.blocks@[block_index as int], (index % 64) as u64, 0);
        }
        self.hint_block_index = block_index;
        self.blocks.set(block_index, self.blocks[block_index] & !mask);
        proof {
            lemma_count_update(old_self.view(), index as int, false);
        }
        self.alloc_count = self.alloc_count - 1;
        proof {
            assert forall|i: int| 0 <= i < self.blocks@.len() * 64 implies #[trigger] self.bit(i)
                == (old_self.bit(i) && i != index) by {
                if i / 64 == block_index {
                    lemma_block_bits(
                        old_self.blocks@[block_index as int],
                        (index % 64) as u64,
                        (i % 64) as u64,
                    );
                }
            }
            assert(self.view() =~= old_self.view().update(index as int, false));
        }
    }

    /// Allocates an index: the lowest free index of the first block, from the block of the most
    /// recent free onwards, that has one, or a new index when every index is allocated.
    pub fn allocate(&mut self) -> (r: usize)
        requires
            old(self).wf(),
            old(self).view().len() < usize::MAX,
        ensures
            final(self).wf(),
            r <= old(self).view().len(),
            r == old(self).view().len() <==> (forall|i: int|
                0 <= i < old(self).view().len() ==> #[trigger] old(self).view()[i]),
            r < old(self).view().len() ==> {
                &&& !old(self).view()[r as int]
                &&& final(self).view() == old(self).view().update(r as int, true)
                &&& forall|j: int|
                    64 * (r / 64) <= j < r ==> #[trigger] old(self).view()[j]
                &&& forall|k: int|
                    0 <= k < (r / 64 - old(self).hint() + old(self).num_blocks())
                        % old(self).num_blocks() ==> #[trigger] old(self).block_full(
                        cyclic(old(self).hint(), k, old(self).num_blocks()),
                    )
            },
            r == old(self).view().len() ==> final(self).view() == old(self).view().push(true),
    {
        proof {
            lemma_count_bound(self.view());
        }
        let idx = self.try_alloc();
        if let Some(idx) = idx {
            return idx;
        }
        self.push_allocated()
    }

    /// Allocates the lowest free index of the first block, from the hint block onwards, that
    /// has one; `None` when every index is allocated.
    fn try_alloc(&mut self) -> (r: Option<usize>)
        requires
            old(self).wf(),
        ensures
            final(self).wf(),
            r is None <==> (forall|i: int|
                0 <= i < old(self).view().len() ==> #[trigger] old(self).view()[i]),
            r is None ==> *final(self) == *old(self),
            r matches Some(idx) ==> {
                &&& idx < old(self).view().len()
                &&& !old(self).view()[idx as int]
                &&& final(self).view() == old(self).view().update(idx as int, true)
                &&& forall|j: int|
                    64 * (idx / 64) <= j < idx ==> #[trigger] old(self).view()[j]
                &&& forall|k: int|
                    0 <= k < (idx / 64 - old(self).hint() + old(self).num_blocks())
                        % old(self).num_blocks() ==> #[trigger] old(self).block_full(
                        cyclic(old(self).hint(), k, old(self).num_blocks()),
                    )
            },
    {
        proof {
            lemma_count_bound(self.view());
        }
        if self.is_full() {
            return None;
        }
        let ghost old_self = *self;
        let num_blocks = self.blocks.len();
        let mut block_index = self.hint_block_index;
        let ghost free_i = choose|i: int| 0 <= i < old_self.view().len() && !old_self.view()[i];
        let ghost target = free_i / 64;
        let ghost hint = self.hint_block_index as int;
        proof {
            lemma_block_bits(self.blocks@[target], 0, (free_i % 64) as u64);
            assert(self.blocks@[target] != u64::MAX);
            vstd::arithmetic::div_mod::lemma_mod_self_0(num_blocks as int);
            vstd::arithmetic::div_mod::lemma_mod_bound(target - hint + num_blocks, num_blocks as int);
            lemma_count_bound(self.view());
        }
        loop
            invariant
                *self == old_self,
                old_self == *old(self),
                old_self.wf(),
                old_self.alloc_count < old_self.size,
                num_blocks == old_self.blocks@.len(),
                num_blocks > 0,
                0 <= target < num_blocks,
                old_self.blocks@[target] != u64::MAX,
                block_index < num_blocks,
                hint == old_self.hint_block_index,
                forall|k: int|
                    0 <= k < (block_index - hint + num_blocks) % (num_blocks as int) ==> #[trigger] old_self.block_full(
                        cyclic(hint, k, num_blocks as int),
                    ),
                (block_index - hint + num_blocks) % (num_blocks as int) <= (target - hint
                    + num_blocks) % (num_blocks as int),
            decreases (target - block_index + num_blocks) % (num_blocks as int),
        {
            let block = self.blocks[block_index];
            if block == u64::MAX {
                proof {
                    lemma_cyclic_step(hint, block_index as int, target, num_blocks as int);
                }
                block_index = (block_index + 1) % num_blocks;
                continue;
            }
            let free_bit_idx = (!block).trailing_zeros() as usize;
            proof {
                vstd::std_specs::bits::axiom_u64_trailing_zeros(!block);
                assert(!block != 0) by (bit_vector)
                    requires
                        block != 0xffff_ffff_ffff_ffffu64,
                ;
                lemma_block_bits(block, 0, free_bit_idx as u64);
            }
            self.hint_block_index = block_index;
            self.blocks.set(block_index, block | (1u64 << (free_bit_idx as u64)));
            self.alloc_count = self.alloc_count + 1;
            let idx = 64 * block_index + free_bit_idx;
            proof {
                lemma_count_bound(old_self.view());
                let i0 = 64 * block_index + free_bit_idx;
                assert(i0 / 64 == block_index && i0 % 64 == free_bit_idx as int);
                assert(i0 < old_self.size) by {
                    if i0 >= old_self.size {
                        assert(old_self.bit(i0));
                    }
                }
                assert forall|i: int| 0 <= i < self.blocks@.len() * 64 implies #[trigger] self.bit(i)
                    == (old_self.bit(i) || i == i0) by {
                    if i / 64 == block_index {
                        lemma_block_bits(block, free_bit_idx as u64, (i % 64) as u64);
                    }
                }
                assert(self.view() =~= old_self.view().update(i0, true));
                lemma_count_update(old_self.view(), i0, true);
                assert forall|j: int| 64 * (i0 / 64) <= j < i0 implies #[trigger] old_self.view()[j] by {
                    let jj = (j % 64) as u64;
                    assert(j / 64 == block_index);
                    assert(jj < free_bit_idx);
                    lemma_block_bits(!block, 0, jj);
                    lemma_block_bits(block, 0, jj);
                    assert(((!block) >> jj) & 1u64 == 0u64);
                    assert(((!block) >> jj) & 1u64 == 0u64 ==> (block >> jj) & 1u64 == 1u64)
                        by (bit_vector)
                        requires
                            jj < 64,
                    ;
                }
            }
            return Some(idx);
        }
    }

    /// Removes every index.
    pub fn clear(&mut self)
        ensures
            final(self).wf(),
            final(self).view() == Seq::<bool>::empty(),
    {
        self.blocks.clear();
        self.size = 0;
        self.alloc_count = 0;
        self.hint_block_index = 0;
        proof {
            assert(self.view() =~= Seq::<bool>::empty());
        }
    }
}

/// Cyclic search step: moving past a full block that is not the target keeps the target ahead.
proof fn lemma_cyclic_step(hint: int, b: int, target: int, n: int)
    requires
        0 <= hint < n,
        0 <= b < n,
        0 <= target < n,
        b != target,
        (b - hint + n) % n <= (target - hint + n) % n,
    ensures
        (((b + 1) % n) - hint + n) % n == (b - hint + n) % n + 1,
        (((b + 1) % n) - hint + n) % n <= (target - hint + n) % n,
        (target - (b + 1) % n + n) % n < (target - b + n) % n,
        forall|k: int|
            0 <= k < (((b + 1) % n) - hint + n) % n ==> (k < (b - hint + n) % n || #[trigger] cyclic(
                hint,
                k,
                n,
            ) == b),
{
    let d = (b - hint + n) % n;
    let dt = (target - hint + n) % n;
    if b >= hint {
        vstd::arithmetic::div_mod::lemma_small_mod((b - hint) as nat, n as nat);
        vstd::arithmetic::div_mod::lemma_fundamental_div_mod_converse(b - hint + n, n, 1, b - hint);
    } else {
        vstd::arithmetic::div_mod::lemma_small_mod((b - hint + n) as nat, n as nat);
    }
    if target >= hint {
        vstd::arithmetic::div_mod::lemma_fundamental_div_mod_converse(
            target - hint + n,
            n,
            1,
            target - hint,
        );
    } else {
        vstd::arithmetic::div_mod::lemma_small_mod((target - hint + n) as nat, n as nat);
    }
    assert(d != dt);
    if b + 1 < n {
        vstd::arithmetic::div_mod::lemma_small_mod((b + 1) as nat, n as nat);
    } else {
        vstd::arithmetic::div_mod::lemma_fundamental_div_mod_converse(b + 1, n, 1, 0);
    }
    let b1 = (b + 1) % n;
    if b1 >= hint {
        vstd::arithmetic::div_mod::lemma_fundamental_div_mod_converse(b1 - hint + n, n, 1, b1 - hint);
    } else {
        vstd::arithmetic::div_mod::lemma_small_mod((b1 - hint + n) as nat, n as nat);
    }
    if target >= b {
        vstd::arithmetic::div_mod::lemma_fundamental_div_mod_converse(target - b + n, n, 1, target - b);
    } else {
        vstd::arithmetic::div_mod::lemma_small_mod((target - b + n) as nat, n as nat);
    }
    if target >= b1 {
        vstd::arithmetic::div_mod::lemma_fundamental_div_mod_converse(
            target - b1 + n,
            n,
            1,
            target - b1,
        );
    } else {
        vstd::arithmetic::div_mod::lemma_small_mod((target - b1 + n) as nat, n as nat);
    }
    assert forall|k: int|
        0 <= k < (((b + 1) % n) - hint + n) % n implies (k < (b - hint + n) % n || #[trigger] cyclic(
            hint,
            k,
            n,
        ) == b) by {
        if k == d {
            if hint + k < n {
                vstd::arithmetic::div_mod::lemma_small_mod((hint + k) as nat, n as nat);
            } else {
                vstd::arithmetic::div_mod::lemma_fundamental_div_mod_converse(hint + k, n, 1, hint
                    + k - n);
            }
        }
    }
}

} // verus!

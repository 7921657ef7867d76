//! An append-only vector that grows by adding chunks of doubling size, so that
//! an item never moves once it has been pushed.

use vstd::arithmetic::power2::{lemma2_to64, lemma2_to64_rest, lemma_pow2_strictly_increases, lemma_pow2_unfold, pow2};
use vstd::bits::lemma_usize_shl_is_mul;
use vstd::prelude::*;

verus! {

/// The number of items that the chunk at `chunk_index` holds when it is full.
pub open spec fn spec_chunk_size(chunk_index: nat) -> nat {
    8 * pow2(chunk_index)
}

/// The number of items that the chunks up to and including `chunk_index` hold
/// together when all of them are full.
pub open spec fn spec_cummulative_chunk_size(chunk_index: nat) -> nat {
    (8 * pow2(chunk_index + 1) - 8) as nat
}

/// The concatenation of the chunks, first chunk first.
pub open spec fn concat_chunks<T>(chunks: Seq<Vec<T>>) -> Seq<T>
    decreases chunks.len(),
{
    if chunks.len() == 0 {
        Seq::empty()
    } else {
        concat_chunks(chunks.drop_last()) + chunks.last()@
    }
}

/// `pow2` is strictly monotonic, so an order between two powers is an order
/// between their exponents.
proof fn lemma_pow2_order(a: nat, b: nat)
    requires
        pow2(a) < pow2(b),
    ensures
        a < b,
{
    if a > b {
        lemma_pow2_strictly_increases(b, a);
    }
}

/// The largest `usize` is one less than a power of two, whatever the width.
proof fn lemma_usize_max_is_pow2()
    ensures
        usize::MAX + 1 == pow2(usize::BITS as nat),
        usize::BITS == 32 || usize::BITS == 64,
{
    lemma2_to64();
    lemma2_to64_rest();
}

/// A chunk size that fits in `usize` has an index below the width of `usize`.
proof fn lemma_chunk_index_in_range(chunk_index: nat)
    requires
        spec_chunk_size(chunk_index) <= usize::MAX,
    ensures
        chunk_index + 3 < usize::BITS,
{
    lemma_usize_max_is_pow2();
    lemma2_to64();
    vstd::arithmetic::power2::lemma_pow2_adds(3, chunk_index);
    assert(pow2(chunk_index + 3) == 8 * pow2(chunk_index));
    lemma_pow2_order(chunk_index + 3, usize::BITS as nat);
}

/// Chunk sizes double from one chunk to the next, and the sizes of all chunks
/// up to one index add up to the cumulative size at that index.
proof fn lemma_chunk_sizes(chunk_index: nat)
    ensures
        spec_chunk_size(chunk_index + 1) == 2 * spec_chunk_size(chunk_index),
        spec_cummulative_chunk_size(chunk_index) + 8 == spec_chunk_size(chunk_index + 1),
        spec_cummulative_chunk_size(chunk_index + 1) == spec_cummulative_chunk_size(chunk_index)
            + spec_chunk_size(chunk_index + 1),
        spec_cummulative_chunk_size(0) == 8,
        spec_chunk_size(0) == 8,
        spec_chunk_size(chunk_index) >= 8,
{
    lemma2_to64();
    lemma_pow2_unfold(chunk_index + 1);
    lemma_pow2_unfold(chunk_index + 2);
    vstd::arithmetic::power2::lemma_pow2_pos(chunk_index);
}

/// Where the chunks before index `count` fit in `usize` when full, their
/// cumulative size, eight more than which is a power of two, is at most the
/// largest multiple of eight that fits.
proof fn lemma_cumulative_fits(count: nat)
    requires
        count > 0,
        spec_cummulative_chunk_size((count - 1) as nat) <= usize::MAX,
    ensures
        spec_chunk_size(count) <= usize::MAX + 1,
        count + 3 <= usize::BITS,
{
    lemma_usize_max_is_pow2();
    lemma2_to64();
    vstd::arithmetic::power2::lemma_pow2_adds(3, count);
    if count + 3 > usize::BITS {
        lemma_pow2_unfold(count + 3);
        if count + 2 > usize::BITS {
            lemma_pow2_strictly_increases(usize::BITS as nat, (count + 2) as nat);
        }
    }
}

/// Where the full chunks before index `count` leave room in `usize` for one
/// more item, the chunk at `count` fits as well.
proof fn lemma_next_chunk_fits(count: nat)
    requires
        spec_chunk_size(count) < usize::MAX + 1,
    ensures
        spec_cummulative_chunk_size(count) <= usize::MAX,
{
    lemma_usize_max_is_pow2();
    lemma2_to64();
    vstd::arithmetic::power2::lemma_pow2_adds(3, count);
    lemma_pow2_order(count + 3, usize::BITS as nat);
    vstd::arithmetic::power2::lemma_pow2_adds(3, count + 1);
    if count + 4 < usize::BITS {
        lemma_pow2_strictly_increases(count + 4, usize::BITS as nat);
    }
    vstd::arithmetic::power2::lemma_pow2_pos(count + 1);
}

/// The size of the chunk at `chunk_index`: eight items, doubled once per index.
pub fn chunk_size(chunk_index: usize) -> (size: usize)
    requires
        spec_chunk_size(chunk_index as nat) <= usize::MAX,
    ensures
        size == spec_chunk_size(chunk_index as nat),
{
    proof {
        lemma_chunk_index_in_range(chunk_index as nat);
        lemma_usize_shl_is_mul(8, chunk_index);
    }
    8usize << chunk_index
}

/// The number of items that fit in the chunks up to and including `chunk_index`.
pub fn cummulative_chunk_size(chunk_index: usize) -> (size: usize)
    requires
        spec_cummulative_chunk_size(chunk_index as nat) <= usize::MAX,
    ensures
        size == spec_cummulative_chunk_size(chunk_index as nat),
{
    proof {
        lemma_chunk_sizes(chunk_index as nat);
        lemma_usize_max_is_pow2();
        lemma2_to64();
        vstd::arithmetic::power2::lemma_pow2_adds(3, chunk_index as nat);
        lemma_chunk_index_in_range(chunk_index as nat);
        lemma_usize_shl_is_mul(8, chunk_index);
    }
    let size = 8usize << chunk_index;
    size - 8 + size
}

/// A vector stored as a list of chunks. Chunk `i` holds up to `8 * 2^i` items;
/// every chunk but the last is full and no chunk is empty.
pub struct ChunkedVec<T> {
    chunks: Vec<Vec<T>>,
}

impl<T> ChunkedVec<T> {
    /// The items in the order in which they were pushed.
    pub closed spec fn view(&self) -> Seq<T> {
        concat_chunks(self.chunks@)
    }

    /// Every chunk but the last is full, the last holds at least one item, and
    /// the chunks' total capacity fits in `usize`.
    pub closed spec fn wf(&self) -> bool {
        let n = self.chunks@.len();
        &&& forall|i: int| 0 <= i < n - 1 ==> (#[trigger] self.chunks@[i])@.len() == spec_chunk_size(i as nat)
        &&& n > 0 ==> 1 <= self.chunks@[n - 1]@.len() <= spec_chunk_size((n - 1) as nat)
        &&& n > 0 ==> spec_cummulative_chunk_size((n - 1) as nat) <= usize::MAX
    }

    /// The most items a chunked vector can hold: the chunks whose cumulative
    /// size fits in `usize`, all full.
    pub open spec fn max_len() -> nat {
        (usize::MAX - 7) as nat
    }

    proof fn lemma_len(chunks: Seq<Vec<T>>)
        requires
            chunks.len() > 0,
            forall|i: int| 0 <= i < chunks.len() - 1 ==> (#[trigger] chunks[i])@.len() == spec_chunk_size(i as nat),
        ensures
            concat_chunks(chunks).len() + 8 == spec_chunk_size((chunks.len() - 1) as nat) + chunks.last()@.len(),
        decreases chunks.len(),
    {
        let n = chunks.len();
        if n == 1 {
            assert(concat_chunks(chunks.drop_last()) =~= Seq::<T>::empty());
            lemma_chunk_sizes(0);
        } else {
            let rest = chunks.drop_last();
            assert forall|i: int| 0 <= i < rest.len() - 1 implies (#[trigger] rest[i])@.len() == spec_chunk_size(
                i as nat,
            ) by {
                assert(rest[i] == chunks[i]);
            }
            Self::lemma_len(rest);
            assert(rest.last() == chunks[n - 2]);
            lemma_chunk_sizes((n - 2) as nat);
        }
    }

    proof fn lemma_wf_len(&self)
        requires
            self.wf(),
        ensures
            self@.len() <= Self::max_len(),
            self.chunks@.len() == 0 <==> self@.len() == 0,
            self.chunks@.len() > 0 ==> self@.len() + 8 == spec_chunk_size((self.chunks@.len() - 1) as nat)
                + self.chunks@.last()@.len(),
    {
        let n = self.chunks@.len();
        if n > 0 {
            Self::lemma_len(self.chunks@);
            lemma_chunk_sizes((n - 1) as nat);
            lemma_usize_max_is_pow2();
            lemma2_to64();
            vstd::arithmetic::power2::lemma_pow2_adds(3, n);
            assert(spec_chunk_size(n) == pow2(n + 3));
            lemma_cumulative_fits(n);
        }
    }

    /// An empty chunked vector. It allocates nothing.
    pub fn new() -> (v: Self)
        ensures
            v.wf(),
            v@ == Seq::<T>::empty(),
    {
        Self { chunks: Vec::new() }
    }

    /// The number of items.
    pub fn len(&self) -> (n: usize)
        requires
            self.wf(),
        ensures
            n == self@.len(),
    {
        let count = self.chunks.len();
        if count == 0 {
            return 0;
        }
        let i = count - 1;
        proof {
            self.lemma_wf_len();
            lemma_chunk_sizes(i as nat);
        }
        let free = chunk_size(i) - self.chunks[i].len();
        cummulative_chunk_size(i) - free
    }

    /// Appends `item`. Items already stored stay where they are: a full last
    /// chunk is followed by a new chunk of twice its size.
    pub fn push(&mut self, item: T)
        requires
            old(self).wf(),
            old(self)@.len() < Self::max_len(),
        ensures
            final(self).wf(),
            final(self)@ == old(self)@.push(item),
    {
        let count = self.chunks.len();
        proof {
            self.lemma_wf_len();
            if count > 0 {
                lemma_chunk_sizes((count - 1) as nat);
            }
        }
        if count > 0 {
            let last = count - 1;
            if self.chunks[last].len() < chunk_size(last) {
                self.chunks[last].push(item);
                proof {
                    let before = old(self).chunks@;
                    let after = self.chunks@;
                    assert(after.drop_last() =~= before.drop_last());
                    assert(after.last()@ == before.last()@.push(item));
                    assert(concat_chunks(after) =~= concat_chunks(before).push(item));
                    assert forall|i: int| 0 <= i < after.len() - 1 implies (#[trigger] after[i])@.len()
                        == spec_chunk_size(i as nat) by {
                        assert(after[i] == before[i]);
                    }
                }
                return;
            }
        }
        proof {
            lemma_chunk_sizes(count as nat);
            if count > 0 {
                lemma_chunk_sizes((count - 1) as nat);
            }
            lemma_next_chunk_fits(count as nat);
        }
        let mut chunk = Vec::with_capacity(chunk_size(count));
        chunk.push(item);
        self.chunks.push(chunk);
        proof {
            let before = old(self).chunks@;
            let after = self.chunks@;
            assert(after.drop_last() =~= before);
            assert(after.last()@ =~= seq![item]);
            assert(concat_chunks(after) =~= concat_chunks(before).push(item));
            assert forall|i: int| 0 <= i < after.len() - 1 implies (#[trigger] after[i])@.len() == spec_chunk_size(
                i as nat,
            ) by {
                assert(after[i] == before[i]);
            }
        }
    }

    /// Whether the vector holds no item.
    pub fn is_empty(&self) -> (empty: bool)
        requires
            self.wf(),
        ensures
            empty == (self@.len() == 0),
    {
        proof {
            self.lemma_wf_len();
        }
        if self.chunks.len() == 0 {
            true
        } else {
            proof {
                Self::lemma_len(self.chunks@);
                if self.chunks@.len() > 1 {
                    lemma_chunk_sizes(0);
                    lemma_chunk_sizes((self.chunks@.len() - 1) as nat);
                    lemma_pow2_strictly_increases(0, (self.chunks@.len() - 1) as nat);
                }
            }
            self.chunks[0].len() == 0
        }
    }

    /// The items in the order in which they were pushed, moved out of the
    /// chunks.
    pub fn into_iter(self) -> (items: Vec<T>)
        ensures
            items@ == self@,
    {
        let mut chunks = self.chunks;
        let ghost orig = chunks@;
        let mut items: Vec<T> = Vec::new();
        let mut i: usize = 0;
        while i < chunks.len()
            invariant
                chunks@.len() == orig.len(),
                i <= chunks@.len(),
                forall|j: int| i <= j < orig.len() ==> chunks@[j] == orig[j],
                items@ == concat_chunks(orig.take(i as int)),
            decreases chunks@.len() - i,
        {
            let mut chunk: Vec<T> = Vec::new();
            std::mem::swap(&mut chunk, &mut chunks[i]);
            items.append(&mut chunk);
            proof {
                assert(orig.take(i + 1).drop_last() =~= orig.take(i as int));
            }
            i += 1;
        }
        proof {
            assert(orig.take(orig.len() as int) =~= orig);
        }
        items
    }

    /// References to the items in the order in which they were pushed.
    pub fn iter(&self) -> (items: Vec<&T>)
        ensures
            items@.len() == self@.len(),
            forall|k: int| 0 <= k < items@.len() ==> *items@[k] == self@[k],
    {
        let mut items: Vec<&T> = Vec::new();
        let mut i: usize = 0;
        while i < self.chunks.len()
            invariant
                i <= self.chunks@.len(),
                items@.len() == concat_chunks(self.chunks@.take(i as int)).len(),
                forall|k: int| 0 <= k < items@.len() ==> *items@[k] == concat_chunks(self.chunks@.take(i as int))[k],
            decreases self.chunks@.len() - i,
        {
            let chunk = &self.chunks[i];
            let ghost before = concat_chunks(self.chunks@.take(i as int));
            let mut j: usize = 0;
            while j < chunk.len()
                invariant
                    j <= chunk@.len(),
                    items@.len() == before.len() + j,
                    forall|k: int| 0 <= k < items@.len() ==> *items@[k] == (before + chunk@)[k],
                decreases chunk@.len() - j,
            {
                items.push(&chunk[j]);
                j += 1;
            }
            proof {
                assert(self.chunks@.take(i + 1).drop_last() =~= self.chunks@.take(i as int));
            }
            i += 1;
        }
        proof {
            assert(self.chunks@.take(self.chunks@.len() as int) =~= self.chunks@);
        }
        items
    }
}

impl<T> Default for ChunkedVec<T> {
    fn default() -> (v: Self)
        ensures
            v.wf(),
            v@ == Seq::<T>::empty(),
    {
        Self::new()
    }
}

} // verus!

//! Bitmasks over key indices: which bits they hold, and how `|`, `&` and `>>`
//! act on them.
use vstd::prelude::*;

verus! {

/// Bit `i` of `m` is set.
pub open spec fn has_bit(m: usize, i: int) -> bool {
    0 <= i < usize::BITS && (m >> (i as usize)) & 1usize == 1usize
}

/// The mask with bits `start..end` set, built by or-ing `1 << i` for each `i` in turn.
pub open spec fn range_mask(start: int, end: int) -> usize
    decreases end - start,
{
    if end <= start {
        0usize
    } else {
        range_mask(start, end - 1) | (1usize << ((end - 1) as usize))
    }
}

/// The mask with bit `idx[k]` set for each `k`, built by or-ing them in turn.
pub open spec fn indices_mask(idx: Seq<usize>) -> usize
    decreases idx.len(),
{
    if idx.len() == 0 {
        0usize
    } else {
        indices_mask(idx.drop_last()) | (1usize << idx.last())
    }
}

pub proof fn lemma_zero_no_bit(i: usize)
    by (bit_vector)
    ensures
        (0usize >> i) & 1usize != 1usize,
{
}

pub proof fn lemma_or_bit(m: usize, k: usize, i: usize)
    by (bit_vector)
    requires
        k < usize::BITS,
        i < usize::BITS,
    ensures
        ((m | (1usize << k)) >> i) & 1usize == 1usize <==> ((m >> i) & 1usize == 1usize || i == k),
{
}

pub proof fn lemma_and_subset_bit(a: usize, b: usize, i: usize)
    by (bit_vector)
    requires
        (a & b) == a,
        (a >> i) & 1usize == 1usize,
    ensures
        (b >> i) & 1usize == 1usize,
{
}

pub proof fn lemma_or_keeps_subset(m: usize, b: usize, k: usize)
    by (bit_vector)
    requires
        (m & b) == m,
        k < usize::BITS,
        (b >> k) & 1usize == 1usize,
    ensures
        ((m | (1usize << k)) & b) == (m | (1usize << k)),
{
}

pub proof fn lemma_zero_subset(b: usize)
    by (bit_vector)
    ensures
        (0usize & b) == 0usize,
{
}

pub proof fn lemma_or_below(m: usize, j: usize, n: usize)
    by (bit_vector)
    requires
        m >> n == 0usize,
        j < n,
        n < usize::BITS,
    ensures
        (m | (1usize << j)) >> n == 0usize,
{
}

pub proof fn lemma_zero_below(n: usize)
    by (bit_vector)
    ensures
        0usize >> n == 0usize,
{
}

pub proof fn lemma_or_zero(y: usize)
    by (bit_vector)
    ensures
        (0usize | y) == y,
{
}

pub proof fn lemma_or_swap(x: usize, y: usize, z: usize)
    by (bit_vector)
    ensures
        ((x | z) | y) == ((x | y) | z),
{
}

pub proof fn lemma_or_twice(m: usize, b: usize)
    by (bit_vector)
    ensures
        ((m | b) | b) == (m | b),
{
}

pub proof fn lemma_or_assoc(x: usize, y: usize, z: usize)
    by (bit_vector)
    ensures
        (x | (y | z)) == ((x | y) | z),
{
}

pub proof fn lemma_or_comm(x: usize, y: usize)
    by (bit_vector)
    ensures
        (x | y) == (y | x),
{
}

pub proof fn lemma_or_zero_right(x: usize)
    by (bit_vector)
    ensures
        (x | 0usize) == x,
{
}

/// The bits of `range_mask(start, end)` are exactly `start..end`.
pub proof fn lemma_range_mask_bits(start: int, end: int)
    requires
        0 <= start,
        end <= usize::BITS,
    ensures
        forall|i: int| #[trigger] has_bit(range_mask(start, end), i) <==> start <= i < end,
    decreases end - start,
{
    if end <= start {
        assert forall|i: int| !#[trigger] has_bit(range_mask(start, end), i) by {
            if 0 <= i < usize::BITS {
                lemma_zero_no_bit(i as usize);
            }
        }
    } else {
        lemma_range_mask_bits(start, end - 1);
        assert forall|i: int| #[trigger] has_bit(range_mask(start, end), i) <==> start <= i < end by {
            if 0 <= i < usize::BITS {
                lemma_or_bit(range_mask(start, end - 1), (end - 1) as usize, i as usize);
                assert(has_bit(range_mask(start, end - 1), i) <==> start <= i < end - 1);
            }
        }
    }
}

/// The bits of `indices_mask(idx)` are exactly the listed indices.
pub proof fn lemma_indices_mask_bits(idx: Seq<usize>)
    requires
        forall|k: int| 0 <= k < idx.len() ==> #[trigger] idx[k] < usize::BITS,
    ensures
        forall|i: int|
            0 <= i < usize::BITS ==> (#[trigger] has_bit(indices_mask(idx), i) <==> idx.contains(
                i as usize,
            )),
    decreases idx.len(),
{
    if idx.len() == 0 {
        assert forall|i: int| 0 <= i < usize::BITS implies !#[trigger] has_bit(
            indices_mask(idx),
            i,
        ) by {
            lemma_zero_no_bit(i as usize);
        }
    } else {
        let p = idx.drop_last();
        assert forall|k: int| 0 <= k < p.len() implies #[trigger] p[k] < usize::BITS by {
            assert(p[k] == idx[k]);
        }
        lemma_indices_mask_bits(p);
        assert forall|i: int|
            0 <= i < usize::BITS implies (#[trigger] has_bit(indices_mask(idx), i)
            <==> idx.contains(i as usize)) by {
            lemma_or_bit(indices_mask(p), idx.last(), i as usize);
            assert(indices_mask(idx) == indices_mask(p) | (1usize << idx.last()));
            assert(has_bit(indices_mask(p), i) <==> p.contains(i as usize));
            if idx.contains(i as usize) {
                let k = choose|k: int| 0 <= k < idx.len() && idx[k] == i as usize;
                if k < idx.len() - 1 {
                    assert(p[k] == i as usize);
                }
            }
            if p.contains(i as usize) {
                let k = choose|k: int| 0 <= k < p.len() && p[k] == i as usize;
                assert(idx[k] == i as usize);
            }
            if i as usize == idx.last() {
                assert(idx[idx.len() - 1] == i as usize);
            }
        }
    }
}

/// When every index of `start..end` is a bit of `b`, the range mask lies within `b`.
pub proof fn lemma_range_mask_within(start: int, end: int, b: usize)
    requires
        0 <= start,
        end <= usize::BITS,
        forall|i: int| start <= i < end ==> #[trigger] has_bit(b, i),
    ensures
        (range_mask(start, end) & b) == range_mask(start, end),
    decreases end - start,
{
    if end <= start {
        lemma_zero_subset(b);
    } else {
        lemma_range_mask_within(start, end - 1, b);
        assert(has_bit(b, end - 1));
        lemma_or_keeps_subset(range_mask(start, end - 1), b, (end - 1) as usize);
    }
}

} // verus!

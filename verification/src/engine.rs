//! The free-list heap engine.
//!
//! The engine owns a description of one contiguous region of `capacity`
//! bytes and hands out sub-ranges of it. Every address is a byte offset into
//! the region, so the whole algorithm is ordinary data-structure code over
//! integers: the block list partitions `[0, capacity)` into maximal runs that
//! are either free or allocated, no two adjacent free blocks coexist, and the
//! `used`/`free` aggregates are maintained alongside the list rather than
//! recomputed by scanning.

use vstd::prelude::*;

verus! {

/// Whether a block of the region is currently handed out or available.
#[derive(Clone, Copy, PartialEq, Eq, Structural, Debug)]
pub enum BlockState {
    Free,
    Allocated,
}

/// A maximal run of bytes within the region, `[off, off + len)`.
#[derive(Clone, Copy, PartialEq, Eq, Structural, Debug)]
pub struct Block {
    pub off: usize,
    pub len: usize,
    pub state: BlockState,
}

/// The smallest multiple-of-`align` offset that is `>= off`.
pub open spec fn spec_align_up(off: int, align: int) -> int {
    if off % align == 0 {
        off
    } else {
        off + align - off % align
    }
}

/// A free block can serve a request of `size` bytes at alignment `align`
/// when the aligned start still leaves `size` bytes inside the block.
pub open spec fn block_fits(b: Block, size: int, align: int) -> bool {
    &&& b.state == BlockState::Free
    &&& spec_align_up(b.off as int, align) + size <= b.off + b.len
}

/// Index of the first block at or after `i` that can serve the request.
pub open spec fn find_fit_from(s: Seq<Block>, size: int, align: int, i: int) -> Option<int>
    decreases s.len() - i when 0 <= i <= s.len()
{
    if i >= s.len() {
        None
    } else if block_fits(s[i], size, align) {
        Some(i)
    } else {
        find_fit_from(s, size, align, i + 1)
    }
}

/// Index of the first free block that can serve the request: first-fit.
pub open spec fn find_fit(s: Seq<Block>, size: int, align: int) -> Option<int> {
    find_fit_from(s, size, align, 0)
}

/// Total bytes held by free blocks of `s`.
pub open spec fn sum_free(s: Seq<Block>) -> int
    decreases s.len()
{
    if s.len() == 0 {
        0
    } else {
        sum_free(s.drop_last()) + if s.last().state == BlockState::Free {
            s.last().len as int
        } else {
            0
        }
    }
}

/// Total bytes held by all blocks of `s`.
pub open spec fn sum_len(s: Seq<Block>) -> int
    decreases s.len()
{
    if s.len() == 0 {
        0
    } else {
        sum_len(s.drop_last()) + s.last().len
    }
}

/// Well-formedness of a block list over a region of `cap` bytes:
/// the blocks are nonempty, contiguous, cover exactly `[0, cap)` in address
/// order, and no two adjacent blocks are both free (the coalescing
/// invariant).
pub open spec fn wf_blocks(s: Seq<Block>, cap: int) -> bool {
    &&& s.len() > 0
    &&& s[0].off == 0
    &&& s[s.len() - 1].off + s[s.len() - 1].len == cap
    &&& forall|i: int| 0 <= i < s.len() ==> (#[trigger] s[i]).len > 0
    &&& forall|i: int, j: int|
        0 <= i && j == i + 1 && j < s.len() ==> (#[trigger] s[i]).off + s[i].len == (
        #[trigger] s[j]).off
    &&& forall|i: int, j: int|
        0 <= i && j == i + 1 && j < s.len() ==> !((#[trigger] s[i]).state == BlockState::Free && (
        #[trigger] s[j]).state == BlockState::Free)
}

/// `spec_align_up` lands in `[off, off + align)` and is a multiple of
/// `align`.
pub proof fn lemma_align_up_properties(off: int, align: int)
    requires
        0 <= off,
        0 < align,
    ensures
        off <= spec_align_up(off, align) < off + align,
        spec_align_up(off, align) % align == 0,
{
    let r = off % align;
    vstd::arithmetic::div_mod::lemma_mod_bound(off, align);
    if r != 0 {
        let q = off / align;
        vstd::arithmetic::div_mod::lemma_fundamental_div_mod(off, align);
        assert(spec_align_up(off, align) == (q + 1) * align) by (nonlinear_arith)
            requires
                off == q * align + r,
                spec_align_up(off, align) == off + align - r,
        ;
        vstd::arithmetic::div_mod::lemma_mod_multiples_basic(q + 1, align);
    }
}

/// Sums distribute over concatenation.
pub proof fn lemma_sum_free_concat(a: Seq<Block>, b: Seq<Block>)
    ensures
        sum_free(a + b) == sum_free(a) + sum_free(b),
    decreases b.len(),
{
    if b.len() == 0 {
        assert(a + b =~= a);
    } else {
        lemma_sum_free_concat(a, b.drop_last());
        assert((a + b).drop_last() =~= a + b.drop_last());
        assert((a + b).last() == b.last());
    }
}

/// Sums distribute over concatenation.
pub proof fn lemma_sum_len_concat(a: Seq<Block>, b: Seq<Block>)
    ensures
        sum_len(a + b) == sum_len(a) + sum_len(b),
    decreases b.len(),
{
    if b.len() == 0 {
        assert(a + b =~= a);
    } else {
        lemma_sum_len_concat(a, b.drop_last());
        assert((a + b).drop_last() =~= a + b.drop_last());
        assert((a + b).last() == b.last());
    }
}

/// Both sums of a block list split around any one position.
pub proof fn lemma_sums_at(s: Seq<Block>, i: int)
    requires
        0 <= i < s.len(),
    ensures
        sum_free(s) == sum_free(s.subrange(0, i)) + (if s[i].state == BlockState::Free {
            s[i].len as int
        } else {
            0
        }) + sum_free(s.subrange(i + 1, s.len() as int)),
        sum_len(s) == sum_len(s.subrange(0, i)) + s[i].len + sum_len(
            s.subrange(i + 1, s.len() as int),
        ),
{
    let pre = s.subrange(0, i);
    let mid = seq![s[i]];
    let post = s.subrange(i + 1, s.len() as int);
    assert(s =~= (pre + mid) + post);
    lemma_sum_free_concat(pre + mid, post);
    lemma_sum_free_concat(pre, mid);
    lemma_sum_len_concat(pre + mid, post);
    lemma_sum_len_concat(pre, mid);
    assert(mid.drop_last() =~= Seq::<Block>::empty());
    assert(sum_free(Seq::<Block>::empty()) == 0);
    assert(sum_len(Seq::<Block>::empty()) == 0);
    assert(mid.last() == s[i]);
    assert(sum_free(mid) == (if s[i].state == BlockState::Free {
        s[i].len as int
    } else {
        0
    }));
    assert(sum_len(mid) == s[i].len);
    assert(sum_free(s) == sum_free((pre + mid) + post));
    assert(sum_len(s) == sum_len((pre + mid) + post));
}

/// The free sum of a single block, spelled out.
pub proof fn lemma_sum_free_singleton(b: Block)
    ensures
        sum_free(seq![b]) == (if b.state == BlockState::Free {
            b.len as int
        } else {
            0
        }),
{
    assert(seq![b].drop_last() =~= Seq::<Block>::empty());
    assert(sum_free(Seq::<Block>::empty()) == 0);
}

/// The free sum never goes negative.
pub proof fn lemma_sum_free_nonneg(s: Seq<Block>)
    ensures
        0 <= sum_free(s),
    decreases s.len(),
{
    if s.len() > 0 {
        lemma_sum_free_nonneg(s.drop_last());
    }
}

/// Free bytes are a part of all bytes.
pub proof fn lemma_sum_free_le_sum_len(s: Seq<Block>)
    ensures
        sum_free(s) <= sum_len(s),
    decreases s.len(),
{
    if s.len() > 0 {
        lemma_sum_free_le_sum_len(s.drop_last());
    }
}

/// One free block never holds more than the whole free sum.
pub proof fn lemma_free_block_le_sum_free(s: Seq<Block>, i: int)
    requires
        0 <= i < s.len(),
        s[i].state == BlockState::Free,
    ensures
        s[i].len <= sum_free(s),
{
    lemma_sums_at(s, i);
    lemma_sum_free_nonneg(s.subrange(0, i));
    lemma_sum_free_nonneg(s.subrange(i + 1, s.len() as int));
}

/// One allocated block's bytes are missing from the free sum.
pub proof fn lemma_allocated_block_excluded(s: Seq<Block>, i: int)
    requires
        0 <= i < s.len(),
        s[i].state == BlockState::Allocated,
    ensures
        sum_free(s) + s[i].len <= sum_len(s),
{
    lemma_sums_at(s, i);
    lemma_sum_free_le_sum_len(s.subrange(0, i));
    lemma_sum_free_le_sum_len(s.subrange(i + 1, s.len() as int));
}

/// In a well-formed list the block offsets grow strictly along the list.
pub proof fn lemma_offsets_monotonic(s: Seq<Block>, cap: int, i: int, j: int)
    requires
        wf_blocks(s, cap),
        0 <= i <= j < s.len(),
    ensures
        s[i].off <= s[j].off,
        i < j ==> s[i].off + s[i].len <= s[j].off,
    decreases j - i,
{
    if i < j {
        lemma_offsets_monotonic(s, cap, i, j - 1);
    }
}

/// Every well-formed block lies inside the region.
pub proof fn lemma_block_in_region(s: Seq<Block>, cap: int, i: int)
    requires
        wf_blocks(s, cap),
        0 <= i < s.len(),
    ensures
        s[i].off + s[i].len <= cap,
{
    if i < s.len() - 1 {
        lemma_offsets_monotonic(s, cap, i, s.len() - 1);
    }
}

/// A well-formed block list accounts for every byte of the region.
pub proof fn lemma_wf_sum_len(s: Seq<Block>, cap: int)
    requires
        wf_blocks(s, cap),
    ensures
        sum_len(s) == cap,
    decreases s.len(),
{
    let n = s.len() as int;
    assert(s.drop_last().len() == n - 1);
    if s.len() == 1 {
        assert(s.drop_last() =~= Seq::<Block>::empty());
        assert(sum_len(Seq::<Block>::empty()) == 0);
        assert(sum_len(s) == s[0].len);
    } else {
        let t = s.drop_last();
        let subcap = s[n - 1].off as int;
        assert(wf_blocks(t, subcap)) by {
            assert(forall|i: int| 0 <= i < t.len() ==> t[i] == s[i]);
            assert(t[t.len() - 1] == s[n - 2]);
            assert(s[n - 1].off == s[n - 2].off + s[n - 2].len);
        }
        lemma_wf_sum_len(t, subcap);
        assert(sum_len(s) == sum_len(t) + s[n - 1].len);
    }
}

/// No two distinct blocks of a well-formed list share an offset.
pub proof fn lemma_offsets_unique(s: Seq<Block>, cap: int, i: int, j: int)
    requires
        wf_blocks(s, cap),
        0 <= i < s.len(),
        0 <= j < s.len(),
        s[i].off == s[j].off,
    ensures
        i == j,
{
    if i < j {
        lemma_offsets_monotonic(s, cap, i, j);
    } else if j < i {
        lemma_offsets_monotonic(s, cap, j, i);
    }
}

/// What `find_fit_from` answers is authoritative: a `Some` names the first
/// fitting block at or after `i0`, a `None` means there is none.
pub proof fn lemma_find_fit_from_props(s: Seq<Block>, size: int, align: int, i0: int)
    requires
        0 <= i0 <= s.len(),
    ensures
        (match find_fit_from(s, size, align, i0) {
            Option::Some(i) => {
                &&& i0 <= i < s.len()
                &&& block_fits(s[i], size, align)
                &&& forall|k: int| i0 <= k < i ==> !block_fits(#[trigger] s[k], size, align)
            },
            Option::None => forall|k: int|
                i0 <= k < s.len() ==> !block_fits(#[trigger] s[k], size, align),
        }),
    decreases s.len() - i0,
{
    if i0 < s.len() && !block_fits(s[i0], size, align) {
        lemma_find_fit_from_props(s, size, align, i0 + 1);
    }
}

/// The block list after serving a request of `size` bytes at alignment
/// `align` from the free block at index `i`: the aligned `size`-byte
/// sub-range becomes allocated, and the leading padding and the trailing
/// remainder, when nonempty, re-enter the list as free blocks.
pub open spec fn split_for_alloc(s: Seq<Block>, i: int, size: int, align: int) -> Seq<Block> {
    let b = s[i];
    let start = spec_align_up(b.off as int, align);
    let pad = start - b.off;
    let tail = b.off + b.len - (start + size);
    let lead_s: Seq<Block> = if pad > 0 {
        seq![(Block { off: b.off, len: pad as usize, state: BlockState::Free })]
    } else {
        Seq::<Block>::empty()
    };
    let mid_s: Seq<Block> = seq![
        (Block { off: start as usize, len: size as usize, state: BlockState::Allocated }),
    ];
    let tail_s: Seq<Block> = if tail > 0 {
        seq![(Block { off: (start + size) as usize, len: tail as usize, state: BlockState::Free })]
    } else {
        Seq::<Block>::empty()
    };
    s.subrange(0, i) + lead_s + mid_s + tail_s + s.subrange(i + 1, s.len() as int)
}

/// Splicing a fragment over the block range `[lo, hi)` preserves
/// well-formedness, provided the fragment is itself a well-formed chain over
/// exactly the bytes of that range and does not put a free block next to a
/// free neighbour.
#[verifier::rlimit(100)]
#[verifier::spinoff_prover]
pub proof fn lemma_replace_range_preserves_wf(
    s: Seq<Block>,
    cap: int,
    lo: int,
    hi: int,
    frag: Seq<Block>,
)
    requires
        wf_blocks(s, cap),
        0 <= lo < hi <= s.len(),
        frag.len() > 0,
        frag[0].off == s[lo].off,
        frag[frag.len() - 1].off + frag[frag.len() - 1].len == s[hi - 1].off + s[hi - 1].len,
        forall|k: int| 0 <= k < frag.len() ==> (#[trigger] frag[k]).len > 0,
        forall|k: int, k2: int|
            0 <= k && k2 == k + 1 && k2 < frag.len() ==> (#[trigger] frag[k]).off + frag[k].len
                == (#[trigger] frag[k2]).off,
        forall|k: int, k2: int|
            0 <= k && k2 == k + 1 && k2 < frag.len() ==> !((#[trigger] frag[k]).state
                == BlockState::Free && (#[trigger] frag[k2]).state == BlockState::Free),
        lo > 0 && frag[0].state == BlockState::Free ==> s[lo - 1].state != BlockState::Free,
        hi < s.len() && frag[frag.len() - 1].state == BlockState::Free ==> s[hi].state
            != BlockState::Free,
    ensures
        wf_blocks(s.subrange(0, lo) + frag + s.subrange(hi, s.len() as int), cap),
{
    let n = s.len() as int;
    let m = frag.len() as int;
    let pre = s.subrange(0, lo);
    let post = s.subrange(hi, n);
    let t = pre + frag + post;
    assert(t.len() == lo + m + (n - hi));
    assert(forall|k: int| 0 <= k < lo ==> (#[trigger] t[k]) == s[k]);
    assert(forall|k: int| lo <= k < lo + m ==> (#[trigger] t[k]) == frag[k - lo]);
    assert(forall|k: int| lo + m <= k < t.len() ==> (#[trigger] t[k]) == s[k - m + (hi - lo)]);
    assert(t[0].off == 0);
    assert(t[t.len() - 1].off + t[t.len() - 1].len == cap);
    assert(forall|k: int| 0 <= k < t.len() ==> (#[trigger] t[k]).len > 0);
    assert forall|k: int, k2: int| 0 <= k && k2 == k + 1 && k2 < t.len() implies (
    #[trigger] t[k]).off + t[k].len == (#[trigger] t[k2]).off by {
        if k2 < lo {
            assert(t[k] == s[k] && t[k2] == s[k2]);
            assert(s[k].off + s[k].len == s[k2].off);
        } else if k2 == lo {
            assert(t[k] == s[lo - 1] && t[k2] == frag[0]);
            assert(s[lo - 1].off + s[lo - 1].len == s[lo].off);
        } else if k2 < lo + m {
            assert(t[k] == frag[k - lo] && t[k2] == frag[k2 - lo]);
            assert(frag[k - lo].off + frag[k - lo].len == frag[k2 - lo].off);
        } else if k2 == lo + m {
            assert(t[k] == frag[m - 1] && t[k2] == s[hi]);
            assert(s[hi - 1].off + s[hi - 1].len == s[hi].off);
        } else {
            let k0 = k2 - m + (hi - lo);
            assert(t[k] == s[k0 - 1] && t[k2] == s[k0]);
            assert(s[k0 - 1].off + s[k0 - 1].len == s[k0].off);
        }
    }
    assert forall|k: int, k2: int| 0 <= k && k2 == k + 1 && k2 < t.len() implies !((
    #[trigger] t[k]).state == BlockState::Free && (#[trigger] t[k2]).state == BlockState::Free) by {
        if k2 < lo {
            assert(t[k] == s[k] && t[k2] == s[k2]);
            assert(!(s[k].state == BlockState::Free && s[k2].state == BlockState::Free));
        } else if k2 == lo {
            assert(t[k] == s[lo - 1] && t[k2] == frag[0]);
        } else if k2 < lo + m {
            assert(t[k] == frag[k - lo] && t[k2] == frag[k2 - lo]);
            assert(!(frag[k - lo].state == BlockState::Free && frag[k2 - lo].state
                == BlockState::Free));
        } else if k2 == lo + m {
            assert(t[k] == frag[m - 1] && t[k2] == s[hi]);
        } else {
            let k0 = k2 - m + (hi - lo);
            assert(t[k] == s[k0 - 1] && t[k2] == s[k0]);
            assert(!(s[k0 - 1].state == BlockState::Free && s[k0].state == BlockState::Free));
        }
    }
}

/// Serving a fitting request preserves well-formedness and removes exactly
/// `size` bytes from the free sum.
#[verifier::rlimit(100)]
#[verifier::spinoff_prover]
pub proof fn lemma_split_preserves_wf(s: Seq<Block>, cap: int, i: int, size: int, align: int)
    requires
        wf_blocks(s, cap),
        cap <= usize::MAX,
        0 <= i < s.len(),
        0 < size,
        0 < align,
        block_fits(s[i], size, align),
    ensures
        wf_blocks(split_for_alloc(s, i, size, align), cap),
        sum_free(split_for_alloc(s, i, size, align)) == sum_free(s) - size,
{
    let b = s[i];
    let off = b.off as int;
    let len = b.len as int;
    let n = s.len() as int;
    lemma_align_up_properties(off, align);
    lemma_block_in_region(s, cap, i);
    let start = spec_align_up(off, align);
    let pad = start - off;
    let tail = off + len - (start + size);
    let pre = s.subrange(0, i);
    let post = s.subrange(i + 1, n);
    let lead_s: Seq<Block> = if pad > 0 {
        seq![(Block { off: b.off, len: pad as usize, state: BlockState::Free })]
    } else {
        Seq::<Block>::empty()
    };
    let mid_s: Seq<Block> = seq![
        (Block { off: start as usize, len: size as usize, state: BlockState::Allocated }),
    ];
    let tail_s: Seq<Block> = if tail > 0 {
        seq![(Block { off: (start + size) as usize, len: tail as usize, state: BlockState::Free })]
    } else {
        Seq::<Block>::empty()
    };
    let frag = lead_s + mid_s + tail_s;
    let t = split_for_alloc(s, i, size, align);
    assert(t =~= pre + frag + post);
    let p = lead_s.len() as int;
    let q = tail_s.len() as int;
    assert(frag.len() == p + 1 + q);
    assert(p == 1 ==> frag[0] == lead_s[0]);
    assert(frag[p] == mid_s[0]);
    assert(q == 1 ==> frag[p + 1] == tail_s[0]);

    // The fragment is a chain over exactly the bytes of block `i`.
    assert(frag[0].off == s[i].off);
    assert(frag[frag.len() - 1].off + frag[frag.len() - 1].len == off + len);
    assert(forall|k: int| 0 <= k < frag.len() ==> (#[trigger] frag[k]).len > 0);
    assert(forall|k: int, k2: int|
        0 <= k && k2 == k + 1 && k2 < frag.len() ==> (#[trigger] frag[k]).off + frag[k].len == (
        #[trigger] frag[k2]).off);
    assert(forall|k: int, k2: int|
        0 <= k && k2 == k + 1 && k2 < frag.len() ==> !((#[trigger] frag[k]).state
            == BlockState::Free && (#[trigger] frag[k2]).state == BlockState::Free));
    if i > 0 && frag[0].state == BlockState::Free {
        assert(s[i - 1].state != BlockState::Free);
    }
    if i + 1 < n && frag[frag.len() - 1].state == BlockState::Free {
        assert(s[i + 1].state != BlockState::Free);
    }
    lemma_replace_range_preserves_wf(s, cap, i, i + 1, frag);
    assert(wf_blocks(t, cap));

    // The free sum drops by exactly `size`.
    lemma_sums_at(s, i);
    lemma_sum_free_concat(pre + frag, post);
    lemma_sum_free_concat(pre, frag);
    lemma_sum_free_concat(lead_s + mid_s, tail_s);
    lemma_sum_free_concat(lead_s, mid_s);
    assert(sum_free(Seq::<Block>::empty()) == 0);
    if pad > 0 {
        assert(lead_s.drop_last() =~= Seq::<Block>::empty());
    }
    if tail > 0 {
        assert(tail_s.drop_last() =~= Seq::<Block>::empty());
    }
    assert(mid_s.drop_last() =~= Seq::<Block>::empty());
    assert(sum_free(mid_s) == 0);
    assert(sum_free(frag) == pad + tail);
    assert(sum_free(t) == sum_free(pre) + pad + tail + sum_free(post));
}

/// Index of the block that starts at offset `off`; meaningful only when
/// such a block exists, and then unique, since offsets grow strictly along a
/// well-formed list.
pub open spec fn block_index(s: Seq<Block>, off: int) -> int {
    choose|i: int| 0 <= i < s.len() && s[i].off == off
}

/// The block list after releasing the allocated block at index `i`: the
/// block becomes free and is merged with the immediately preceding and
/// following blocks when those are free, so that no two adjacent free blocks
/// remain.
pub open spec fn coalesce_at(s: Seq<Block>, i: int) -> Seq<Block> {
    let pf = i > 0 && s[i - 1].state == BlockState::Free;
    let nf = i + 1 < s.len() && s[i + 1].state == BlockState::Free;
    let lo = if pf {
        i - 1
    } else {
        i
    };
    let hi = if nf {
        i + 2
    } else {
        i + 1
    };
    let merged_len = (if pf {
        s[i - 1].len as int
    } else {
        0
    }) + s[i].len + (if nf {
        s[i + 1].len as int
    } else {
        0
    });
    s.subrange(0, lo) + seq![
        (Block { off: s[lo].off, len: merged_len as usize, state: BlockState::Free }),
    ] + s.subrange(hi, s.len() as int)
}

/// Releasing an allocated block preserves well-formedness and returns
/// exactly its bytes to the free sum.
#[verifier::rlimit(100)]
#[verifier::spinoff_prover]
pub proof fn lemma_coalesce_preserves_wf(s: Seq<Block>, cap: int, i: int)
    requires
        wf_blocks(s, cap),
        cap <= usize::MAX,
        0 <= i < s.len(),
        s[i].state == BlockState::Allocated,
    ensures
        wf_blocks(coalesce_at(s, i), cap),
        sum_free(coalesce_at(s, i)) == sum_free(s) + s[i].len,
{
    let n = s.len() as int;
    let pf = i > 0 && s[i - 1].state == BlockState::Free;
    let nf = i + 1 < n && s[i + 1].state == BlockState::Free;
    let lo = if pf {
        i - 1
    } else {
        i
    };
    let hi = if nf {
        i + 2
    } else {
        i + 1
    };
    let merged_len = (if pf {
        s[i - 1].len as int
    } else {
        0
    }) + s[i].len + (if nf {
        s[i + 1].len as int
    } else {
        0
    });
    if pf {
        assert(s[i - 1].off + s[i - 1].len == s[i].off);
    }
    if nf {
        assert(s[i].off + s[i].len == s[i + 1].off);
    }
    lemma_block_in_region(s, cap, hi - 1);
    assert(s[lo].off + merged_len == s[hi - 1].off + s[hi - 1].len);
    let merged = Block { off: s[lo].off, len: merged_len as usize, state: BlockState::Free };
    let frag = seq![merged];
    assert(frag[0] == merged);
    assert(frag.len() == 1);
    if lo > 0 {
        assert(s[lo - 1].state != BlockState::Free) by {
            if pf {
                assert(!(s[i - 2].state == BlockState::Free && s[i - 1].state
                    == BlockState::Free));
            }
        }
    }
    if hi < n {
        assert(s[hi].state != BlockState::Free) by {
            if nf {
                assert(!(s[i + 1].state == BlockState::Free && s[i + 2].state
                    == BlockState::Free));
            }
        }
    }
    lemma_replace_range_preserves_wf(s, cap, lo, hi, frag);
    let t = coalesce_at(s, i);
    assert(t == s.subrange(0, lo) + frag + s.subrange(hi, n));
    lemma_coalesce_sum(s, cap, i);
}

/// The free-sum half of releasing a block: exactly its bytes come back.
#[verifier::rlimit(100)]
#[verifier::spinoff_prover]
pub proof fn lemma_coalesce_sum(s: Seq<Block>, cap: int, i: int)
    requires
        wf_blocks(s, cap),
        cap <= usize::MAX,
        0 <= i < s.len(),
        s[i].state == BlockState::Allocated,
    ensures
        sum_free(coalesce_at(s, i)) == sum_free(s) + s[i].len,
{
    let n = s.len() as int;
    let pf = i > 0 && s[i - 1].state == BlockState::Free;
    let nf = i + 1 < n && s[i + 1].state == BlockState::Free;
    let lo = if pf {
        i - 1
    } else {
        i
    };
    let hi = if nf {
        i + 2
    } else {
        i + 1
    };
    let merged_len = (if pf {
        s[i - 1].len as int
    } else {
        0
    }) + s[i].len + (if nf {
        s[i + 1].len as int
    } else {
        0
    });
    if pf {
        assert(s[i - 1].off + s[i - 1].len == s[i].off);
    }
    if nf {
        assert(s[i].off + s[i].len == s[i + 1].off);
    }
    lemma_block_in_region(s, cap, hi - 1);
    let merged = Block { off: s[lo].off, len: merged_len as usize, state: BlockState::Free };
    let frag = seq![merged];
    let t = coalesce_at(s, i);
    let pre = s.subrange(0, lo);
    let post = s.subrange(hi, n);
    let mid = s.subrange(lo, hi);
    assert(t == pre + frag + post);
    assert(s =~= (pre + mid) + post);
    lemma_sum_free_concat(pre + mid, post);
    lemma_sum_free_concat(pre, mid);
    lemma_sum_free_concat(pre + frag, post);
    lemma_sum_free_concat(pre, frag);
    lemma_sum_free_singleton(merged);
    assert(sum_free(frag) == merged_len);
    assert(sum_free(mid) == merged_len - s[i].len) by {
        lemma_sum_free_singleton(s[i]);
        if pf && nf {
            lemma_sum_free_concat(seq![s[i - 1]] + seq![s[i]], seq![s[i + 1]]);
            lemma_sum_free_concat(seq![s[i - 1]], seq![s[i]]);
            lemma_sum_free_singleton(s[i - 1]);
            lemma_sum_free_singleton(s[i + 1]);
            assert(mid =~= (seq![s[i - 1]] + seq![s[i]]) + seq![s[i + 1]]);
        } else if pf {
            lemma_sum_free_concat(seq![s[i - 1]], seq![s[i]]);
            lemma_sum_free_singleton(s[i - 1]);
            assert(mid =~= seq![s[i - 1]] + seq![s[i]]);
        } else if nf {
            lemma_sum_free_concat(seq![s[i]], seq![s[i + 1]]);
            lemma_sum_free_singleton(s[i + 1]);
            assert(mid =~= seq![s[i]] + seq![s[i + 1]]);
        } else {
            assert(mid =~= seq![s[i]]);
        }
    }
    assert(sum_free(t) == sum_free(pre) + merged_len + sum_free(post));
}

/// The free-list heap engine over a region of `capacity` bytes.
///
/// The caller is assumed to hold exclusive access for the duration of each
/// call; the engine itself performs no synchronization.
pub struct HeapEngine {
    pub blocks: Vec<Block>,
    pub used_bytes: usize,
    pub free_bytes: usize,
    pub capacity: usize,
}

impl HeapEngine {
    /// The engine's invariant: the block list is well formed over the region
    /// and the aggregates agree with it.
    pub open spec fn wf(self) -> bool {
        &&& wf_blocks(self.blocks@, self.capacity as int)
        &&& self.free_bytes == sum_free(self.blocks@)
        &&& self.used_bytes + self.free_bytes == self.capacity
    }

    /// A fresh engine over a region of `capacity` bytes: nothing is in use
    /// and one free block spans the whole region.
    pub fn new(capacity: usize) -> (r: HeapEngine)
        requires
            capacity > 0,
        ensures
            r.wf(),
            r.capacity == capacity,
            r.used_bytes == 0,
            r.free_bytes == capacity,
            r.blocks@ == seq![(Block { off: 0, len: capacity, state: BlockState::Free })],
    {
        let mut blocks: Vec<Block> = Vec::new();
        blocks.push(Block { off: 0, len: capacity, state: BlockState::Free });
        proof {
            let s = blocks@;
            assert(s =~= seq![(Block { off: 0, len: capacity, state: BlockState::Free })]);
            assert(s.drop_last() =~= Seq::<Block>::empty());
            assert(sum_free(Seq::<Block>::empty()) == 0);
            assert(sum_free(s) == capacity);
        }
        HeapEngine { blocks, used_bytes: 0, free_bytes: capacity, capacity }
    }

    /// Serve a request of `size` bytes at alignment `align`.
    ///
    /// The free blocks are scanned in address order and the first one whose
    /// length, after alignment padding, can hold the request is split: the
    /// aligned `size`-byte sub-range becomes allocated and is returned as an
    /// offset into the region, while the padding and the remainder stay
    /// free. When no single free block is large enough the engine reports
    /// exhaustion by returning `None` and changes nothing; it never resizes
    /// the region.
    pub fn allocate(&mut self, size: usize, align: usize) -> (r: Option<usize>)
        requires
            old(self).wf(),
            0 < size,
            0 < align,
        ensures
            final(self).wf(),
            final(self).capacity == old(self).capacity,
            r is None ==> {
                &&& final(self).blocks@ == old(self).blocks@
                &&& final(self).used_bytes == old(self).used_bytes
                &&& final(self).free_bytes == old(self).free_bytes
                &&& find_fit(old(self).blocks@, size as int, align as int) is None
            },
            r is Some ==> (find_fit(old(self).blocks@, size as int, align as int)
                matches Option::Some(i) && (r matches Option::Some(at) && {
                &&& at == spec_align_up(old(self).blocks@[i].off as int, align as int)
                &&& at as int % align as int == 0
                &&& final(self).blocks@ == split_for_alloc(
                    old(self).blocks@,
                    i,
                    size as int,
                    align as int,
                )
                &&& final(self).used_bytes == old(self).used_bytes + size
                &&& final(self).free_bytes == old(self).free_bytes - size
            })),
    {
        let ghost s0 = self.blocks@;
        let ghost cap = self.capacity as int;
        let n = self.blocks.len();
        let mut i: usize = 0;
        while i < n
            invariant
                old(self).wf(),
                self.blocks@ == s0,
                self.used_bytes == old(self).used_bytes,
                self.free_bytes == old(self).free_bytes,
                self.capacity == old(self).capacity,
                s0 == old(self).blocks@,
                cap == self.capacity as int,
                n == self.blocks.len(),
                0 <= i <= n,
                0 < size,
                0 < align,
                find_fit(s0, size as int, align as int) == find_fit_from(
                    s0,
                    size as int,
                    align as int,
                    i as int,
                ),
            decreases n - i,
        {
            let b = self.blocks[i];
            let rem = b.off % align;
            proof {
                vstd::arithmetic::div_mod::lemma_mod_bound(b.off as int, align as int);
            }
            let pad = if rem == 0 {
                0
            } else {
                align - rem
            };
            proof {
                lemma_align_up_properties(b.off as int, align as int);
                assert(spec_align_up(b.off as int, align as int) == b.off + pad);
            }
            if b.state == BlockState::Free && pad <= b.len && size <= b.len - pad {
                proof {
                    assert(block_fits(b, size as int, align as int));
                    lemma_block_in_region(s0, cap, i as int);
                    lemma_split_preserves_wf(s0, cap, i as int, size as int, align as int);
                    lemma_free_block_le_sum_free(s0, i as int);
                }
                let start = b.off + pad;
                let tail_len = b.len - pad - size;
                let mut nb: Vec<Block> = Vec::new();
                let mut k: usize = 0;
                while k < i
                    invariant
                        0 <= k <= i < n,
                        n == self.blocks.len(),
                        self.blocks@ == s0,
                        nb@ == s0.subrange(0, k as int),
                    decreases i - k,
                {
                    nb.push(self.blocks[k]);
                    proof {
                        assert(nb@ =~= s0.subrange(0, k as int + 1));
                    }
                    k += 1;
                }
                if pad > 0 {
                    nb.push(Block { off: b.off, len: pad, state: BlockState::Free });
                }
                nb.push(Block { off: start, len: size, state: BlockState::Allocated });
                if tail_len > 0 {
                    nb.push(Block { off: start + size, len: tail_len, state: BlockState::Free });
                }
                let ghost mid_done = nb@;
                let mut k2: usize = i + 1;
                while k2 < n
                    invariant
                        i as int + 1 <= k2 as int <= n as int,
                        n == self.blocks.len(),
                        self.blocks@ == s0,
                        nb@ == mid_done + s0.subrange(i as int + 1, k2 as int),
                    decreases n - k2,
                {
                    nb.push(self.blocks[k2]);
                    proof {
                        assert(nb@ =~= mid_done + s0.subrange(i as int + 1, k2 as int + 1));
                    }
                    k2 += 1;
                }
                proof {
                    assert(nb@ =~= split_for_alloc(s0, i as int, size as int, align as int));
                }
                self.blocks = nb;
                self.used_bytes = self.used_bytes + size;
                self.free_bytes = self.free_bytes - size;
                return Some(start);
            }
            proof {
                assert(!block_fits(s0[i as int], size as int, align as int));
            }
            i += 1;
        }
        None
    }

    /// Release the allocated block of `size` bytes at region offset
    /// `offset`.
    ///
    /// The range re-enters the free list in address order and is merged with
    /// the immediately preceding and following blocks when those are free,
    /// so no two adjacent free blocks remain. The pair `(offset, size)` must
    /// exactly match a block previously handed out by [`Self::allocate`] and
    /// not yet released; the engine does not defend against a violation, it
    /// rules it out by precondition.
    pub fn deallocate(&mut self, offset: usize, size: usize)
        requires
            old(self).wf(),
            exists|j: int|
                0 <= j < old(self).blocks@.len() && old(self).blocks@[j] == (Block {
                    off: offset,
                    len: size,
                    state: BlockState::Allocated,
                }),
        ensures
            final(self).wf(),
            final(self).capacity == old(self).capacity,
            final(self).used_bytes == old(self).used_bytes - size,
            final(self).free_bytes == old(self).free_bytes + size,
            final(self).blocks@ == coalesce_at(
                old(self).blocks@,
                block_index(old(self).blocks@, offset as int),
            ),
            old(self).blocks@[block_index(old(self).blocks@, offset as int)] == (Block {
                off: offset,
                len: size,
                state: BlockState::Allocated,
            }),
    {
        let ghost s0 = self.blocks@;
        let ghost cap = self.capacity as int;
        let ghost w = choose|j: int|
            0 <= j < s0.len() && s0[j] == (Block {
                off: offset,
                len: size,
                state: BlockState::Allocated,
            });
        let n = self.blocks.len();
        let mut j: usize = 0;
        while self.blocks[j].off != offset
            invariant
                0 <= j as int <= w < n as int,
                n == self.blocks.len(),
                self.blocks@ == s0,
                wf_blocks(s0, cap),
                s0[w].off == offset,
            decreases w - j as int,
        {
            j += 1;
        }
        proof {
            lemma_offsets_unique(s0, cap, j as int, w);
            assert(s0[block_index(s0, offset as int)].off == offset && 0 <= block_index(
                s0,
                offset as int,
            ) < s0.len()) by {
                assert(0 <= w < s0.len() && s0[w].off == offset);
            }
            lemma_offsets_unique(s0, cap, block_index(s0, offset as int), w);
            lemma_coalesce_preserves_wf(s0, cap, j as int);
            lemma_allocated_block_excluded(s0, j as int);
            lemma_wf_sum_len(s0, cap);
            lemma_sum_free_nonneg(s0);
        }
        let b = self.blocks[j];
        let prev_free = j > 0 && self.blocks[j - 1].state == BlockState::Free;
        let next_free = j + 1 < n && self.blocks[j + 1].state == BlockState::Free;
        let lo = if prev_free {
            j - 1
        } else {
            j
        };
        let hi = if next_free {
            j + 2
        } else {
            j + 1
        };
        proof {
            if prev_free {
                assert(s0[j as int - 1].off + s0[j as int - 1].len == s0[j as int].off);
            }
            if next_free {
                assert(s0[j as int].off + s0[j as int].len == s0[j as int + 1].off);
            }
            lemma_block_in_region(s0, cap, hi as int - 1);
        }
        let merged_off = self.blocks[lo].off;
        let mut merged_len = b.len;
        if prev_free {
            merged_len = merged_len + self.blocks[j - 1].len;
        }
        if next_free {
            merged_len = merged_len + self.blocks[j + 1].len;
        }
        let mut nb: Vec<Block> = Vec::new();
        let mut k: usize = 0;
        while k < lo
            invariant
                0 <= k <= lo < n,
                n == self.blocks.len(),
                self.blocks@ == s0,
                nb@ == s0.subrange(0, k as int),
            decreases lo - k,
        {
            nb.push(self.blocks[k]);
            proof {
                assert(nb@ =~= s0.subrange(0, k as int + 1));
            }
            k += 1;
        }
        nb.push(Block { off: merged_off, len: merged_len, state: BlockState::Free });
        let ghost mid_done = nb@;
        let mut k2: usize = hi;
        while k2 < n
            invariant
                hi as int <= k2 as int <= n as int,
                n == self.blocks.len(),
                self.blocks@ == s0,
                nb@ == mid_done + s0.subrange(hi as int, k2 as int),
            decreases n - k2,
        {
            nb.push(self.blocks[k2]);
            proof {
                assert(nb@ =~= mid_done + s0.subrange(hi as int, k2 as int + 1));
            }
            k2 += 1;
        }
        proof {
            assert(nb@ =~= coalesce_at(s0, j as int));
        }
        self.blocks = nb;
        self.used_bytes = self.used_bytes - size;
        self.free_bytes = self.free_bytes + size;
    }

    /// Bytes currently handed out, maintained in O(1).
    pub fn used(&self) -> (r: usize)
        ensures
            r == self.used_bytes,
    {
        self.used_bytes
    }

    /// Bytes currently available, maintained in O(1).
    pub fn free(&self) -> (r: usize)
        ensures
            r == self.free_bytes,
    {
        self.free_bytes
    }
}

} // verus!

//! Laws of the heap engine, stated over the same spec functions that the
//! engine's contracts use and proved once and for all.

use vstd::prelude::*;

use crate::engine::{
    block_index, block_fits, coalesce_at, find_fit, lemma_align_up_properties,
    lemma_allocated_block_excluded, lemma_block_in_region, lemma_coalesce_preserves_wf,
    lemma_find_fit_from_props, lemma_free_block_le_sum_free, lemma_offsets_unique,
    lemma_split_preserves_wf, lemma_wf_sum_len, spec_align_up, split_for_alloc, sum_free, sum_len,
    wf_blocks, Block, BlockState, HeapEngine,
};

verus! {

/// Conservation: at every observable point the aggregates split the region
/// exactly, `used + free == capacity`, and the `free` aggregate agrees with
/// the bytes actually held by free blocks.
pub proof fn lemma_conservation(h: HeapEngine)
    requires
        h.wf(),
    ensures
        h.used_bytes + h.free_bytes == h.capacity,
        h.free_bytes == sum_free(h.blocks@),
        sum_len(h.blocks@) == h.capacity,
{
    lemma_wf_sum_len(h.blocks@, h.capacity as int);
}

/// Round trip: serving a request of `size` bytes and then releasing the
/// very block that was handed out returns the free sum to its value before
/// the allocation — exact byte conservation, no leak and no double count.
pub proof fn lemma_alloc_release_round_trip(s: Seq<Block>, cap: int, size: int, align: int, i: int)
    requires
        wf_blocks(s, cap),
        cap <= usize::MAX,
        0 < size,
        0 < align,
        find_fit(s, size, align) == Option::Some(i),
    ensures
        ({
            let s1 = split_for_alloc(s, i, size, align);
            let at = spec_align_up(s[i].off as int, align);
            let j = block_index(s1, at);
            &&& 0 <= j < s1.len()
            &&& s1[j] == (Block {
                off: at as usize,
                len: size as usize,
                state: BlockState::Allocated,
            })
            &&& wf_blocks(coalesce_at(s1, j), cap)
            &&& sum_free(coalesce_at(s1, j)) == sum_free(s)
        }),
{
    lemma_find_fit_from_props(s, size, align, 0);
    lemma_split_preserves_wf(s, cap, i, size, align);
    lemma_align_up_properties(s[i].off as int, align);
    lemma_block_in_region(s, cap, i);
    let s1 = split_for_alloc(s, i, size, align);
    let at = spec_align_up(s[i].off as int, align);
    let pad = at - s[i].off;
    let i1: int = if pad > 0 {
        i + 1
    } else {
        i
    };
    assert(s1[i1] == (Block { off: at as usize, len: size as usize, state: BlockState::Allocated }));
    assert(exists|k: int| 0 <= k < s1.len() && s1[k].off == at) by {
        assert(s1[i1].off == at);
    }
    let j = block_index(s1, at);
    assert(0 <= j < s1.len() && s1[j].off == at);
    lemma_offsets_unique(s1, cap, j, i1);
    lemma_coalesce_preserves_wf(s1, cap, j);
}

/// Full release coalesces completely: in any well-formed state in which
/// every byte is free again — however the releases were ordered — the block
/// list holds exactly one free block spanning the whole region.
pub proof fn lemma_all_released_single_block(s: Seq<Block>, cap: int)
    requires
        wf_blocks(s, cap),
        sum_free(s) == cap,
    ensures
        s.len() == 1,
        s[0] == (Block { off: 0, len: cap as usize, state: BlockState::Free }),
{
    lemma_wf_sum_len(s, cap);
    assert forall|i: int| 0 <= i < s.len() implies (#[trigger] s[i]).state == BlockState::Free by {
        if s[i].state != BlockState::Free {
            lemma_allocated_block_excluded(s, i);
        }
    }
    if s.len() >= 2 {
        assert(s[0].state == BlockState::Free && s[1].state == BlockState::Free);
        assert(false);
    }
}

/// No-fit boundary: a request for more bytes than the free aggregate holds
/// can never be served — even when smaller free blocks together would sum to
/// enough, allocation needs one contiguous block.
pub proof fn lemma_oversize_request_never_fits(s: Seq<Block>, cap: int, size: int, align: int)
    requires
        wf_blocks(s, cap),
        0 < align,
        size > sum_free(s),
    ensures
        find_fit(s, size, align) is None,
{
    assert forall|k: int| 0 <= k < s.len() implies !block_fits(#[trigger] s[k], size, align) by {
        if s[k].state == BlockState::Free {
            lemma_free_block_le_sum_free(s, k);
            lemma_align_up_properties(s[k].off as int, align);
        }
    }
    lemma_find_fit_from_props(s, size, align, 0);
    if find_fit(s, size, align) is Some {
        assert(false);
    }
}

} // verus!

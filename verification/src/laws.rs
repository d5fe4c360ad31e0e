//! Laws of the allocator, proved from the public contracts: the initial
//! partition tiles the region; a live symbol's address is never free; a
//! freed chunk shows up in exactly one free list, exactly once; a freed
//! name can be allocated again; and freeing twice fails the second time.

use vstd::prelude::*;

use crate::free_lists::{
    count_blocks, count_occurrences, covers, free_lists_insert, lemma_count_addrs_ge_occurrences,
    lemma_count_blocks_ge_entry, lemma_lists_map_contains, lemma_lists_map_index, sizes_distinct,
};
use crate::memory_manager::{
    count_symbols, lemma_count_symbols_ge_one, spec_qualifies, MemoryManager,
};
use crate::symbols::{lemma_entries_map_contains, lemma_entries_map_index};
use crate::utils::{is_pow2, lemma_is_pow2_pos, lemma_upper_pow2_bounds, upper_pow2};

verus! {

/// In a manager without live symbols — as `MemoryManager::new` returns one —
/// the free blocks alone tile the region: every address of `[0, capacity)`
/// is covered by exactly one free block, and every block size on record is
/// a power of two.
pub proof fn lemma_initial_blocks_tile(r: &MemoryManager)
    requires
        r.wf(),
        r.names.entries@.len() == 0,
    ensures
        forall|x: int| 0 <= x < r.capacity() ==> count_blocks(r.blocks.lists@, x) == 1,
        forall|i: int|
            0 <= i < r.blocks.lists@.len() ==> is_pow2((#[trigger] r.blocks.lists@[i]).size as int),
{
    assert forall|x: int| 0 <= x < r.capacity() implies count_blocks(r.blocks.lists@, x) == 1 by {
        assert(r.total_count(x) == 1);
        assert(count_symbols(r.names.entries@, x) == 0);
    }
}

/// While a symbol is live, its address occurs in no free list: the
/// symbol's own chunk covers its first address, so a free block recorded
/// at that address would cover it a second time, against the tiling
/// invariant.
pub proof fn lemma_live_address_not_free(mm: &MemoryManager, name: Seq<char>)
    requires
        mm.wf(),
        mm.names@.contains_key(name),
    ensures
        forall|s: usize|
            mm.blocks@.contains_key(s) ==> count_occurrences(
                #[trigger] mm.blocks@[s],
                mm.names@[name].position,
            ) == 0,
{
    let d = mm.names@[name];
    let entries = mm.names.entries@;
    lemma_entries_map_contains(entries, name);
    let i = choose|i: int| 0 <= i < entries.len() && (#[trigger] entries[i]).name@ == name;
    lemma_entries_map_index(entries, i);
    assert(entries[i].data == d);
    lemma_upper_pow2_bounds(d.size as int);
    assert(d.chunk_size >= 1);
    assert(covers(d.chunk_size as int, d.position as int, d.position as int));
    assert((d.position as int) < mm.capacity());
    assert forall|s: usize| mm.blocks@.contains_key(s) implies count_occurrences(
        #[trigger] mm.blocks@[s],
        d.position,
    ) == 0 by {
        let lists = mm.blocks.lists@;
        assert(sizes_distinct(lists));
        lemma_lists_map_contains(lists, s);
        let bi = choose|bi: int| 0 <= bi < lists.len() && (#[trigger] lists[bi]).size == s;
        lemma_lists_map_index(lists, bi);
        assert(mm.blocks@[s] == lists[bi].addrs@);
        if count_occurrences(mm.blocks@[s], d.position) > 0 {
            assert(is_pow2(lists[bi].size as int));
            lemma_is_pow2_pos(s as int);
            lemma_count_addrs_ge_occurrences(s as int, lists[bi].addrs@, d.position);
            lemma_count_blocks_ge_entry(lists, bi, d.position as int);
            lemma_count_symbols_ge_one(entries, i, d.position as int);
            assert(mm.total_count(d.position as int) >= 2);
            assert(mm.total_count(d.position as int) == 1);
        }
    }
}

/// The free round trip: `mid` holds a live symbol, `post` is the state
/// `free`'s contract describes. The freed address then occurs exactly once
/// in the free list for the symbol's chunk size, and in no other list.
pub proof fn lemma_freed_exactly_once(mid: &MemoryManager, post: &MemoryManager, name: Seq<char>)
    requires
        mid.wf(),
        mid.names@.contains_key(name),
        post.blocks@ == free_lists_insert(
            mid.blocks@,
            mid.names@[name].chunk_size,
            mid.names@[name].position,
        ),
    ensures
        count_occurrences(post.blocks@[mid.names@[name].chunk_size], mid.names@[name].position)
            == 1,
        forall|s: usize|
            post.blocks@.contains_key(s) && s != mid.names@[name].chunk_size
                ==> count_occurrences(#[trigger] post.blocks@[s], mid.names@[name].position) == 0,
{
    let d = mid.names@[name];
    lemma_live_address_not_free(mid, name);
    let base = if mid.blocks@.contains_key(d.chunk_size) {
        mid.blocks@[d.chunk_size]
    } else {
        Seq::<usize>::empty()
    };
    assert(count_occurrences(base, d.position) == 0);
    let pushed = base.push(d.position);
    assert(pushed.drop_last() =~= base);
    assert(pushed.last() == d.position);
    assert(count_occurrences(pushed, d.position) == 1);
    assert(post.blocks@[d.chunk_size] == pushed);
    assert forall|s: usize|
        post.blocks@.contains_key(s) && s != d.chunk_size implies count_occurrences(
        #[trigger] post.blocks@[s],
        d.position,
    ) == 0 by {
        assert(post.blocks@[s] == mid.blocks@[s]);
        assert(mid.blocks@.contains_key(s));
    }
}

/// After `allocate(name, size)` succeeds and `free(name)` follows, the
/// name is free again and the same request is guaranteed to succeed:
/// the freed chunk itself is a qualifying free block. `mid` is the state
/// holding the live symbol, `post` the state `free`'s contract describes.
pub proof fn lemma_free_then_reallocate(mid: &MemoryManager, post: &MemoryManager, name: Seq<char>)
    requires
        mid.wf(),
        mid.names@.contains_key(name),
        post.names@ == mid.names@.remove(name),
        post.blocks@ == free_lists_insert(
            mid.blocks@,
            mid.names@[name].chunk_size,
            mid.names@[name].position,
        ),
        post.capacity() == mid.capacity(),
    ensures
        !post.names@.contains_key(name),
        post.can_allocate(name, mid.names@[name].size as int),
{
    let d = mid.names@[name];
    let entries = mid.names.entries@;
    lemma_entries_map_contains(entries, name);
    let i = choose|i: int| 0 <= i < entries.len() && (#[trigger] entries[i]).name@ == name;
    lemma_entries_map_index(entries, i);
    assert(entries[i].data == d);
    assert(d.chunk_size as int == upper_pow2(d.size as int));
    assert(d.position + d.chunk_size <= mid.capacity());
    assert(d.size <= d.chunk_size);
    assert(d.size as int <= post.capacity());
    let base = if mid.blocks@.contains_key(d.chunk_size) {
        mid.blocks@[d.chunk_size]
    } else {
        Seq::<usize>::empty()
    };
    assert(post.blocks@[d.chunk_size] == base.push(d.position));
    assert(post.blocks@[d.chunk_size].len() > 0);
    assert(spec_qualifies(post.blocks@, upper_pow2(d.size as int), d.chunk_size));
}

/// Freeing the same name twice fails the second time: a successful
/// `free(name)` leaves a state in which `name` is no longer live, and on
/// such a state `free`'s contract returns `SymbolNotDefined` and changes
/// nothing.
pub proof fn lemma_free_idempotent_failure(
    pre: &MemoryManager,
    post: &MemoryManager,
    name: Seq<char>,
)
    requires
        post.names@ == pre.names@.remove(name),
    ensures
        !post.names@.contains_key(name),
{
}

} // verus!

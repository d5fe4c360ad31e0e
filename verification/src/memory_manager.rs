//! The allocator: a buddy-system memory manager over a simulated region.
//!
//! The manager owns a zero-initialized byte buffer of fixed capacity, a
//! symbol table of live named allocations, and a free-list structure of
//! power-of-two blocks. Its central invariant, `wf`, states that the chunk
//! ranges of the live symbols and the recorded free blocks together tile
//! the whole region `[0, capacity)`: every address is covered exactly once.

pub use crate::free_lists::BlockEntry;
pub use crate::free_lists::BlockLists;
pub use crate::symbols::SymbolData;
pub use crate::symbols::SymbolEntry;
pub use crate::symbols::SymbolTable;

use vstd::prelude::*;

use crate::free_lists::{
    chunk_seq, count_addrs, count_blocks, count_chunks, covers, free_lists_insert,
    free_lists_insert_all, lemma_chunk_seq_tiles, lemma_count_blocks_update,
    lemma_lists_map_contains, lemma_lists_map_index, lemma_lists_map_update, lists_bounded,
    lists_map, lists_pow2, lists_sorted, sizes_distinct,
};
use crate::symbols::{
    entries_map, lemma_entries_map_contains, lemma_entries_map_index, lemma_entries_map_remove,
};
use crate::utils::{
    is_pow2, lemma_upper_pow2_bounds, lemma_upper_pow2_le, nearest_upper_2_power, upper_pow2,
};

verus! {

/// The ways a request can fail. All failures are ordinary result values;
/// no operation of the manager panics.
#[derive(Clone, Copy, Debug, PartialEq, Eq, Structural)]
pub enum MemoryError {
    OutOfMemory,
    SymbolNotDefined,
    AlreadyExistingSymbol,
}

/// The memory manager.
#[derive(Debug, PartialEq)]
pub struct MemoryManager {
    /// The simulated memory region, zero-initialized and never resized.
    pub memory: Vec<u8>,
    /// The live named allocations.
    pub names: SymbolTable,
    /// The free blocks, keyed by power-of-two block size.
    pub blocks: BlockLists,
    /// The identifier the next successful allocation will receive.
    pub next_available_id: usize,
}

/// How many live symbols' chunk ranges cover address `x`.
pub open spec fn count_symbols(s: Seq<SymbolEntry>, x: int) -> nat
    decreases s.len(),
{
    if s.len() == 0 {
        0
    } else {
        count_symbols(s.drop_last(), x) + (if covers(
            s.last().data.chunk_size as int,
            s.last().data.position as int,
            x,
        ) {
            1nat
        } else {
            0nat
        })
    }
}

/// Coverage accounting for removing the entry at `i`.
pub proof fn lemma_count_symbols_remove(s: Seq<SymbolEntry>, i: int, x: int)
    requires
        0 <= i < s.len(),
    ensures
        count_symbols(s.remove(i), x) + (if covers(
            s[i].data.chunk_size as int,
            s[i].data.position as int,
            x,
        ) {
            1nat
        } else {
            0nat
        }) == count_symbols(s, x),
    decreases s.len(),
{
    if i == s.len() - 1 {
        assert(s.remove(i) =~= s.drop_last());
    } else {
        assert(s.remove(i).drop_last() =~= s.drop_last().remove(i));
        assert(s.remove(i).last() == s.last());
        assert(s.drop_last()[i] == s[i]);
        lemma_count_symbols_remove(s.drop_last(), i, x);
    }
}

/// A covering entry contributes at least one to the symbol coverage.
pub proof fn lemma_count_symbols_ge_one(s: Seq<SymbolEntry>, i: int, x: int)
    requires
        0 <= i < s.len(),
        covers(s[i].data.chunk_size as int, s[i].data.position as int, x),
    ensures
        count_symbols(s, x) >= 1,
    decreases s.len(),
{
    if i < s.len() - 1 {
        assert(s.drop_last()[i] == s[i]);
        lemma_count_symbols_ge_one(s.drop_last(), i, x);
    }
}

/// Two distinct covering entries contribute at least two.
pub proof fn lemma_count_symbols_ge_two(s: Seq<SymbolEntry>, i: int, j: int, x: int)
    requires
        0 <= i < j < s.len(),
        covers(s[i].data.chunk_size as int, s[i].data.position as int, x),
        covers(s[j].data.chunk_size as int, s[j].data.position as int, x),
    ensures
        count_symbols(s, x) >= 2,
    decreases s.len(),
{
    if j == s.len() - 1 {
        assert(s.drop_last()[i] == s[i]);
        lemma_count_symbols_ge_one(s.drop_last(), i, x);
    } else {
        assert(s.drop_last()[i] == s[i]);
        assert(s.drop_last()[j] == s[j]);
        lemma_count_symbols_ge_two(s.drop_last(), i, j, x);
    }
}

/// A free list of size `s` (a key of the map) qualifies for a request of
/// chunk size `chunk` when the blocks are large enough and one is free.
pub open spec fn spec_qualifies(m: Map<usize, Seq<usize>>, chunk: int, s: usize) -> bool {
    m.contains_key(s) && s as int >= chunk && m[s].len() > 0
}

/// Some free block can serve a request of chunk size `chunk`.
pub open spec fn spec_can_fit(m: Map<usize, Seq<usize>>, chunk: int) -> bool {
    exists|s: usize| spec_qualifies(m, chunk, s)
}

/// `s` is the block size the allocator takes from: the smallest qualifying one.
pub open spec fn spec_chosen(m: Map<usize, Seq<usize>>, chunk: int, s: usize) -> bool {
    spec_qualifies(m, chunk, s) && forall|s2: usize| spec_qualifies(m, chunk, s2) ==> s <= s2
}

/// Address `x` lies in the used range (`position` up to `position + size`)
/// of some live symbol.
pub open spec fn spec_used_by(m: Map<Seq<char>, SymbolData>, x: int) -> bool {
    exists|n: Seq<char>|
        m.contains_key(n) && (#[trigger] m[n]).position <= x < m[n].position + m[n].size
}

/// The name of a live symbol whose used range holds address `x`.
pub open spec fn spec_owner(m: Map<Seq<char>, SymbolData>, x: int) -> Seq<char> {
    choose|n: Seq<char>|
        m.contains_key(n) && (#[trigger] m[n]).position <= x < m[n].position + m[n].size
}

/// What the byte-level rendering shows at address `x`: the identifier of
/// the symbol whose used range holds `x`, or nothing for the unused tail
/// of a chunk and for free blocks.
pub open spec fn spec_cell(m: Map<Seq<char>, SymbolData>, x: int) -> Option<usize> {
    if spec_used_by(m, x) {
        Some(m[spec_owner(m, x)].id)
    } else {
        None
    }
}

impl MemoryManager {
    /// The total number of bytes under management.
    pub open spec fn capacity(&self) -> int {
        self.memory@.len() as int
    }

    /// How many recorded ranges — live symbols' chunks and free blocks —
    /// cover address `x`.
    pub open spec fn total_count(&self, x: int) -> nat {
        count_symbols(self.names.entries@, x) + count_blocks(self.blocks.lists@, x)
    }

    /// The manager's invariant: the free lists are sorted by power-of-two
    /// size and in bounds, symbol names are distinct, every symbol's chunk
    /// is the rounded-up power of two of its size and lies in bounds, and
    /// the symbol chunks together with the free blocks tile the region —
    /// every address of `[0, capacity)` is covered exactly once.
    pub open spec fn wf(&self) -> bool {
        &&& self.blocks.wf()
        &&& self.blocks.bounded(self.capacity())
        &&& self.names.names_unique()
        &&& forall|i: int|
            0 <= i < self.names.entries@.len() ==> {
                let d = (#[trigger] self.names.entries@[i]).data;
                &&& d.size <= d.chunk_size
                &&& d.chunk_size as int == upper_pow2(d.size as int)
                &&& d.position + d.chunk_size <= self.capacity()
            }
        &&& forall|x: int| 0 <= x < self.capacity() ==> #[trigger] self.total_count(x) == 1
        &&& self.next_available_id < usize::MAX - 1
    }

    /// The request `allocate(name, size)` will succeed: the size fits the
    /// region, the name is not live, and a large enough free block exists.
    pub open spec fn can_allocate(&self, name: Seq<char>, size: int) -> bool {
        &&& size <= self.capacity()
        &&& !self.names@.contains_key(name)
        &&& spec_can_fit(self.blocks@, upper_pow2(size))
    }

    /// Create a manager for a region of `capacity` bytes: the buffer is
    /// zero-initialized, no symbol is live, and the whole region is split
    /// into maximal power-of-two free blocks (for a capacity that is not a
    /// power of two, one block per set bit, largest first). A capacity of
    /// zero yields a degenerate manager with no free blocks at all.
    pub fn new(capacity: usize) -> (r: MemoryManager)
        ensures
            r.wf(),
            r.capacity() == capacity as int,
            r.memory@.len() == capacity as nat,
            forall|i: int| 0 <= i < capacity as int ==> r.memory@[i] == 0u8,
            r.names@ == Map::<Seq<char>, SymbolData>::empty(),
            r.names.entries@.len() == 0,
            r.blocks@ == free_lists_insert_all(
                Map::<usize, Seq<usize>>::empty(),
                chunk_seq(0, capacity as int),
            ),
            r.next_available_id == 1,
    {
        let mut memory: Vec<u8> = Vec::new();
        while memory.len() < capacity
            invariant
                memory@.len() <= capacity,
                forall|i: int| 0 <= i < memory@.len() ==> memory@[i] == 0u8,
            decreases capacity - memory@.len(),
        {
            memory.push(0u8);
        }
        let mut blocks = BlockLists { lists: Vec::new() };
        proof {
            assert(lists_sorted(blocks.lists@));
            assert(lists_pow2(blocks.lists@));
            assert(lists_bounded(blocks.lists@, capacity as int));
            assert(lists_map(blocks.lists@) =~= Map::<usize, Seq<usize>>::empty());
        }
        blocks.create_chunks(0, capacity);
        let r = MemoryManager {
            memory,
            names: SymbolTable { entries: Vec::new() },
            blocks,
            next_available_id: 1,
        };
        proof {
            lemma_chunk_seq_tiles(0, capacity as int);
            assert(entries_map(r.names.entries@) =~= Map::<Seq<char>, SymbolData>::empty());
            assert forall|x: int| 0 <= x < r.capacity() implies #[trigger] r.total_count(x)
                == 1 by {
                assert(count_symbols(r.names.entries@, x) == 0);
                assert(count_chunks(chunk_seq(0, capacity as int), x) == 1nat);
            }
        }
        r
    }

    /// Whether `name` is currently a live symbol.
    pub fn is_symbol(&self, name: &String) -> (r: bool)
        ensures
            r == self.names@.contains_key(name@),
    {
        proof {
            lemma_entries_map_contains(self.names.entries@, name@);
        }
        match self.names.find(name) {
            Some(_) => true,
            None => false,
        }
    }

    /// Release the allocation named `name`: the symbol is removed and its
    /// whole chunk returns to the free list for its exact chunk size — no
    /// coalescing with adjacent buddies takes place.
    pub fn free(&mut self, name: &String) -> (r: Result<(), MemoryError>)
        requires
            old(self).wf(),
        ensures
            final(self).wf(),
            final(self).memory@ == old(self).memory@,
            final(self).next_available_id == old(self).next_available_id,
            final(self).capacity() == old(self).capacity(),
            !old(self).names@.contains_key(name@) ==> r == Err::<(), MemoryError>(
                MemoryError::SymbolNotDefined,
            ) && *final(self) == *old(self),
            old(self).names@.contains_key(name@) ==> {
                let d = old(self).names@[name@];
                &&& r == Ok::<(), MemoryError>(())
                &&& final(self).names@ == old(self).names@.remove(name@)
                &&& !final(self).names@.contains_key(name@)
                &&& final(self).blocks@ == free_lists_insert(
                    old(self).blocks@,
                    d.chunk_size,
                    d.position,
                )
            },
    {
        proof {
            lemma_entries_map_contains(self.names.entries@, name@);
        }
        match self.names.find(name) {
            None => Err(MemoryError::SymbolNotDefined),
            Some(i) => {
                let ghost s_pre = self.names.entries@;
                proof {
                    lemma_entries_map_index(s_pre, i as int);
                }
                let d = self.names.entries[i].data;
                self.names.entries.remove(i);
                proof {
                    lemma_entries_map_remove(s_pre, i as int);
                    assert forall|a: int, b: int|
                        0 <= a < b < self.names.entries@.len() implies (
                    #[trigger] self.names.entries@[a]).name@ != (
                    #[trigger] self.names.entries@[b]).name@ by {
                        if b < i as int {
                            assert(self.names.entries@[a] == s_pre[a]);
                            assert(self.names.entries@[b] == s_pre[b]);
                        } else if a < i as int {
                            assert(self.names.entries@[a] == s_pre[a]);
                            assert(self.names.entries@[b] == s_pre[b + 1]);
                        } else {
                            assert(self.names.entries@[a] == s_pre[a + 1]);
                            assert(self.names.entries@[b] == s_pre[b + 1]);
                        }
                    }
                    assert(self.names@.contains_key(name@) == false);
                    lemma_upper_pow2_bounds(d.size as int);
                    assert(is_pow2(d.chunk_size as int));
                }
                let ghost mid = *self;
                self.blocks.insert_chunk(d.chunk_size, d.position);
                proof {
                    assert(lists_bounded(mid.blocks.lists@, self.capacity()));
                    assert(d.position + d.chunk_size <= self.capacity());
                    assert(self.blocks.bounded(self.capacity()));
                    assert forall|a: int|
                        0 <= a < self.names.entries@.len() implies {
                        let dd = (#[trigger] self.names.entries@[a]).data;
                        &&& dd.size <= dd.chunk_size
                        &&& dd.chunk_size as int == upper_pow2(dd.size as int)
                        &&& dd.position + dd.chunk_size <= self.capacity()
                    } by {
                        if a < i as int {
                            assert(self.names.entries@[a] == s_pre[a]);
                        } else {
                            assert(self.names.entries@[a] == s_pre[a + 1]);
                        }
                    }
                    assert forall|x: int| 0 <= x < self.capacity() implies #[trigger] self.total_count(
                        x,
                    ) == 1 by {
                        lemma_count_symbols_remove(s_pre, i as int, x);
                        assert(old(self).total_count(x) == 1);
                    }
                }
                Ok(())
            },
        }
    }

    /// Serve a request for `size` bytes under the fresh name `name`.
    ///
    /// The request is rejected with `OutOfMemory` when `size` exceeds the
    /// capacity outright, with `AlreadyExistingSymbol` when `name` is live,
    /// and with `OutOfMemory` again when no free block of at least the
    /// rounded-up power-of-two chunk size is available (which can happen
    /// well below the capacity: the initial partition never holds a block
    /// larger than the largest power of two at most the capacity). On
    /// success the address taken is the most recently recorded one of the
    /// smallest qualifying block size; the symbol is recorded with the next
    /// identifier, and any excess of the block beyond the chunk is split
    /// back into maximal power-of-two free blocks.
    pub fn allocate(&mut self, name: String, size: usize) -> (r: Result<usize, MemoryError>)
        requires
            old(self).wf(),
        ensures
            final(self).wf(),
            final(self).memory@ == old(self).memory@,
            final(self).capacity() == old(self).capacity(),
            r is Ok <==> old(self).can_allocate(name@, size as int),
            size as int > old(self).capacity() ==> r == Err::<usize, MemoryError>(
                MemoryError::OutOfMemory,
            ) && *final(self) == *old(self),
            size as int <= old(self).capacity() && old(self).names@.contains_key(name@) ==> r
                == Err::<usize, MemoryError>(MemoryError::AlreadyExistingSymbol) && *final(self)
                == *old(self),
            size as int <= old(self).capacity() && !old(self).names@.contains_key(name@)
                && !spec_can_fit(old(self).blocks@, upper_pow2(size as int)) ==> r == Err::<
                usize,
                MemoryError,
            >(MemoryError::OutOfMemory) && *final(self) == *old(self),
            old(self).can_allocate(name@, size as int) ==> exists|bsize: usize|
                #[trigger] spec_chosen(old(self).blocks@, upper_pow2(size as int), bsize) && {
                    let m0 = old(self).blocks@;
                    let addr = m0[bsize].last();
                    let chunk = upper_pow2(size as int);
                    let d = SymbolData {
                        id: old(self).next_available_id,
                        position: addr,
                        size: size,
                        chunk_size: chunk as usize,
                    };
                    &&& r == Ok::<usize, MemoryError>(addr)
                    &&& final(self).names@ == old(self).names@.insert(name@, d)
                    &&& final(self).blocks@ == free_lists_insert_all(
                        m0.insert(bsize, m0[bsize].drop_last()),
                        chunk_seq(addr as int + chunk, bsize as int - chunk),
                    )
                    &&& final(self).next_available_id as int == (old(self).next_available_id + 1)
                        % (usize::MAX - 1) as int
                },
    {
        if size > self.memory.len() {
            return Err(MemoryError::OutOfMemory);
        }
        if self.is_symbol(&name) {
            return Err(MemoryError::AlreadyExistingSymbol);
        }
        let ghost m0 = self.blocks@;
        let ghost s_b0 = self.blocks.lists@;
        let ghost chunk = upper_pow2(size as int);
        proof {
            lemma_upper_pow2_bounds(size as int);
            assert(sizes_distinct(s_b0));
        }
        let n = self.blocks.lists.len();
        if n == 0 {
            proof {
                assert forall|s2: usize| !spec_qualifies(m0, chunk, s2) by {
                    lemma_lists_map_contains(s_b0, s2);
                }
            }
            return Err(MemoryError::OutOfMemory);
        }
        let max_size = self.blocks.lists[n - 1].size;
        if size > max_size {
            proof {
                assert forall|s2: usize| !spec_qualifies(m0, chunk, s2) by {
                    lemma_lists_map_contains(s_b0, s2);
                    if m0.contains_key(s2) {
                        let i = choose|i: int|
                            0 <= i < s_b0.len() && (#[trigger] s_b0[i]).size == s2;
                        if i < n - 1 {
                            assert(s_b0[i].size < s_b0[n - 1].size);
                        }
                        assert(s2 <= max_size);
                    }
                }
            }
            return Err(MemoryError::OutOfMemory);
        }
        proof {
            assert(is_pow2(s_b0[n - 1].size as int));
            lemma_upper_pow2_le(size as int, max_size as int);
        }
        let chunk_size = nearest_upper_2_power(size);
        match find_fit(&self.blocks.lists, chunk_size) {
            None => {
                proof {
                    assert forall|s2: usize| !spec_qualifies(m0, chunk, s2) by {
                        lemma_lists_map_contains(s_b0, s2);
                        if m0.contains_key(s2) {
                            let i = choose|i: int|
                                0 <= i < s_b0.len() && (#[trigger] s_b0[i]).size == s2;
                            lemma_lists_map_index(s_b0, i);
                        }
                    }
                }
                Err(MemoryError::OutOfMemory)
            },
            Some(j) => {
                let ghost gname = name@;
                let bsize = self.blocks.lists[j].size;
                let ghost l0 = s_b0[j as int].addrs@;
                proof {
                    lemma_lists_map_index(s_b0, j as int);
                    assert(m0[bsize] == l0);
                    assert(s_b0[j as int].addrs@[l0.len() - 1] + s_b0[j as int].size
                        <= old(self).capacity());
                }
                let mut entry = self.blocks.lists.remove(j);
                let addr = entry.addrs.pop().unwrap();
                let ghost e1 = entry;
                self.blocks.lists.insert(j, entry);
                proof {
                    assert(self.blocks.lists@ =~= s_b0.update(j as int, e1));
                    assert(e1.addrs@ =~= l0.drop_last());
                    assert(l0.last() == addr);
                    lemma_lists_map_update(s_b0, j as int, e1);
                    assert(self.blocks@ == m0.insert(bsize, l0.drop_last()));
                    assert forall|a: int, b: int|
                        0 <= a < b < self.blocks.lists@.len() implies (
                    #[trigger] self.blocks.lists@[a]).size < (
                    #[trigger] self.blocks.lists@[b]).size by {
                        assert(s_b0[a].size < s_b0[b].size);
                        assert(self.blocks.lists@[a].size == s_b0[a].size);
                        assert(self.blocks.lists@[b].size == s_b0[b].size);
                    }
                    assert forall|a: int| 0 <= a < self.blocks.lists@.len() implies is_pow2(
                        (#[trigger] self.blocks.lists@[a]).size as int,
                    ) by {
                        assert(self.blocks.lists@[a].size == s_b0[a].size);
                        assert(is_pow2(s_b0[a].size as int));
                    }
                    assert forall|a: int, k: int|
                        0 <= a < self.blocks.lists@.len() && 0 <= k
                            < self.blocks.lists@[a].addrs@.len() implies #[trigger] self.blocks.lists@[a].addrs@[k]
                        + self.blocks.lists@[a].size <= old(self).capacity() by {
                        if a == j as int {
                            assert(self.blocks.lists@[a].addrs@[k] == s_b0[a].addrs@[k]);
                        } else {
                            assert(self.blocks.lists@[a] == s_b0[a]);
                        }
                        assert(s_b0[a].addrs@[k] + s_b0[a].size <= old(self).capacity());
                    }
                }
                let ghost s_bmid = self.blocks.lists@;
                let data = SymbolData {
                    id: self.next_available_id,
                    position: addr,
                    size: size,
                    chunk_size: chunk_size,
                };
                let ghost s_n0 = self.names.entries@;
                proof {
                    lemma_entries_map_contains(s_n0, gname);
                }
                self.names.entries.push(SymbolEntry { name, data });
                proof {
                    assert(self.names.entries@.drop_last() =~= s_n0);
                    assert(self.names@ == entries_map(s_n0).insert(gname, data));
                    assert forall|a: int, b: int|
                        0 <= a < b < self.names.entries@.len() implies (
                    #[trigger] self.names.entries@[a]).name@ != (
                    #[trigger] self.names.entries@[b]).name@ by {
                        assert(self.names.entries@[a] == s_n0[a]);
                        if b < s_n0.len() {
                            assert(self.names.entries@[b] == s_n0[b]);
                        } else {
                            assert(self.names.entries@[b].name@ == gname);
                            assert(s_n0[a].name@ != gname);
                        }
                    }
                }
                let ghost s_n1 = self.names.entries@;
                self.blocks.create_chunks(addr + chunk_size, bsize - chunk_size);
                self.next_available_id = (self.next_available_id + 1) % (usize::MAX - 1);
                proof {
                    let cap = old(self).capacity();
                    let cs = chunk_seq(addr as int + chunk, bsize as int - chunk);
                    lemma_chunk_seq_tiles(addr as int + chunk, bsize as int - chunk);
                    // the chosen size is the smallest qualifying one
                    assert(spec_qualifies(m0, chunk, bsize));
                    assert forall|s2: usize| spec_qualifies(m0, chunk, s2) implies bsize <= s2 by {
                        lemma_lists_map_contains(s_b0, s2);
                        let i = choose|i: int| 0 <= i < s_b0.len() && (#[trigger] s_b0[i]).size == s2;
                        lemma_lists_map_index(s_b0, i);
                        if i < j as int {
                            assert(!(s_b0[i].size >= chunk_size && s_b0[i].addrs@.len() > 0));
                        } else if i > j as int {
                            assert(s_b0[j as int].size < s_b0[i].size);
                        }
                    }
                    assert(spec_chosen(m0, chunk, bsize));
                    // the invariant: every address still covered exactly once
                    assert forall|x: int| 0 <= x < cap implies #[trigger] self.total_count(x)
                        == 1 by {
                        assert(old(self).total_count(x) == 1);
                        let cs0 = count_symbols(s_n0, x);
                        let cb0 = count_blocks(s_b0, x);
                        assert(cs0 + cb0 == 1);
                        // symbols gained the new chunk range
                        assert(count_symbols(s_n1, x) == cs0 + (if covers(
                            chunk,
                            addr as int,
                            x,
                        ) {
                            1nat
                        } else {
                            0nat
                        }));
                        // the free lists lost the taken block and gained the split chunks
                        lemma_count_blocks_update(s_b0, j as int, e1, x);
                        assert(count_addrs(bsize as int, l0, x) == count_addrs(
                            bsize as int,
                            l0.drop_last(),
                            x,
                        ) + (if covers(bsize as int, addr as int, x) {
                            1nat
                        } else {
                            0nat
                        }));
                        assert(count_blocks(s_bmid, x) + (if covers(bsize as int, addr as int, x) {
                            1nat
                        } else {
                            0nat
                        }) == cb0);
                        assert(count_blocks(self.blocks.lists@, x) == count_blocks(s_bmid, x)
                            + count_chunks(cs, x));
                        assert(count_chunks(cs, x) == (if addr as int + chunk <= x < addr as int
                            + bsize as int {
                            1nat
                        } else {
                            0nat
                        }));
                        assert((if covers(bsize as int, addr as int, x) {
                            1nat
                        } else {
                            0nat
                        }) == (if covers(chunk, addr as int, x) {
                            1nat
                        } else {
                            0nat
                        }) + (if addr as int + chunk <= x < addr as int + bsize as int {
                            1nat
                        } else {
                            0nat
                        }));
                    }
                    // the remaining well-formedness conjuncts
                    assert forall|a: int|
                        0 <= a < self.names.entries@.len() implies {
                        let dd = (#[trigger] self.names.entries@[a]).data;
                        &&& dd.size <= dd.chunk_size
                        &&& dd.chunk_size as int == upper_pow2(dd.size as int)
                        &&& dd.position + dd.chunk_size <= self.capacity()
                    } by {
                        if a < s_n0.len() {
                            assert(self.names.entries@[a] == s_n0[a]);
                            assert(old(self).wf());
                        } else {
                            assert(self.names.entries@[a].data == data);
                        }
                    }
                }
                Ok(addr)
            },
        }
    }

    /// What the rendering shows for the byte at address `x`: the identifier
    /// of the live symbol whose used range holds `x`, if any.
    fn cell_at(&self, x: usize) -> (r: Option<usize>)
        requires
            self.wf(),
            (x as int) < self.capacity(),
        ensures
            r == spec_cell(self.names@, x as int),
    {
        let n = self.names.entries.len();
        let ghost s = self.names.entries@;
        let mut k: usize = 0;
        while k < n
            invariant
                self.wf(),
                (x as int) < self.capacity(),
                k <= n,
                n == s.len(),
                s == self.names.entries@,
                forall|t: int|
                    0 <= t < k ==> !((#[trigger] s[t]).data.position <= (x as int)
                        < s[t].data.position + s[t].data.size),
            decreases n - k,
        {
            proof {
                assert(s[k as int].data.position + s[k as int].data.chunk_size <= self.capacity());
                assert(s[k as int].data.size <= s[k as int].data.chunk_size);
            }
            let d = self.names.entries[k].data;
            if d.position <= x && x - d.position < d.size {
                proof {
                    lemma_entries_map_index(s, k as int);
                    let m = self.names@;
                    assert(m.contains_key(s[k as int].name@) && m[s[k as int].name@].position
                        <= (x as int) < m[s[k as int].name@].position + m[s[k as int].name@].size);
                    assert(spec_used_by(m, x as int));
                    let np = spec_owner(m, x as int);
                    assert(m.contains_key(np) && m[np].position <= (x as int) < m[np].position
                        + m[np].size);
                    lemma_entries_map_contains(s, np);
                    let ip = choose|i: int| 0 <= i < s.len() && (#[trigger] s[i]).name@ == np;
                    lemma_entries_map_index(s, ip);
                    assert(m[np] == s[ip].data);
                    if ip != k as int {
                        assert(covers(
                            s[ip].data.chunk_size as int,
                            s[ip].data.position as int,
                            x as int,
                        ));
                        assert(covers(
                            s[k as int].data.chunk_size as int,
                            s[k as int].data.position as int,
                            x as int,
                        ));
                        if ip < k as int {
                            lemma_count_symbols_ge_two(s, ip, k as int, x as int);
                        } else {
                            lemma_count_symbols_ge_two(s, k as int, ip, x as int);
                        }
                        assert(self.total_count(x as int) == 1);
                        assert(false);
                    }
                    assert(spec_cell(m, x as int) == Some(s[k as int].data.id));
                }
                return Some(d.id);
            }
            k = k + 1;
        }
        proof {
            let m = self.names@;
            if spec_used_by(m, x as int) {
                let np = spec_owner(m, x as int);
                assert(m.contains_key(np) && m[np].position <= (x as int) < m[np].position
                    + m[np].size);
                lemma_entries_map_contains(s, np);
                let ip = choose|i: int| 0 <= i < s.len() && (#[trigger] s[i]).name@ == np;
                lemma_entries_map_index(s, ip);
                assert(false);
            }
        }
        None
    }

    /// The byte-level rendering of the region: one cell per byte, holding
    /// the identifier of the symbol whose used range covers that byte, and
    /// nothing for bytes in the unused tail of a chunk or in a free block.
    /// Formatting the cells, the variables and the blocks for display is
    /// the caller's business.
    pub fn show(&self) -> (r: Vec<Option<usize>>)
        requires
            self.wf(),
        ensures
            r@.len() == self.capacity(),
            forall|x: int| 0 <= x < self.capacity() ==> r@[x] == spec_cell(self.names@, x),
    {
        let cap = self.memory.len();
        let mut cells: Vec<Option<usize>> = Vec::new();
        let mut x: usize = 0;
        while x < cap
            invariant
                self.wf(),
                cap == self.capacity(),
                x == cells@.len(),
                x <= cap,
                forall|t: int| 0 <= t < x ==> cells@[t] == spec_cell(self.names@, t),
            decreases cap - x,
        {
            let c = self.cell_at(x);
            cells.push(c);
            x = x + 1;
        }
        cells
    }

    /// The free-list structure, for inspection.
    pub fn get_blocks(&self) -> (r: &BlockLists)
        ensures
            r == &self.blocks,
    {
        &self.blocks
    }

    /// The symbol table, for inspection.
    pub fn get_names(&self) -> (r: &SymbolTable)
        ensures
            r == &self.names,
    {
        &self.names
    }

    /// The simulated memory region, for inspection.
    pub fn get_memory(&self) -> (r: &Vec<u8>)
        ensures
            r == &self.memory,
    {
        &self.memory
    }
}

/// The first free-list entry that can serve a chunk of `chunk_size` bytes:
/// large enough and non-empty. With the entries sorted by size, the first
/// such entry is the smallest qualifying one.
fn find_fit(lists: &Vec<BlockEntry>, chunk_size: usize) -> (r: Option<usize>)
    ensures
        match r {
            Some(j) => 0 <= j < lists@.len() && lists@[j as int].size >= chunk_size
                && lists@[j as int].addrs@.len() > 0 && forall|t: int|
                0 <= t < j ==> !((#[trigger] lists@[t]).size >= chunk_size && lists@[t].addrs@.len()
                    > 0),
            None => forall|t: int|
                0 <= t < lists@.len() ==> !((#[trigger] lists@[t]).size >= chunk_size
                    && lists@[t].addrs@.len() > 0),
        },
{
    let n = lists.len();
    let mut j: usize = 0;
    while j < n
        invariant
            j <= n,
            n == lists@.len(),
            forall|t: int|
                0 <= t < j ==> !((#[trigger] lists@[t]).size >= chunk_size && lists@[t].addrs@.len()
                    > 0),
        decreases n - j,
    {
        if lists[j].size >= chunk_size && lists[j].addrs.len() > 0 {
            return Some(j);
        }
        j = j + 1;
    }
    None
}

} // verus!

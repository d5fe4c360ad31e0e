//! The free-list structure: for each power-of-two block size, the start
//! addresses of the free blocks of exactly that size.
//!
//! The structure is a sequence of entries sorted by strictly increasing
//! block size; its view is the map from block size to the address list
//! (in stack order: the last address of a list is the next one taken).
//! The specification also provides coverage counting — how many recorded
//! blocks cover a given address — which is what the allocator's tiling
//! invariant is stated with, and the `chunk_seq` partition of a range
//! into maximal power-of-two chunks.

use vstd::prelude::*;

use crate::utils::{is_pow2, lemma_lower_pow2_bounds, lower_pow2};

verus! {

/// The free blocks of one size: `addrs` are the start addresses of the
/// currently free blocks of exactly `size` bytes.
#[derive(Debug, PartialEq)]
pub struct BlockEntry {
    pub size: usize,
    pub addrs: Vec<usize>,
}

/// The free-list structure, with entries sorted by block size.
#[derive(Debug, PartialEq)]
pub struct BlockLists {
    pub lists: Vec<BlockEntry>,
}

/// The block `[addr, addr + size)` covers address `x`.
pub open spec fn covers(size: int, addr: int, x: int) -> bool {
    addr <= x < addr + size
}

/// The map denoted by a sequence of entries.
pub open spec fn lists_map(s: Seq<BlockEntry>) -> Map<usize, Seq<usize>>
    decreases s.len(),
{
    if s.len() == 0 {
        Map::empty()
    } else {
        lists_map(s.drop_last()).insert(s.last().size, s.last().addrs@)
    }
}

/// Entries are sorted by strictly increasing block size.
pub open spec fn lists_sorted(s: Seq<BlockEntry>) -> bool {
    forall|i: int, j: int|
        0 <= i < j < s.len() ==> (#[trigger] s[i]).size < (#[trigger] s[j]).size
}

/// Every block size is a power of two.
pub open spec fn lists_pow2(s: Seq<BlockEntry>) -> bool {
    forall|i: int| 0 <= i < s.len() ==> is_pow2((#[trigger] s[i]).size as int)
}

/// Block sizes are pairwise distinct.
pub open spec fn sizes_distinct(s: Seq<BlockEntry>) -> bool {
    forall|i: int, j: int|
        0 <= i < j < s.len() ==> (#[trigger] s[i]).size != (#[trigger] s[j]).size
}

/// Every recorded block lies inside `[0, cap)`.
pub open spec fn lists_bounded(s: Seq<BlockEntry>, cap: int) -> bool {
    forall|i: int, k: int|
        0 <= i < s.len() && 0 <= k < s[i].addrs@.len() ==> #[trigger] s[i].addrs@[k] + s[i].size
            <= cap
}

/// How many of the blocks of one entry cover address `x`.
pub open spec fn count_addrs(size: int, addrs: Seq<usize>, x: int) -> nat
    decreases addrs.len(),
{
    if addrs.len() == 0 {
        0
    } else {
        count_addrs(size, addrs.drop_last(), x) + (if covers(size, addrs.last() as int, x) {
            1nat
        } else {
            0nat
        })
    }
}

/// How many recorded free blocks cover address `x`.
pub open spec fn count_blocks(s: Seq<BlockEntry>, x: int) -> nat
    decreases s.len(),
{
    if s.len() == 0 {
        0
    } else {
        count_blocks(s.drop_last(), x) + count_addrs(
            s.last().size as int,
            s.last().addrs@,
            x,
        )
    }
}

/// How many times address `a` occurs in an address list.
pub open spec fn count_occurrences(addrs: Seq<usize>, a: usize) -> nat
    decreases addrs.len(),
{
    if addrs.len() == 0 {
        0
    } else {
        count_occurrences(addrs.drop_last(), a) + (if addrs.last() == a {
            1nat
        } else {
            0nat
        })
    }
}

/// The greedy partition of `[start, start + len)` into maximal power-of-two
/// chunks, as a sequence of (size, address) pairs, largest chunk first.
pub open spec fn chunk_seq(start: int, len: int) -> Seq<(int, int)>
    decreases len,
{
    if len <= 0 {
        Seq::empty()
    } else {
        proof {
            lemma_lower_pow2_bounds(len);
        }
        let p = lower_pow2(len);
        seq![(p, start)] + chunk_seq(start + p, len - p)
    }
}

/// How many chunks of a (size, address) sequence cover address `x`.
pub open spec fn count_chunks(cs: Seq<(int, int)>, x: int) -> nat
    decreases cs.len(),
{
    if cs.len() == 0 {
        0
    } else {
        (if covers(cs[0].0, cs[0].1, x) {
            1nat
        } else {
            0nat
        }) + count_chunks(cs.drop_first(), x)
    }
}

/// Record one free block in the map: append its address to the list for
/// its size, creating the key if absent.
pub open spec fn free_lists_insert(m: Map<usize, Seq<usize>>, size: usize, addr: usize) -> Map<
    usize,
    Seq<usize>,
> {
    let cur = if m.contains_key(size) {
        m[size]
    } else {
        Seq::empty()
    };
    m.insert(size, cur.push(addr))
}

/// Record a whole sequence of chunks, first chunk first.
pub open spec fn free_lists_insert_all(m: Map<usize, Seq<usize>>, cs: Seq<(int, int)>) -> Map<
    usize,
    Seq<usize>,
>
    decreases cs.len(),
{
    if cs.len() == 0 {
        m
    } else {
        free_lists_insert_all(
            free_lists_insert(m, cs[0].0 as usize, cs[0].1 as usize),
            cs.drop_first(),
        )
    }
}

impl View for BlockLists {
    type V = Map<usize, Seq<usize>>;

    open spec fn view(&self) -> Map<usize, Seq<usize>> {
        lists_map(self.lists@)
    }
}

impl BlockLists {
    pub open spec fn wf(&self) -> bool {
        lists_sorted(self.lists@) && lists_pow2(self.lists@)
    }

    pub open spec fn bounded(&self, cap: int) -> bool {
        lists_bounded(self.lists@, cap)
    }
}

/// A size is a key of the map exactly when some entry bears it.
pub proof fn lemma_lists_map_contains(s: Seq<BlockEntry>, k: usize)
    ensures
        lists_map(s).contains_key(k) <==> exists|i: int|
            0 <= i < s.len() && (#[trigger] s[i]).size == k,
    decreases s.len(),
{
    if s.len() > 0 {
        lemma_lists_map_contains(s.drop_last(), k);
        if s.last().size == k {
            assert(s[s.len() - 1].size == k);
        } else {
            if lists_map(s).contains_key(k) {
                let i = choose|i: int|
                    0 <= i < s.drop_last().len() && (#[trigger] s.drop_last()[i]).size == k;
                assert(s[i].size == k);
            }
            if exists|i: int| 0 <= i < s.len() && (#[trigger] s[i]).size == k {
                let i = choose|i: int| 0 <= i < s.len() && (#[trigger] s[i]).size == k;
                assert(i < s.len() - 1);
                assert(s.drop_last()[i].size == k);
            }
        }
    }
}

/// With distinct sizes, the map sends each entry's size to its address list.
pub proof fn lemma_lists_map_index(s: Seq<BlockEntry>, i: int)
    requires
        sizes_distinct(s),
        0 <= i < s.len(),
    ensures
        lists_map(s).contains_key(s[i].size),
        lists_map(s)[s[i].size] == s[i].addrs@,
    decreases s.len(),
{
    if i < s.len() - 1 {
        assert forall|a: int, b: int| 0 <= a < b < s.drop_last().len() implies (
        #[trigger] s.drop_last()[a]).size != (#[trigger] s.drop_last()[b]).size by {
            assert(s.drop_last()[a] == s[a]);
            assert(s.drop_last()[b] == s[b]);
        }
        lemma_lists_map_index(s.drop_last(), i);
        assert(s.last().size != s[i].size);
        assert(s.drop_last()[i] == s[i]);
    }
}

/// Replacing the entry at `i` by one of the same size updates exactly
/// that key of the map.
pub proof fn lemma_lists_map_update(s: Seq<BlockEntry>, i: int, e: BlockEntry)
    requires
        sizes_distinct(s),
        0 <= i < s.len(),
        e.size == s[i].size,
    ensures
        lists_map(s.update(i, e)) == lists_map(s).insert(e.size, e.addrs@),
    decreases s.len(),
{
    assert forall|a: int, b: int| 0 <= a < b < s.drop_last().len() implies (
    #[trigger] s.drop_last()[a]).size != (#[trigger] s.drop_last()[b]).size by {
        assert(s.drop_last()[a] == s[a]);
        assert(s.drop_last()[b] == s[b]);
    }
    if i == s.len() - 1 {
        assert(s.update(i, e).drop_last() =~= s.drop_last());
        assert(s.update(i, e).last() == e);
        assert(lists_map(s.update(i, e)) =~= lists_map(s).insert(e.size, e.addrs@));
    } else {
        assert(s.update(i, e).drop_last() =~= s.drop_last().update(i, e));
        assert(s.update(i, e).last() == s.last());
        assert(s.drop_last()[i] == s[i]);
        lemma_lists_map_update(s.drop_last(), i, e);
        assert(s.last().size != e.size);
        assert(lists_map(s.update(i, e)) =~= lists_map(s).insert(e.size, e.addrs@));
    }
}

/// Inserting an entry with a fresh size at any position adds exactly
/// that key to the map.
pub proof fn lemma_lists_map_insert_at(s: Seq<BlockEntry>, i: int, e: BlockEntry)
    requires
        forall|t: int| 0 <= t < s.len() ==> (#[trigger] s[t]).size != e.size,
        0 <= i <= s.len(),
    ensures
        lists_map(s.insert(i, e)) == lists_map(s).insert(e.size, e.addrs@),
    decreases s.len(),
{
    if i == s.len() {
        assert(s.insert(i, e).drop_last() =~= s);
        assert(s.insert(i, e).last() == e);
    } else {
        assert(s.insert(i, e).drop_last() =~= s.drop_last().insert(i, e));
        assert(s.insert(i, e).last() == s.last());
        assert forall|t: int| 0 <= t < s.drop_last().len() implies (
        #[trigger] s.drop_last()[t]).size != e.size by {
            assert(s.drop_last()[t] == s[t]);
        }
        lemma_lists_map_insert_at(s.drop_last(), i, e);
        assert(s.last().size != e.size);
        assert(lists_map(s.insert(i, e)) =~= lists_map(s).insert(e.size, e.addrs@));
    }
}

/// Coverage accounting for replacing the entry at `i`.
pub proof fn lemma_count_blocks_update(s: Seq<BlockEntry>, i: int, e: BlockEntry, x: int)
    requires
        0 <= i < s.len(),
    ensures
        count_blocks(s.update(i, e), x) + count_addrs(s[i].size as int, s[i].addrs@, x)
            == count_blocks(s, x) + count_addrs(e.size as int, e.addrs@, x),
    decreases s.len(),
{
    if i == s.len() - 1 {
        assert(s.update(i, e).drop_last() =~= s.drop_last());
        assert(s.update(i, e).last() == e);
    } else {
        assert(s.update(i, e).drop_last() =~= s.drop_last().update(i, e));
        assert(s.update(i, e).last() == s.last());
        assert(s.drop_last()[i] == s[i]);
        lemma_count_blocks_update(s.drop_last(), i, e, x);
    }
}

/// Coverage accounting for inserting an entry at `i`.
pub proof fn lemma_count_blocks_insert_at(s: Seq<BlockEntry>, i: int, e: BlockEntry, x: int)
    requires
        0 <= i <= s.len(),
    ensures
        count_blocks(s.insert(i, e), x) == count_blocks(s, x) + count_addrs(
            e.size as int,
            e.addrs@,
            x,
        ),
    decreases s.len(),
{
    if i == s.len() {
        assert(s.insert(i, e).drop_last() =~= s);
        assert(s.insert(i, e).last() == e);
    } else {
        assert(s.insert(i, e).drop_last() =~= s.drop_last().insert(i, e));
        assert(s.insert(i, e).last() == s.last());
        lemma_count_blocks_insert_at(s.drop_last(), i, e, x);
    }
}

/// The total coverage is at least the coverage of any one entry.
pub proof fn lemma_count_blocks_ge_entry(s: Seq<BlockEntry>, i: int, x: int)
    requires
        0 <= i < s.len(),
    ensures
        count_blocks(s, x) >= count_addrs(s[i].size as int, s[i].addrs@, x),
    decreases s.len(),
{
    if i < s.len() - 1 {
        assert(s.drop_last()[i] == s[i]);
        lemma_count_blocks_ge_entry(s.drop_last(), i, x);
    }
}

/// Every occurrence of address `a` in a list of positive-size blocks
/// contributes a block covering `a` itself.
pub proof fn lemma_count_addrs_ge_occurrences(size: int, addrs: Seq<usize>, a: usize)
    requires
        size >= 1,
    ensures
        count_addrs(size, addrs, a as int) >= count_occurrences(addrs, a),
    decreases addrs.len(),
{
    if addrs.len() > 0 {
        lemma_count_addrs_ge_occurrences(size, addrs.drop_last(), a);
    }
}

/// The chunks of `chunk_seq(start, len)` tile `[start, start + len)`:
/// each address in the range is covered by exactly one chunk, addresses
/// outside it by none, and every chunk is a power-of-two block lying
/// inside the range.
pub proof fn lemma_chunk_seq_tiles(start: int, len: int)
    requires
        len >= 0,
    ensures
        forall|x: int| count_chunks(chunk_seq(start, len), x) == (if start <= x < start + len {
            1nat
        } else {
            0nat
        }),
        forall|i: int|
            0 <= i < chunk_seq(start, len).len() ==> {
                let c = #[trigger] chunk_seq(start, len)[i];
                is_pow2(c.0) && 1 <= c.0 && start <= c.1 && c.1 + c.0 <= start + len
            },
    decreases len,
{
    if len > 0 {
        lemma_lower_pow2_bounds(len);
        let p = lower_pow2(len);
        let head = seq![(p, start)];
        let rest = chunk_seq(start + p, len - p);
        lemma_chunk_seq_tiles(start + p, len - p);
        assert(chunk_seq(start, len) == head + rest);
        assert((head + rest).drop_first() =~= rest);
        assert((head + rest)[0] == (p, start));
        assert forall|x: int| count_chunks(chunk_seq(start, len), x) == (if start <= x < start
            + len {
            1nat
        } else {
            0nat
        }) by {
            assert(count_chunks(head + rest, x) == (if covers(p, start, x) {
                1nat
            } else {
                0nat
            }) + count_chunks(rest, x));
        }
        assert forall|i: int| 0 <= i < chunk_seq(start, len).len() implies {
            let c = #[trigger] chunk_seq(start, len)[i];
            is_pow2(c.0) && 1 <= c.0 && start <= c.1 && c.1 + c.0 <= start + len
        } by {
            if i > 0 {
                assert(chunk_seq(start, len)[i] == rest[i - 1]);
            }
        }
    }
}

impl BlockLists {
    /// Record a free power-of-two block `[addr, addr + size)`, appending
    /// its address to the list for `size` and creating that entry at its
    /// sorted position if it is absent.
    pub fn insert_chunk(&mut self, size: usize, addr: usize)
        requires
            old(self).wf(),
            is_pow2(size as int),
        ensures
            final(self).wf(),
            final(self)@ == free_lists_insert(old(self)@, size, addr),
            forall|x: int|
                count_blocks(final(self).lists@, x) == count_blocks(old(self).lists@, x) + (
                if covers(size as int, addr as int, x) {
                    1nat
                } else {
                    0nat
                }),
            forall|cap: int|
                lists_bounded(old(self).lists@, cap) && addr + size <= cap ==> lists_bounded(
                    final(self).lists@,
                    cap,
                ),
    {
        let ghost s0 = self.lists@;
        proof {
            assert(sizes_distinct(s0));
        }
        let n = self.lists.len();
        let mut j: usize = 0;
        while j < n && self.lists[j].size < size
            invariant
                n == self.lists@.len(),
                j <= n,
                self.lists@ == s0,
                forall|t: int| 0 <= t < j ==> (#[trigger] s0[t]).size < size,
            decreases n - j,
        {
            j = j + 1;
        }
        if j < n && self.lists[j].size == size {
            let mut entry = self.lists.remove(j);
            entry.addrs.push(addr);
            let ghost e = entry;
            self.lists.insert(j, entry);
            proof {
                assert(self.lists@ =~= s0.update(j as int, e));
                assert(e.size == s0[j as int].size);
                assert(e.addrs@ == s0[j as int].addrs@.push(addr));
                lemma_lists_map_index(s0, j as int);
                lemma_lists_map_update(s0, j as int, e);
                assert(lists_map(s0)[size].push(addr) == e.addrs@);
                assert(lists_map(self.lists@) == free_lists_insert(lists_map(s0), size, addr));
                assert forall|x: int|
                    count_blocks(self.lists@, x) == count_blocks(s0, x) + (if covers(
                        size as int,
                        addr as int,
                        x,
                    ) {
                        1nat
                    } else {
                        0nat
                    }) by {
                    lemma_count_blocks_update(s0, j as int, e, x);
                    assert(e.addrs@.drop_last() =~= s0[j as int].addrs@);
                    assert(count_addrs(size as int, e.addrs@, x) == count_addrs(
                        size as int,
                        s0[j as int].addrs@,
                        x,
                    ) + (if covers(size as int, addr as int, x) {
                        1nat
                    } else {
                        0nat
                    }));
                }
                assert(lists_sorted(self.lists@));
                assert(lists_pow2(self.lists@));
                assert forall|cap: int|
                    lists_bounded(s0, cap) && addr + size <= cap implies lists_bounded(
                    self.lists@,
                    cap,
                ) by {
                    if lists_bounded(s0, cap) && addr + size <= cap {
                        assert forall|i: int, k: int|
                            0 <= i < self.lists@.len() && 0 <= k
                                < self.lists@[i].addrs@.len() implies #[trigger] self.lists@[i].addrs@[k]
                            + self.lists@[i].size <= cap by {
                            if i == j as int {
                                if k < s0[i].addrs@.len() {
                                    assert(self.lists@[i].addrs@[k] == s0[i].addrs@[k]);
                                } else {
                                    assert(self.lists@[i].addrs@[k] == addr);
                                }
                            } else {
                                assert(self.lists@[i] == s0[i]);
                            }
                        }
                    }
                }
            }
        } else {
            let mut addrs: Vec<usize> = Vec::new();
            addrs.push(addr);
            let entry = BlockEntry { size, addrs };
            let ghost e = entry;
            self.lists.insert(j, entry);
            proof {
                assert(e.addrs@ =~= Seq::<usize>::empty().push(addr));
                assert forall|t: int| 0 <= t < s0.len() implies (#[trigger] s0[t]).size != size by {
                    if t > j as int {
                        assert(s0[j as int].size < s0[t].size);
                    }
                }
                lemma_lists_map_contains(s0, size);
                assert(!lists_map(s0).contains_key(size));
                lemma_lists_map_insert_at(s0, j as int, e);
                assert(lists_map(self.lists@) == free_lists_insert(lists_map(s0), size, addr));
                assert forall|x: int|
                    count_blocks(self.lists@, x) == count_blocks(s0, x) + (if covers(
                        size as int,
                        addr as int,
                        x,
                    ) {
                        1nat
                    } else {
                        0nat
                    }) by {
                    lemma_count_blocks_insert_at(s0, j as int, e, x);
                    assert(e.addrs@.drop_last() =~= Seq::<usize>::empty());
                    assert(e.addrs@.last() == addr);
                    assert(count_addrs(size as int, Seq::<usize>::empty(), x) == 0);
                    assert(count_addrs(size as int, e.addrs@, x) == (if covers(
                        size as int,
                        addr as int,
                        x,
                    ) {
                        1nat
                    } else {
                        0nat
                    }));
                }
                assert forall|a: int, b: int| 0 <= a < b < self.lists@.len() implies (
                #[trigger] self.lists@[a]).size < (#[trigger] self.lists@[b]).size by {
                    if a < j as int {
                        assert(self.lists@[a] == s0[a]);
                    }
                    if b < j as int {
                        assert(self.lists@[b] == s0[b]);
                    }
                    if a > j as int {
                        assert(self.lists@[a] == s0[a - 1]);
                    }
                    if b > j as int {
                        assert(self.lists@[b] == s0[b - 1]);
                    }
                }
                assert forall|i: int| 0 <= i < self.lists@.len() implies is_pow2(
                    (#[trigger] self.lists@[i]).size as int,
                ) by {
                    if i < j as int {
                        assert(self.lists@[i] == s0[i]);
                    } else if i > j as int {
                        assert(self.lists@[i] == s0[i - 1]);
                    }
                }
                assert forall|cap: int|
                    lists_bounded(s0, cap) && addr + size <= cap implies lists_bounded(
                    self.lists@,
                    cap,
                ) by {
                    if lists_bounded(s0, cap) && addr + size <= cap {
                        assert forall|i: int, k: int|
                            0 <= i < self.lists@.len() && 0 <= k
                                < self.lists@[i].addrs@.len() implies #[trigger] self.lists@[i].addrs@[k]
                            + self.lists@[i].size <= cap by {
                            if i < j as int {
                                assert(self.lists@[i] == s0[i]);
                            } else if i > j as int {
                                assert(self.lists@[i] == s0[i - 1]);
                            } else {
                                assert(self.lists@[i].addrs@[k] == addr);
                            }
                        }
                    }
                }
            }
        }
    }

    /// Partition the range `[start, start + len)` into maximal power-of-two
    /// chunks, greedily from the largest, and record each one as free.
    pub fn create_chunks(&mut self, start: usize, len: usize)
        requires
            old(self).wf(),
            start + len <= usize::MAX,
        ensures
            final(self).wf(),
            final(self)@ == free_lists_insert_all(old(self)@, chunk_seq(start as int, len as int)),
            forall|x: int|
                count_blocks(final(self).lists@, x) == count_blocks(old(self).lists@, x)
                    + count_chunks(chunk_seq(start as int, len as int), x),
            forall|cap: int|
                lists_bounded(old(self).lists@, cap) && start + len <= cap ==> lists_bounded(
                    final(self).lists@,
                    cap,
                ),
    {
        let ghost s0 = self.lists@;
        let ghost full = chunk_seq(start as int, len as int);
        let mut i: usize = start;
        let mut remaining: usize = len;
        while remaining > 0
            invariant
                self.wf(),
                i + remaining == start + len,
                start + len <= usize::MAX,
                free_lists_insert_all(lists_map(s0), full) == free_lists_insert_all(
                    lists_map(self.lists@),
                    chunk_seq(i as int, remaining as int),
                ),
                forall|x: int|
                    count_blocks(s0, x) + count_chunks(full, x) == count_blocks(self.lists@, x)
                        + count_chunks(chunk_seq(i as int, remaining as int), x),
                forall|cap: int|
                    lists_bounded(s0, cap) && start + len <= cap ==> lists_bounded(
                        self.lists@,
                        cap,
                    ),
            decreases remaining,
        {
            let ghost pre = self.lists@;
            let current = crate::utils::nearest_lower_2_power(remaining);
            let ghost cs = chunk_seq(i as int, remaining as int);
            proof {
                lemma_lower_pow2_bounds(remaining as int);
                assert(cs == seq![(current as int, i as int)] + chunk_seq(
                    i as int + current as int,
                    remaining as int - current as int,
                ));
                assert(cs.drop_first() =~= chunk_seq(
                    i as int + current as int,
                    remaining as int - current as int,
                ));
                assert(cs[0] == (current as int, i as int));
            }
            self.insert_chunk(current, i);
            proof {
                assert(free_lists_insert_all(lists_map(pre), cs) == free_lists_insert_all(
                    free_lists_insert(lists_map(pre), current, i),
                    cs.drop_first(),
                ));
                assert forall|x: int|
                    count_blocks(s0, x) + count_chunks(full, x) == count_blocks(self.lists@, x)
                        + count_chunks(cs.drop_first(), x) by {
                    assert(count_chunks(cs, x) == (if covers(current as int, i as int, x) {
                        1nat
                    } else {
                        0nat
                    }) + count_chunks(cs.drop_first(), x));
                }
            }
            i = i + current;
            remaining = remaining - current;
        }
        proof {
            assert(chunk_seq(i as int, 0) =~= Seq::<(int, int)>::empty());
            assert(free_lists_insert_all(lists_map(self.lists@), chunk_seq(i as int, 0))
                == lists_map(self.lists@));
        }
    }
}

} // verus!

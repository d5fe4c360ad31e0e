//! The symbol table: live named allocations.
//!
//! Symbols are stored as a sequence of name/record entries whose names are
//! pairwise distinct; the table is specified through its view, a map from
//! the name (as a character sequence) to the allocation record.

use vstd::prelude::*;

verus! {

/// The record of one named allocation: its identifier, starting address,
/// requested size in bytes, and the power-of-two block size actually
/// reserved for it.
#[derive(Clone, Copy, Debug, PartialEq, Eq, Structural)]
pub struct SymbolData {
    pub id: usize,
    pub position: usize,
    pub size: usize,
    pub chunk_size: usize,
}

/// One live symbol: a name together with its allocation record.
#[derive(Debug, PartialEq)]
pub struct SymbolEntry {
    pub name: String,
    pub data: SymbolData,
}

/// The symbol table, a collection of live symbols with distinct names.
#[derive(Debug, PartialEq)]
pub struct SymbolTable {
    pub entries: Vec<SymbolEntry>,
}

/// The map denoted by a sequence of entries: later entries win, though the
/// table only ever holds distinct names.
pub open spec fn entries_map(s: Seq<SymbolEntry>) -> Map<Seq<char>, SymbolData>
    decreases s.len(),
{
    if s.len() == 0 {
        Map::empty()
    } else {
        entries_map(s.drop_last()).insert(s.last().name@, s.last().data)
    }
}

/// The names of the entries are pairwise distinct.
pub open spec fn entries_names_unique(s: Seq<SymbolEntry>) -> bool {
    forall|i: int, j: int|
        0 <= i < j < s.len() ==> (#[trigger] s[i]).name@ != (#[trigger] s[j]).name@
}

impl View for SymbolTable {
    type V = Map<Seq<char>, SymbolData>;

    open spec fn view(&self) -> Map<Seq<char>, SymbolData> {
        entries_map(self.entries@)
    }
}

impl SymbolTable {
    pub open spec fn names_unique(&self) -> bool {
        entries_names_unique(self.entries@)
    }

    /// The index of the entry named `name`, if one exists.
    pub fn find(&self, name: &String) -> (r: Option<usize>)
        ensures
            match r {
                Some(i) => i < self.entries@.len() && self.entries@[i as int].name@ == name@,
                None => forall|t: int|
                    0 <= t < self.entries@.len() ==> (#[trigger] self.entries@[t]).name@ != name@,
            },
    {
        let n = self.entries.len();
        let mut i: usize = 0;
        while i < n
            invariant
                n == self.entries@.len(),
                i <= n,
                forall|t: int| 0 <= t < i ==> (#[trigger] self.entries@[t]).name@ != name@,
            decreases n - i,
        {
            if self.entries[i].name == *name {
                return Some(i);
            }
            i = i + 1;
        }
        None
    }

    /// Look up the record of a live symbol by name.
    pub fn get(&self, name: &String) -> (r: Option<&SymbolData>)
        requires
            self.names_unique(),
        ensures
            match r {
                Some(d) => self@.contains_key(name@) && *d == self@[name@],
                None => !self@.contains_key(name@),
            },
    {
        proof {
            lemma_entries_map_contains(self.entries@, name@);
        }
        match self.find(name) {
            Some(i) => {
                proof {
                    lemma_entries_map_index(self.entries@, i as int);
                }
                Some(&self.entries[i].data)
            },
            None => None,
        }
    }
}

/// A name is in the map exactly when some entry bears it.
pub proof fn lemma_entries_map_contains(s: Seq<SymbolEntry>, n: Seq<char>)
    ensures
        entries_map(s).contains_key(n) <==> exists|i: int|
            0 <= i < s.len() && (#[trigger] s[i]).name@ == n,
    decreases s.len(),
{
    if s.len() > 0 {
        lemma_entries_map_contains(s.drop_last(), n);
        if s.last().name@ == n {
            assert(s[s.len() - 1].name@ == n);
        } else {
            if entries_map(s).contains_key(n) {
                let i = choose|i: int|
                    0 <= i < s.drop_last().len() && (#[trigger] s.drop_last()[i]).name@ == n;
                assert(s[i].name@ == n);
            }
            if exists|i: int| 0 <= i < s.len() && (#[trigger] s[i]).name@ == n {
                let i = choose|i: int| 0 <= i < s.len() && (#[trigger] s[i]).name@ == n;
                assert(i < s.len() - 1);
                assert(s.drop_last()[i].name@ == n);
            }
        }
    }
}

/// With distinct names, the map sends each entry's name to its record.
pub proof fn lemma_entries_map_index(s: Seq<SymbolEntry>, i: int)
    requires
        entries_names_unique(s),
        0 <= i < s.len(),
    ensures
        entries_map(s).contains_key(s[i].name@),
        entries_map(s)[s[i].name@] == s[i].data,
    decreases s.len(),
{
    if i < s.len() - 1 {
        assert forall|a: int, b: int| 0 <= a < b < s.drop_last().len() implies (
        #[trigger] s.drop_last()[a]).name@ != (#[trigger] s.drop_last()[b]).name@ by {
            assert(s.drop_last()[a] == s[a]);
            assert(s.drop_last()[b] == s[b]);
        }
        lemma_entries_map_index(s.drop_last(), i);
        assert(s.last().name@ != s[i].name@);
        assert(s.drop_last()[i] == s[i]);
    }
}

/// Removing the entry at `i` removes exactly its name from the map.
pub proof fn lemma_entries_map_remove(s: Seq<SymbolEntry>, i: int)
    requires
        entries_names_unique(s),
        0 <= i < s.len(),
    ensures
        entries_map(s.remove(i)) == entries_map(s).remove(s[i].name@),
    decreases s.len(),
{
    let n = s[i].name@;
    assert forall|a: int, b: int| 0 <= a < b < s.drop_last().len() implies (
    #[trigger] s.drop_last()[a]).name@ != (#[trigger] s.drop_last()[b]).name@ by {
        assert(s.drop_last()[a] == s[a]);
        assert(s.drop_last()[b] == s[b]);
    }
    if i == s.len() - 1 {
        assert(s.remove(i) =~= s.drop_last());
        lemma_entries_map_contains(s.drop_last(), n);
        assert forall|j: int| 0 <= j < s.drop_last().len() implies (
        #[trigger] s.drop_last()[j]).name@ != n by {
            assert(s.drop_last()[j] == s[j]);
        }
        assert(!entries_map(s.drop_last()).contains_key(n));
        assert(entries_map(s).remove(n) =~= entries_map(s.drop_last()));
    } else {
        assert(s.remove(i).drop_last() =~= s.drop_last().remove(i));
        assert(s.remove(i).last() == s.last());
        lemma_entries_map_remove(s.drop_last(), i);
        assert(s.drop_last()[i] == s[i]);
        assert(s.last().name@ != n);
        assert(s.remove(i).len() > 0);
        assert(entries_map(s.remove(i)) == entries_map(s.remove(i).drop_last()).insert(
            s.remove(i).last().name@,
            s.remove(i).last().data,
        ));
        assert(entries_map(s.remove(i)) =~= entries_map(s).remove(n));
    }
}

} // verus!

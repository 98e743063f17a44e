//! The registry: an insertion-ordered set of symbol names, built once at
//! startup. Handlers look a queried symbol up here; the caller keeps the
//! per-symbol reader handles in a parallel table under the same indices.

use vstd::prelude::*;

verus! {

/// Structure representing a query request for a specific symbol.
#[derive(Debug)]
pub struct QuerryData {
    /// The symbol to query (e.g., "BTCUSDT").
    pub symbol: String,
}

/// A read-mostly mapping from symbol names to table indices: the name at
/// position `i` belongs to the reader stored at position `i` by the caller.
#[derive(Debug)]
pub struct MapData {
    /// The registered symbol names, each held at most once.
    pub data: Vec<String>,
}

impl MapData {
    /// No symbol name occurs twice.
    pub open spec fn wf(&self) -> bool {
        forall|i: int, j: int|
            0 <= i < j < self.data@.len() ==> self.data@[i]@ != self.data@[j]@
    }

    /// An empty registry.
    pub fn new() -> (r: MapData)
        ensures
            r.wf(),
            r.data@.len() == 0,
    {
        MapData { data: Vec::new() }
    }

    /// Finds the index registered for `symbol`: exact, case-sensitive match.
    pub fn lookup(&self, symbol: &String) -> (r: Option<usize>)
        ensures
            match r {
                Some(i) => i < self.data@.len() && self.data@[i as int]@ == symbol@
                    && forall|j: int| 0 <= j < i ==> self.data@[j]@ != symbol@,
                None => forall|j: int|
                    0 <= j < self.data@.len() ==> self.data@[j]@ != symbol@,
            },
    {
        let mut i: usize = 0;
        let n = self.data.len();
        while i < n
            invariant
                i <= n,
                n == self.data@.len(),
                forall|j: int| 0 <= j < i ==> self.data@[j]@ != symbol@,
            decreases n - i,
        {
            if self.data[i].eq(symbol) {
                return Some(i);
            }
            i = i + 1;
        }
        None
    }

    /// Registers a symbol: returns the index it already had, or appends it
    /// and returns the new index.
    pub fn insert(&mut self, symbol: String) -> (i: usize)
        requires
            old(self).wf(),
        ensures
            final(self).wf(),
            i < final(self).data@.len(),
            final(self).data@[i as int]@ == symbol@,
            (exists|j: int|
                0 <= j < old(self).data@.len() && old(self).data@[j]@ == symbol@)
                ==> final(self).data@ =~= old(self).data@,
            !(exists|j: int|
                0 <= j < old(self).data@.len() && old(self).data@[j]@ == symbol@)
                ==> final(self).data@ =~= old(self).data@.push(symbol),
    {
        let found = self.lookup(&symbol);
        match found {
            Some(i) => i,
            None => {
                let i = self.data.len();
                self.data.push(symbol);
                proof {
                    assert forall|a: int, b: int|
                        0 <= a < b < self.data@.len() implies self.data@[a]@
                        != self.data@[b]@ by {
                        if b < self.data@.len() - 1 {
                            assert(old(self).wf());
                        }
                    }
                }
                i
            },
        }
    }
}

} // verus!

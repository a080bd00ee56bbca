//! The neighbour index: key-sorted entries and the start-offset table.
use vstd::prelude::*;
use crate::entry::{Entry, build_entries, entries_of, permutation_of, sort_by_key, sorted_by_key};
use crate::error::SimError;
use crate::grid::Point;
use crate::network::bitonic_sort;

verus! {

broadcast use vstd::seq_lib::group_seq_properties, vstd::seq_lib::group_to_multiset_ensures;

/// Start offset of a key that no entry holds.
pub const NO_ENTRIES: u32 = 0xFFFF_FFFF;

/// Some entry of `s` holds key `k`.
pub open spec fn has_key(s: Seq<Entry>, k: u32) -> bool {
    exists|p: int| 0 <= p < s.len() && s[p].key == k
}

/// `v` is the first position of `s` that holds key `k`, or `NO_ENTRIES` when none does.
pub open spec fn is_start_offset(s: Seq<Entry>, k: u32, v: u32) -> bool {
    if has_key(s, k) {
        &&& v < s.len()
        &&& s[v as int].key == k
        &&& forall|q: int| 0 <= q < v ==> s[q].key != k
    } else {
        v == NO_ENTRIES
    }
}

/// `offsets` gives the start of every key's run in `s`.
pub open spec fn offsets_match(s: Seq<Entry>, offsets: Seq<u32>) -> bool {
    forall|k: int| 0 <= k < offsets.len() ==> #[trigger] is_start_offset(s, k as u32, offsets[k])
}

/// Builds the start-offset table of key-sorted entries.
///
/// A position starts a run when it is the first or its key differs from the
/// previous one. Each run start writes its own position into the slot of its
/// key, and every slot is written by at most one position, so the writes are
/// independent of each other and of their order; a parallel version needs no lock.
pub fn compute_start_offsets(entries: &Vec<Entry>, table_size: u32) -> (r: Vec<u32>)
    requires
        sorted_by_key(entries@),
        entries.len() < u32::MAX,
        forall|p: int| 0 <= p < entries.len() ==> #[trigger] entries@[p].key < table_size,
    ensures
        r.len() == table_size,
        offsets_match(entries@, r@),
{
    let mut offsets: Vec<u32> = Vec::with_capacity(table_size as usize);
    let mut k: u32 = 0;
    while k < table_size
        invariant
            k <= table_size,
            offsets.len() == k,
            forall|q: int| 0 <= q < k ==> offsets@[q] == NO_ENTRIES,
        decreases table_size - k,
    {
        offsets.push(NO_ENTRIES);
        k += 1;
    }
    let n = entries.len();
    let mut p: usize = 0;
    while p < n
        invariant
            n == entries.len(),
            n < u32::MAX,
            sorted_by_key(entries@),
            forall|q: int| 0 <= q < n ==> #[trigger] entries@[q].key < table_size,
            p <= n,
            offsets.len() == table_size,
            forall|j: int|
                0 <= j < table_size ==> #[trigger] is_start_offset(
                    entries@.take(p as int),
                    j as u32,
                    offsets@[j],
                ),
        decreases n - p,
    {
        let key = entries[p].key;
        let starts_run = p == 0 || entries[p - 1].key != key;
        let ghost before = entries@.take(p as int);
        let ghost after = entries@.take(p as int + 1);
        let ghost prev = offsets@;
        assert(after =~= before.push(entries@[p as int]));
        if starts_run {
            proof {
                assert forall|q: int| 0 <= q < p implies #[trigger] before[q].key != key by {
                    assert(entries@[q].key <= entries@[p - 1].key);
                }
            }
            offsets.set(key as usize, p as u32);
        }
        proof {
            assert forall|j: int| 0 <= j < table_size implies #[trigger] is_start_offset(
                after,
                j as u32,
                offsets@[j],
            ) by {
                assert(is_start_offset(before, j as u32, prev[j]));
                if j as u32 == key {
                    assert(after[p as int].key == key);
                    if !starts_run {
                        assert(before[p - 1].key == key);
                        assert(offsets@[j] == prev[j]);
                    }
                } else {
                    assert(offsets@[j] == prev[j]);
                    if has_key(after, j as u32) {
                        let w = choose|w: int| 0 <= w < after.len() && after[w].key == j as u32;
                        assert(before[w].key == j as u32);
                    }
                    if has_key(before, j as u32) {
                        let w = choose|w: int| 0 <= w < before.len() && before[w].key == j as u32;
                        assert(after[w].key == j as u32);
                    }
                }
            }
        }
        p += 1;
    }
    assert(entries@.take(n as int) =~= entries@);
    offsets
}

} // verus!

verus! {

/// How the entries are brought into key order.
#[derive(Clone, Copy, Debug, PartialEq, Eq)]
pub enum SortStrategy {
    /// A stable merge sort.
    Comparison,
    /// The bitonic sorting network, as parallel lanes would run it.
    Network,
}

/// Sorts entries with the bitonic network, one step of parallel lanes at a
/// time, then builds their start-offset table.
pub fn sort_spatial_hash_grid(entries: &mut Vec<Entry>, table_size: u32) -> (offsets: Vec<u32>)
    requires
        old(entries).len() < u32::MAX,
        forall|p: int| 0 <= p < old(entries).len() ==> #[trigger] old(entries)@[p].key < table_size,
    ensures
        sorted_by_key(final(entries)@),
        permutation_of(final(entries)@, old(entries)@),
        offsets.len() == table_size,
        offsets_match(final(entries)@, offsets@),
{
    bitonic_sort(entries);
    proof {
        assert(entries@.to_multiset().len() == old(entries)@.to_multiset().len());
        assert forall|p: int| 0 <= p < entries.len() implies #[trigger] entries@[p].key < table_size by {
            assert(entries@.contains(entries@[p]));
            assert(entries@.to_multiset().count(entries@[p]) > 0);
            assert(old(entries)@.to_multiset().count(entries@[p]) > 0);
            assert(old(entries)@.contains(entries@[p]));
        }
    }
    compute_start_offsets(entries, table_size)
}

/// Entries sorted by key, and the table of where each key's run starts.
pub struct NeighborIndex {
    /// One entry per particle, keys ascending.
    pub entries: Vec<Entry>,
    /// Slot `k` holds the first position of key `k` in `entries`, or `NO_ENTRIES`.
    pub start_offsets: Vec<u32>,
    /// Size of the key space.
    pub table_size: u32,
}

impl NeighborIndex {
    /// The index is consistent: keys are folded hashes, sorted, and the table is exact.
    pub open spec fn wf(&self) -> bool {
        &&& self.table_size > 0
        &&& self.start_offsets.len() == self.table_size
        &&& self.entries.len() < u32::MAX
        &&& sorted_by_key(self.entries@)
        &&& forall|p: int|
            0 <= p < self.entries.len() ==> #[trigger] self.entries@[p].key
                == self.entries@[p].hash % self.table_size
        &&& offsets_match(self.entries@, self.start_offsets@)
    }

    /// The index holds exactly the entries of the particles whose cells are `cells`.
    pub open spec fn indexes(&self, cells: Seq<Point<i32>>) -> bool {
        &&& self.wf()
        &&& permutation_of(self.entries@, entries_of(cells, self.table_size))
    }

    /// Builds the index of a particle buffer from the cell of each particle.
    ///
    /// A key table of size zero cannot hold any key: that is refused.
    pub fn build(cells: &Vec<Point<i32>>, table_size: u32) -> (r: Result<NeighborIndex, SimError>)
        requires
            cells.len() < u32::MAX,
        ensures
            table_size == 0 ==> r == Err::<NeighborIndex, SimError>(SimError::IndexBuildFailure),
            table_size > 0 ==> r is Ok,
            r matches Ok(ix) ==> ix.table_size == table_size && ix.indexes(cells@),
    {
        Self::build_with(cells, table_size, SortStrategy::Comparison)
    }

    /// Builds the index, sorting the entries with the given strategy.
    pub fn build_with(cells: &Vec<Point<i32>>, table_size: u32, strategy: SortStrategy) -> (r: Result<
        NeighborIndex,
        SimError,
    >)
        requires
            cells.len() < u32::MAX,
        ensures
            table_size == 0 ==> r == Err::<NeighborIndex, SimError>(SimError::IndexBuildFailure),
            table_size > 0 ==> r is Ok,
            r matches Ok(ix) ==> ix.table_size == table_size && ix.indexes(cells@),
    {
        if table_size == 0 {
            return Err(SimError::IndexBuildFailure);
        }
        let mut entries = build_entries(cells, table_size);
        proof {
            lemma_permuted_entries(entries@, cells@, table_size);
        }
        let start_offsets = match strategy {
            SortStrategy::Comparison => {
                sort_by_key(&mut entries);
                proof {
                    lemma_permuted_entries(entries@, cells@, table_size);
                }
                compute_start_offsets(&entries, table_size)
            },
            SortStrategy::Network => {
                let offsets = sort_spatial_hash_grid(&mut entries, table_size);
                proof {
                    lemma_permuted_entries(entries@, cells@, table_size);
                }
                offsets
            },
        };
        Ok(NeighborIndex { entries, start_offsets, table_size })
    }
}

/// Every entry of a permutation of a buffer's entries is the entry of one of its particles.
pub proof fn lemma_permuted_entries(s: Seq<Entry>, cells: Seq<Point<i32>>, table_size: u32)
    requires
        table_size > 0,
        cells.len() < u32::MAX,
        permutation_of(s, entries_of(cells, table_size)),
    ensures
        s.len() == cells.len(),
        forall|p: int|
            0 <= p < s.len() ==> {
                &&& (#[trigger] s[p]).original_index < cells.len()
                &&& s[p] == entries_of(cells, table_size)[s[p].original_index as int]
                &&& s[p].key == s[p].hash % table_size
                &&& s[p].key < table_size
            },
{
    let t = entries_of(cells, table_size);
    assert(s.to_multiset().len() == t.to_multiset().len());
    assert forall|p: int| 0 <= p < s.len() implies {
        &&& (#[trigger] s[p]).original_index < cells.len()
        &&& s[p] == t[s[p].original_index as int]
        &&& s[p].key == s[p].hash % table_size
        &&& s[p].key < table_size
    } by {
        assert(s.contains(s[p]));
        assert(s.to_multiset().count(s[p]) > 0);
        assert(t.to_multiset().count(s[p]) > 0);
        assert(t.contains(s[p]));
        let j = choose|j: int| 0 <= j < t.len() && t[j] == s[p];
        assert(t[j].original_index == j);
    }
}

} // verus!

verus! {

/// Particles in the same cell get the same hash, and in a built index their
/// entries lie in one contiguous run of equal keys.
pub proof fn lemma_same_cell_same_run(
    ix: &NeighborIndex,
    cells: Seq<Point<i32>>,
    i: int,
    j: int,
    pi: int,
    pj: int,
)
    requires
        ix.indexes(cells),
        cells.len() < u32::MAX,
        0 <= i < cells.len(),
        0 <= j < cells.len(),
        cells[i] == cells[j],
        0 <= pi < ix.entries.len(),
        0 <= pj < ix.entries.len(),
        ix.entries@[pi].original_index == i,
        ix.entries@[pj].original_index == j,
    ensures
        crate::grid::cell_hash(cells[i]) == crate::grid::cell_hash(cells[j]),
        ix.entries@[pi].key == ix.entries@[pj].key,
        forall|m: int|
            (pi <= m <= pj || pj <= m <= pi) ==> #[trigger] ix.entries@[m].key
                == ix.entries@[pi].key,
{
    let s = ix.entries@;
    lemma_permuted_entries(s, cells, ix.table_size);
    assert(s[pi] == entries_of(cells, ix.table_size)[i]);
    assert(s[pj] == entries_of(cells, ix.table_size)[j]);
    assert forall|m: int| (pi <= m <= pj || pj <= m <= pi) implies #[trigger] s[m].key
        == s[pi].key by {
        if pi <= m <= pj {
            assert(s[pi].key <= s[m].key <= s[pj].key);
        } else {
            assert(s[pj].key <= s[m].key <= s[pi].key);
        }
    }
}

/// Every particle of a built index has an entry in it.
pub proof fn lemma_particle_has_entry(ix: &NeighborIndex, cells: Seq<Point<i32>>, i: int) -> (p: int)
    requires
        ix.indexes(cells),
        cells.len() < u32::MAX,
        0 <= i < cells.len(),
    ensures
        0 <= p < ix.entries.len(),
        ix.entries@[p].original_index == i,
{
    let t = entries_of(cells, ix.table_size);
    let s = ix.entries@;
    assert(t.contains(t[i]));
    assert(t.to_multiset().count(t[i]) > 0);
    assert(s.to_multiset().count(t[i]) > 0);
    assert(s.contains(t[i]));
    choose|p: int| 0 <= p < s.len() && s[p] == t[i]
}

/// A scan that starts at the offset of key `k` and stops at the first other key
/// meets exactly the entries of the particles whose cell hash folds to `k`.
pub proof fn lemma_offset_scan(ix: &NeighborIndex, cells: Seq<Point<i32>>, k: u32)
    requires
        ix.indexes(cells),
        cells.len() < u32::MAX,
        k < ix.table_size,
    ensures
        forall|q: int|
            0 <= q < ix.entries.len() ==> (#[trigger] ix.entries@[q].key == k <==> scanned(
                ix.entries@,
                ix.start_offsets@[k as int] as int,
                k,
                q,
            )),
        forall|i: int|
            0 <= i < cells.len() ==> ((crate::grid::cell_hash(#[trigger] cells[i]) % ix.table_size
                == k) <==> exists|q: int|
                0 <= q < ix.entries.len() && scanned(
                    ix.entries@,
                    ix.start_offsets@[k as int] as int,
                    k,
                    q,
                ) && ix.entries@[q].original_index == i),
{
    let s = ix.entries@;
    let start = ix.start_offsets@[k as int] as int;
    assert(is_start_offset(s, (k as int) as u32, ix.start_offsets@[k as int]));
    lemma_permuted_entries(s, cells, ix.table_size);
    assert forall|q: int| 0 <= q < s.len() implies (#[trigger] s[q].key == k <==> scanned(
        s,
        start,
        k,
        q,
    )) by {
        if s[q].key == k {
            assert(has_key(s, k));
            assert forall|m: int| start <= m <= q implies #[trigger] s[m].key == k by {
                assert(s[start].key <= s[m].key <= s[q].key);
            }
        }
    }
    assert forall|i: int| 0 <= i < cells.len() implies ((crate::grid::cell_hash(
        #[trigger] cells[i],
    ) % ix.table_size == k) <==> exists|q: int|
        0 <= q < s.len() && scanned(s, start, k, q) && s[q].original_index == i) by {
        let p = lemma_particle_has_entry(ix, cells, i);
        assert(s[p] == entries_of(cells, ix.table_size)[i]);
        if crate::grid::cell_hash(cells[i]) % ix.table_size == k {
            assert(s[p].key == k);
            assert(scanned(s, start, k, p));
        }
        if exists|q: int| 0 <= q < s.len() && scanned(s, start, k, q) && s[q].original_index == i {
            let q = choose|q: int| 0 <= q < s.len() && scanned(s, start, k, q) && s[q].original_index == i;
            assert(s[q].key == k);
            assert(s[q] == entries_of(cells, ix.table_size)[i]);
        }
    }
}

/// Position `q` is reached by a scan from `start` that has met only key `k`.
pub open spec fn scanned(s: Seq<Entry>, start: int, k: u32, q: int) -> bool {
    &&& start <= q
    &&& forall|m: int| start <= m <= q ==> #[trigger] s[m].key == k
}

} // verus!

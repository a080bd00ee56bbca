//! Neighbour queries over the 3x3 block of cells around a particle.
use vstd::prelude::*;
use crate::entry::{Entry, sorted_by_key};
use crate::grid::{
    NEIGHBORHOOD_SIZE, Point, add_offset, cell_hash, hash_cell, key_of, neighbor_cell,
    neighbor_offset_at,
};
use crate::index::{NO_ENTRIES, NeighborIndex, has_key, is_start_offset};

verus! {

/// Whether a particle counts among its own neighbour candidates.
#[derive(Clone, Copy, Debug, PartialEq, Eq)]
pub enum SelfPairs {
    /// The particle is listed among its own candidates.
    Include,
    /// The particle is left out of its own candidates.
    Exclude,
}

/// The position left out of the candidates of particle `me` under `policy`.
pub open spec fn skipped(me: u32, policy: SelfPairs) -> Option<u32> {
    match policy {
        SelfPairs::Include => None,
        SelfPairs::Exclude => Some(me),
    }
}

/// An entry is a candidate of the cell with hash `h`: same full hash, not skipped.
pub open spec fn accepts(e: Entry, h: u32, skip: Option<u32>) -> bool {
    e.hash == h && skip != Some(e.original_index)
}

/// The particles of the entries of `s` that belong to the cell with hash `h`, in
/// the order of `s`, without the skipped one.
pub open spec fn cell_members(s: Seq<Entry>, h: u32, skip: Option<u32>) -> Seq<u32>
    decreases s.len(),
{
    if s.len() == 0 {
        Seq::empty()
    } else {
        let rest = cell_members(s.drop_last(), h, skip);
        if accepts(s.last(), h, skip) {
            rest.push(s.last().original_index)
        } else {
            rest
        }
    }
}

/// The candidates from the first `n` cells of the block around `cell`, cell by cell.
pub open spec fn block_members(s: Seq<Entry>, cell: Point<i32>, skip: Option<u32>, n: nat) -> Seq<u32>
    decreases n,
{
    if n == 0 {
        Seq::empty()
    } else {
        block_members(s, cell, skip, (n - 1) as nat) + cell_members(
            s,
            cell_hash(neighbor_cell(cell, n - 1)),
            skip,
        )
    }
}

/// The candidates of a particle in `cell`: those of all nine cells of its block.
pub open spec fn neighborhood(s: Seq<Entry>, cell: Point<i32>, skip: Option<u32>) -> Seq<u32> {
    block_members(s, cell, skip, NEIGHBORHOOD_SIZE as nat)
}

/// Members distribute over concatenation.
pub proof fn lemma_members_concat(a: Seq<Entry>, b: Seq<Entry>, h: u32, skip: Option<u32>)
    ensures
        cell_members(a + b, h, skip) == cell_members(a, h, skip) + cell_members(b, h, skip),
    decreases b.len(),
{
    if b.len() == 0 {
        assert(a + b =~= a);
        assert(cell_members(b, h, skip) =~= Seq::<u32>::empty());
        assert(cell_members(a, h, skip) + cell_members(b, h, skip) =~= cell_members(a, h, skip));
    } else {
        assert((a + b).drop_last() =~= a + b.drop_last());
        lemma_members_concat(a, b.drop_last(), h, skip);
        let l = cell_members(a, h, skip);
        let m = cell_members(b.drop_last(), h, skip);
        assert((l + m).push(b.last().original_index) =~= l + m.push(b.last().original_index));
    }
}

/// No entry of `s` carries hash `h`: the cell has no members.
pub proof fn lemma_members_none(s: Seq<Entry>, h: u32, skip: Option<u32>)
    requires
        forall|q: int| 0 <= q < s.len() ==> (#[trigger] s[q]).hash != h,
    ensures
        cell_members(s, h, skip) == Seq::<u32>::empty(),
    decreases s.len(),
{
    if s.len() > 0 {
        lemma_members_none(s.drop_last(), h, skip);
    }
}

/// A particle is a member of the cell with hash `h` exactly when an accepted
/// entry of `s` names it.
pub proof fn lemma_members_contains(s: Seq<Entry>, h: u32, skip: Option<u32>, x: u32)
    ensures
        cell_members(s, h, skip).contains(x) <==> exists|q: int|
            0 <= q < s.len() && accepts(#[trigger] s[q], h, skip) && s[q].original_index == x,
    decreases s.len(),
{
    if s.len() > 0 {
        let init = s.drop_last();
        lemma_members_contains(init, h, skip, x);
        let rest = cell_members(init, h, skip);
        if accepts(s.last(), h, skip) {
            assert(rest.push(s.last().original_index).contains(x) <==> (rest.contains(x)
                || s.last().original_index == x)) by {
                if rest.push(s.last().original_index).contains(x) {
                    let w = choose|w: int|
                        0 <= w < rest.len() + 1 && rest.push(s.last().original_index)[w] == x;
                    if w < rest.len() {
                        assert(rest[w] == x);
                    }
                }
                if rest.contains(x) {
                    let w = choose|w: int| 0 <= w < rest.len() && rest[w] == x;
                    assert(rest.push(s.last().original_index)[w] == x);
                }
                if s.last().original_index == x {
                    assert(rest.push(s.last().original_index)[rest.len() as int] == x);
                }
            }
        }
        if exists|q: int| 0 <= q < s.len() && accepts(#[trigger] s[q], h, skip) && s[q].original_index == x {
            let q = choose|q: int| 0 <= q < s.len() && accepts(#[trigger] s[q], h, skip) && s[q].original_index == x;
            if q < s.len() - 1 {
                assert(init[q] == s[q]);
            }
        }
        if exists|q: int| 0 <= q < init.len() && accepts(#[trigger] init[q], h, skip) && init[q].original_index == x {
            let q = choose|q: int| 0 <= q < init.len() && accepts(#[trigger] init[q], h, skip) && init[q].original_index == x;
            assert(s[q] == init[q]);
        }
    }
}

/// In a built index, particle `i` is a member of cell `c` exactly when its own
/// cell has the same full hash and it is not skipped. A particle of another cell
/// whose hash folds into the same key is never a member.
pub proof fn lemma_cell_members_exact(
    ix: &NeighborIndex,
    cells: Seq<Point<i32>>,
    c: Point<i32>,
    skip: Option<u32>,
    i: int,
)
    requires
        ix.indexes(cells),
        cells.len() < u32::MAX,
        0 <= i < cells.len(),
    ensures
        cell_members(ix.entries@, cell_hash(c), skip).contains(i as u32) <==> (cell_hash(cells[i])
            == cell_hash(c) && skip != Some(i as u32)),
{
    let s = ix.entries@;
    let t = crate::entry::entries_of(cells, ix.table_size);
    crate::index::lemma_permuted_entries(s, cells, ix.table_size);
    lemma_members_contains(s, cell_hash(c), skip, i as u32);
    let p = crate::index::lemma_particle_has_entry(ix, cells, i);
    assert(s[p] == t[i]);
    if cell_members(s, cell_hash(c), skip).contains(i as u32) {
        let q = choose|q: int|
            0 <= q < s.len() && accepts(#[trigger] s[q], cell_hash(c), skip) && s[q].original_index
                == i as u32;
        assert(s[q] == t[s[q].original_index as int]);
    }
}

impl NeighborIndex {
    /// Appends to `out` the candidates from one cell.
    ///
    /// The scan starts at the key's offset and stops at the first other key;
    /// entries of another cell whose hash folds into the same key are rejected by
    /// comparing the full hash.
    pub fn collect_cell(&self, cell: Point<i32>, skip: Option<u32>, out: &mut Vec<u32>)
        requires
            self.wf(),
        ensures
            final(out)@ == old(out)@ + cell_members(self.entries@, cell_hash(cell), skip),
    {
        let ghost s = self.entries@;
        let ghost start_out = out@;
        let h = hash_cell(cell);
        let key = key_of(h, self.table_size);
        let start = self.start_offsets[key as usize];
        assert(is_start_offset(s, (key as int) as u32, self.start_offsets@[key as int]));
        if start == NO_ENTRIES {
            proof {
                assert forall|q: int| 0 <= q < s.len() implies (#[trigger] s[q]).hash != h by {
                    if s[q].hash == h {
                        assert(s[q].key == key);
                    }
                }
                lemma_members_none(s, h, skip);
                assert(out@ =~= start_out + Seq::<u32>::empty());
            }
            return;
        }
        let n = self.entries.len();
        let mut p: usize = start as usize;
        while p < n && self.entries[p].key == key
            invariant
                self.wf(),
                s == self.entries@,
                n == s.len(),
                start < n,
                s[start as int].key == key,
                start <= p <= n,
                forall|q: int| start <= q < p ==> (#[trigger] s[q]).key == key,
                out@ == start_out + cell_members(s.subrange(start as int, p as int), h, skip),
            decreases n - p,
        {
            let e = self.entries[p];
            assert(s.subrange(start as int, p as int + 1).drop_last() =~= s.subrange(
                start as int,
                p as int,
            ));
            if e.hash == h && !(skip == Some(e.original_index)) {
                out.push(e.original_index);
            }
            p += 1;
        }
        proof {
            let before = s.subrange(0, start as int);
            let run = s.subrange(start as int, p as int);
            let after = s.subrange(p as int, n as int);
            assert(s =~= before + run + after);
            assert forall|q: int| 0 <= q < before.len() implies (#[trigger] before[q]).hash != h by {
                assert(s[q].key != key);
            }
            assert forall|q: int| 0 <= q < after.len() implies (#[trigger] after[q]).hash != h by {
                assert(s[p as int].key != key);
                assert(s[start as int].key <= s[p as int].key);
                assert(s[p as int].key <= s[p + q].key);
            }
            lemma_members_none(before, h, skip);
            lemma_members_none(after, h, skip);
            lemma_members_concat(before + run, after, h, skip);
            lemma_members_concat(before, run, h, skip);
            assert(cell_members(s, h, skip) =~= cell_members(run, h, skip));
        }
    }

    /// The neighbour candidates of a particle at position `me` in cell `cell`:
    /// the particles of the nine cells around it, cell by cell in the order of
    /// `neighbor_offset`, each cell's in index order. The distance test is left
    /// to the caller.
    pub fn neighbor_candidates(&self, cell: Point<i32>, me: u32, policy: SelfPairs) -> (r: Vec<u32>)
        requires
            self.wf(),
        ensures
            r@ == neighborhood(self.entries@, cell, skipped(me, policy)),
    {
        let skip = match policy {
            SelfPairs::Include => None,
            SelfPairs::Exclude => Some(me),
        };
        let mut out: Vec<u32> = Vec::new();
        let mut i: usize = 0;
        while i < NEIGHBORHOOD_SIZE
            invariant
                self.wf(),
                skip == skipped(me, policy),
                i <= NEIGHBORHOOD_SIZE,
                out@ == block_members(self.entries@, cell, skip, i as nat),
            decreases NEIGHBORHOOD_SIZE - i,
        {
            let c = add_offset(cell, neighbor_offset_at(i));
            self.collect_cell(c, skip, &mut out);
            i += 1;
        }
        out
    }
}

} // verus!

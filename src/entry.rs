//! Index entries and the comparison sort that orders them by key.
use vstd::prelude::*;
use vstd::seq_lib::lemma_multiset_commutative;
use crate::grid::{Point, cell_hash, hash_cell, key_of};

verus! {

broadcast use vstd::seq_lib::group_seq_properties, vstd::seq_lib::group_to_multiset_ensures;

/// One particle's place in the neighbour index.
#[derive(Clone, Copy, Debug, PartialEq, Eq)]
pub struct Entry {
    /// Position of the particle in the particle buffer.
    pub original_index: u32,
    /// Full hash of the particle's cell.
    pub hash: u32,
    /// The hash folded into the key space.
    pub key: u32,
}

impl Entry {
    pub fn new(original_index: u32, hash: u32, key: u32) -> (r: Entry)
        ensures
            r == (Entry { original_index, hash, key }),
    {
        Entry { original_index, hash, key }
    }
}

/// The entry of the particle at position `i`, which occupies `cell`.
pub open spec fn entry_for(i: int, cell: Point<i32>, table_size: u32) -> Entry {
    Entry {
        original_index: i as u32,
        hash: cell_hash(cell),
        key: (cell_hash(cell) % table_size) as u32,
    }
}

/// The entries of a particle buffer whose cells are `cells`, in buffer order.
pub open spec fn entries_of(cells: Seq<Point<i32>>, table_size: u32) -> Seq<Entry> {
    Seq::new(cells.len(), |i: int| entry_for(i, cells[i], table_size))
}

/// Keys never decrease along `s`.
pub open spec fn sorted_by_key(s: Seq<Entry>) -> bool {
    forall|i: int, j: int| 0 <= i <= j < s.len() ==> s[i].key <= s[j].key
}

/// `a` holds the same entries as `b`, each as often.
pub open spec fn permutation_of(a: Seq<Entry>, b: Seq<Entry>) -> bool {
    a.to_multiset() == b.to_multiset()
}

/// Computes the entry of every particle from the cell it occupies.
pub fn build_entries(cells: &Vec<Point<i32>>, table_size: u32) -> (r: Vec<Entry>)
    requires
        table_size > 0,
        cells.len() <= u32::MAX as nat + 1,
    ensures
        r@ == entries_of(cells@, table_size),
{
    let mut out: Vec<Entry> = Vec::with_capacity(cells.len());
    let mut i: usize = 0;
    while i < cells.len()
        invariant
            table_size > 0,
            cells.len() <= u32::MAX as nat + 1,
            i <= cells.len(),
            out@ == entries_of(cells@, table_size).take(i as int),
        decreases cells.len() - i,
    {
        let hash = hash_cell(cells[i]);
        let key = key_of(hash, table_size);
        out.push(Entry { original_index: i as u32, hash, key });
        i += 1;
        assert(out@ =~= entries_of(cells@, table_size).take(i as int));
    }
    assert(out@ =~= entries_of(cells@, table_size));
    out
}

/// Merges two key-sorted sequences; on equal keys entries of `a` come first.
fn merge(a: &Vec<Entry>, b: &Vec<Entry>) -> (r: Vec<Entry>)
    requires
        sorted_by_key(a@),
        sorted_by_key(b@),
    ensures
        sorted_by_key(r@),
        r@.to_multiset() == a@.to_multiset().add(b@.to_multiset()),
{
    let mut out: Vec<Entry> = Vec::new();
    let mut i: usize = 0;
    let mut j: usize = 0;
    while i < a.len() || j < b.len()
        invariant
            sorted_by_key(a@),
            sorted_by_key(b@),
            i <= a.len(),
            j <= b.len(),
            out.len() == i + j,
            sorted_by_key(out@),
            out@.to_multiset() == a@.take(i as int).to_multiset().add(
                b@.take(j as int).to_multiset(),
            ),
            out.len() > 0 && i < a.len() ==> out@.last().key <= a@[i as int].key,
            out.len() > 0 && j < b.len() ==> out@.last().key <= b@[j as int].key,
        decreases a.len() + b.len() - i - j,
    {
        let take_a = j >= b.len() || (i < a.len() && a[i].key <= b[j].key);
        if take_a {
            let e = a[i];
            out.push(e);
            assert(a@.take(i as int + 1) =~= a@.take(i as int).push(e));
            i += 1;
        } else {
            let e = b[j];
            out.push(e);
            assert(b@.take(j as int + 1) =~= b@.take(j as int).push(e));
            j += 1;
        }
    }
    assert(a@.take(a.len() as int) =~= a@);
    assert(b@.take(b.len() as int) =~= b@);
    out
}

/// Sorts `v[lo..hi]` into a new vector.
fn sorted_range(v: &Vec<Entry>, lo: usize, hi: usize) -> (r: Vec<Entry>)
    requires
        lo <= hi <= v.len(),
    ensures
        sorted_by_key(r@),
        r@.to_multiset() == v@.subrange(lo as int, hi as int).to_multiset(),
    decreases hi - lo,
{
    if hi - lo <= 1 {
        let mut out: Vec<Entry> = Vec::new();
        if hi > lo {
            out.push(v[lo]);
        }
        assert(out@ =~= v@.subrange(lo as int, hi as int));
        out
    } else {
        let mid = lo + (hi - lo) / 2;
        let left = sorted_range(v, lo, mid);
        let right = sorted_range(v, mid, hi);
        let out = merge(&left, &right);
        proof {
            let s = v@.subrange(lo as int, hi as int);
            assert(s =~= v@.subrange(lo as int, mid as int) + v@.subrange(mid as int, hi as int));
            lemma_multiset_commutative(
                v@.subrange(lo as int, mid as int),
                v@.subrange(mid as int, hi as int),
            );
        }
        out
    }
}

/// Sorts entries by key ascending (a stable merge sort).
pub fn sort_by_key(entries: &mut Vec<Entry>)
    ensures
        sorted_by_key(final(entries)@),
        permutation_of(final(entries)@, old(entries)@),
{
    let n = entries.len();
    let sorted = sorted_range(entries, 0, n);
    proof {
        assert(old(entries)@.subrange(0, n as int) =~= old(entries)@);
    }
    *entries = sorted;
}

/// Two key-sorted sequences that hold the same entries have the same key at
/// every position; they differ at most in the order of entries with equal keys.
pub proof fn lemma_sorted_same_keys(x: Seq<Entry>, y: Seq<Entry>)
    requires
        sorted_by_key(x),
        sorted_by_key(y),
        permutation_of(x, y),
    ensures
        x.len() == y.len(),
        forall|i: int| 0 <= i < x.len() ==> #[trigger] x[i].key == y[i].key,
    decreases x.len(),
{
    assert(x.to_multiset().len() == y.to_multiset().len());
    if x.len() > 0 {
        assert(x.contains(x[0]));
        assert(y.to_multiset().count(x[0]) > 0);
        assert(y.contains(x[0]));
        let j = choose|j: int| 0 <= j < y.len() && y[j] == x[0];
        assert(y.contains(y[0]));
        assert(x.to_multiset().count(y[0]) > 0);
        assert(x.contains(y[0]));
        let i0 = choose|i: int| 0 <= i < x.len() && x[i] == y[0];
        assert(x[0].key <= x[i0].key);
        assert(y[0].key <= y[j].key);
        let xr = x.drop_first();
        let yr = y.remove(j);
        assert(xr =~= x.remove(0));
        vstd::seq_lib::to_multiset_remove(x, 0);
        vstd::seq_lib::to_multiset_remove(y, j);
        assert forall|a: int, b: int| 0 <= a <= b < yr.len() implies yr[a].key <= yr[b].key by {
            let ya = if a < j { a } else { a + 1 };
            let yb = if b < j { b } else { b + 1 };
            assert(yr[a] == y[ya]);
            assert(yr[b] == y[yb]);
        }
        lemma_sorted_same_keys(xr, yr);
        assert forall|i: int| 0 <= i < x.len() implies #[trigger] x[i].key == y[i].key by {
            if i > 0 {
                assert(x[i] == xr[i - 1]);
                if i - 1 < j {
                    assert(yr[i - 1] == y[i - 1]);
                    assert(y[0].key <= y[i - 1].key <= y[i].key <= y[j].key);
                } else {
                    assert(yr[i - 1] == y[i]);
                }
            }
        }
    }
}

} // verus!

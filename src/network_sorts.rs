//! Proof that the bitonic network sorts, by way of threshold bits.
//!
//! For a threshold `v`, slot `i` gets the bit "past the entries, or key above
//! `v`". A compare-and-swap on keys is the same compare-and-swap on those bits,
//! and a sequence is sorted by key when every threshold gives sorted bits. On
//! bits, a sub-block is either clean (one value throughout) or bitonic: one value
//! with an interval of the other inside. Each step keeps, in every block of the
//! current stage, at most one bitonic sub-block with only unset bits before it
//! and only set bits after it.
use vstd::prelude::*;
use vstd::arithmetic::div_mod::{lemma_fundamental_div_mod, lemma_fundamental_div_mod_converse};
use crate::entry::{Entry, lemma_sorted_same_keys, permutation_of, sorted_by_key};
use crate::network::{
    SortStep, compare_exchange, is_valid_step, lane_count, lane_pair, lemma_schedule_steps,
    lemma_stage_count_unique, lemma_two_to_32, lemma_two_to_monotone, network_result, run_steps,
    schedule, stage_count_spec, stage_steps, step_result, step_of, two_to, is_stage_count,
};

verus! {

/// Slot `i` of a segment whose bits are `x` except on the interval `[p, q)`.
pub open spec fn shape(x: bool, p: int, q: int, i: int) -> bool {
    if p <= i < q {
        !x
    } else {
        x
    }
}

/// The bits of `[lo, hi)` never go from set back to unset.
pub open spec fn sorted_bits(b: Seq<bool>, lo: int, hi: int) -> bool {
    forall|i: int, j: int| lo <= i <= j < hi ==> #[trigger] b[i] ==> #[trigger] b[j]
}

/// A half-cleaner on a bitonic segment of length `2w` at `lo`: afterwards one
/// half is clean and the other is bitonic. The result says which half is left
/// bitonic (`true`: the upper one, the lower being unset) and its shape.
pub proof fn lemma_half_cleaner(
    b: Seq<bool>,
    c: Seq<bool>,
    lo: int,
    w: int,
    x: bool,
    p: int,
    q: int,
) -> (r: (bool, bool, int, int))
    requires
        w >= 1,
        0 <= lo,
        lo + 2 * w <= b.len(),
        lo + 2 * w <= c.len(),
        0 <= p <= q <= 2 * w,
        forall|i: int| 0 <= i < 2 * w ==> #[trigger] b[lo + i] == shape(x, p, q, i),
        forall|i: int|
            0 <= i < w ==> #[trigger] c[lo + i] == (b[lo + i] && b[lo + i + w]),
        forall|i: int|
            0 <= i < w ==> #[trigger] c[lo + i + w] == (b[lo + i] || b[lo + i + w]),
    ensures
        0 <= r.2 <= r.3 <= w,
        r.0 ==> forall|i: int| 0 <= i < w ==> !#[trigger] c[lo + i],
        r.0 ==> forall|i: int|
            0 <= i < w ==> #[trigger] c[lo + w + i] == shape(r.1, r.2, r.3, i),
        !r.0 ==> forall|i: int| 0 <= i < w ==> #[trigger] c[lo + w + i],
        !r.0 ==> forall|i: int| 0 <= i < w ==> #[trigger] c[lo + i] == shape(r.1, r.2, r.3, i),
{
    assert forall|i: int| 0 <= i < w implies #[trigger] b[lo + i] == shape(x, p, q, i) && b[lo + i
        + w] == shape(x, p, q, i + w) by {
        assert(b[lo + (i + w)] == shape(x, p, q, i + w));
    }
    assert forall|i: int| 0 <= i < w implies #[trigger] c[lo + w + i] == c[lo + i + w] by {
        assert(lo + w + i == lo + i + w);
    }
    let k = q - p;
    let r: (bool, bool, int, int) = if !x {
        if k <= w {
            if q <= w {
                (true, false, p, q)
            } else if p >= w {
                (true, false, p - w, q - w)
            } else {
                (true, true, q - w, p)
            }
        } else {
            (false, false, p, q - w)
        }
    } else {
        if k <= w {
            if q <= w {
                (false, true, p, q)
            } else if p >= w {
                (false, true, p - w, q - w)
            } else {
                (false, false, q - w, p)
            }
        } else {
            (true, true, p, q - w)
        }
    };
    if r.0 {
        assert forall|i: int| 0 <= i < w implies #[trigger] c[lo + w + i] == shape(r.1, r.2, r.3, i) by {
            assert(c[lo + i + w] == (b[lo + i] || b[lo + i + w]));
        }
    } else {
        assert forall|i: int| 0 <= i < w implies #[trigger] c[lo + w + i] by {
            assert(c[lo + i + w] == (b[lo + i] || b[lo + i + w]));
        }
        assert forall|i: int| 0 <= i < w implies #[trigger] c[lo + i] == shape(r.1, r.2, r.3, i) by {
            assert(b[lo + i] == shape(x, p, q, i));
            assert(b[lo + i + w] == shape(x, p, q, i + w));
        }
    }
    r
}

/// The first step of a stage on a block whose two halves of length `h` are
/// sorted: each slot `i` of the lower half is paired with slot `2h - 1 - i`.
/// Afterwards one half is clean and the other bitonic, as for a half-cleaner.
pub proof fn lemma_flip(b: Seq<bool>, c: Seq<bool>, lo: int, h: int, a: int, z: int) -> (r: (
    bool,
    bool,
    int,
    int,
))
    requires
        h >= 1,
        0 <= lo,
        lo + 2 * h <= b.len(),
        lo + 2 * h <= c.len(),
        0 <= a <= h,
        0 <= z <= h,
        forall|i: int| 0 <= i < h ==> #[trigger] b[lo + i] == (i >= a),
        forall|i: int| 0 <= i < h ==> #[trigger] b[lo + h + i] == (i >= z),
        forall|i: int|
            0 <= i < h ==> #[trigger] c[lo + i] == (b[lo + i] && b[lo + 2 * h - 1 - i]),
        forall|i: int|
            0 <= i < h ==> #[trigger] c[lo + 2 * h - 1 - i] == (b[lo + i] || b[lo + 2 * h - 1 - i]),
    ensures
        0 <= r.2 <= r.3 <= h,
        r.0 ==> forall|i: int| 0 <= i < h ==> !#[trigger] c[lo + i],
        r.0 ==> forall|i: int|
            0 <= i < h ==> #[trigger] c[lo + h + i] == shape(r.1, r.2, r.3, i),
        !r.0 ==> forall|i: int| 0 <= i < h ==> #[trigger] c[lo + h + i],
        !r.0 ==> forall|i: int| 0 <= i < h ==> #[trigger] c[lo + i] == shape(r.1, r.2, r.3, i),
{
    assert forall|i: int| 0 <= i < h implies #[trigger] b[lo + 2 * h - 1 - i] == (h - 1 - i >= z) by {
        assert(b[lo + h + (h - 1 - i)] == (h - 1 - i >= z));
        assert(lo + h + (h - 1 - i) == lo + 2 * h - 1 - i);
    }
    assert forall|j: int| 0 <= j < h implies #[trigger] c[lo + h + j] == (b[lo + h - 1 - j] || b[lo
        + 2 * h - 1 - (h - 1 - j)]) by {
        assert(c[lo + 2 * h - 1 - (h - 1 - j)] == (b[lo + (h - 1 - j)] || b[lo + 2 * h - 1 - (h - 1
            - j)]));
        assert(lo + 2 * h - 1 - (h - 1 - j) == lo + h + j);
        assert(lo + (h - 1 - j) == lo + h - 1 - j);
    }
    assert forall|j: int| 0 <= j < h implies #[trigger] b[lo + h - 1 - j] == (h - 1 - j >= a) by {
        assert(b[lo + (h - 1 - j)] == (h - 1 - j >= a));
        assert(lo + (h - 1 - j) == lo + h - 1 - j);
    }
    if a + z >= h {
        (true, true, h - a, z)
    } else {
        (false, false, a, h - z)
    }
}

/// The slot paired with `i` in a step of width `w`: on a first step its mirror
/// within the group of `2w` slots, otherwise the slot `w` away.
pub open spec fn partner(i: int, w: int, first: bool) -> int {
    let off = i % (2 * w);
    if first {
        i - off + (2 * w - 1 - off)
    } else if off < w {
        i + w
    } else {
        i - w
    }
}

/// Bits after one step with all its lanes: the left slot of each pair gets the
/// smaller bit, the right slot the larger.
pub open spec fn bit_step(b: Seq<bool>, w: int, first: bool) -> Seq<bool> {
    Seq::new(
        b.len(),
        |i: int|
            {
                let j = partner(i, w, first);
                if i < j {
                    b[i] && b[j]
                } else {
                    b[i] || b[j]
                }
            },
    )
}

/// In the block `[lo, lo + len)`, cut into sub-blocks of `size`, sub-block `d`
/// has the bitonic shape `(x, p, q)`, all bits before it are unset and all bits
/// after it are set.
pub open spec fn settled(
    b: Seq<bool>,
    lo: int,
    len: int,
    size: int,
    d: int,
    x: bool,
    p: int,
    q: int,
) -> bool {
    &&& 0 <= d
    &&& (d + 1) * size <= len
    &&& 0 <= p <= q <= size
    &&& forall|i: int| lo <= i < lo + d * size ==> !#[trigger] b[i]
    &&& forall|i: int| lo + (d + 1) * size <= i < lo + len ==> #[trigger] b[i]
    &&& forall|i: int| 0 <= i < size ==> #[trigger] b[lo + d * size + i] == shape(x, p, q, i)
}

/// Some sub-block of `size` in the block is bitonic with the rest in order.
pub open spec fn block_settled(b: Seq<bool>, lo: int, len: int, size: int) -> bool {
    exists|d: int, x: bool, p: int, q: int| #[trigger] settled(b, lo, len, size, d, x, p, q)
}

/// A position splits into a sub-block number and an offset.
proof fn lemma_split(pos: int, lo: int, size: int) -> (r: (int, int))
    requires
        size > 0,
        lo <= pos,
    ensures
        r.0 >= 0,
        0 <= r.1 < size,
        pos == lo + r.0 * size + r.1,
{
    lemma_fundamental_div_mod(pos - lo, size);
    let j = (pos - lo) / size;
    let off = (pos - lo) % size;
    assert(j >= 0) by (nonlinear_arith)
        requires pos - lo == size * j + off, 0 <= off < size, pos - lo >= 0;
    assert(pos == lo + j * size + off) by (nonlinear_arith)
        requires pos - lo == size * j + off;
    (j, off)
}

/// Where a slot of sub-block `j` lies relative to sub-block `d`.
proof fn lemma_order(lo: int, size: int, j: int, d: int, off: int)
    requires
        size > 0,
        0 <= off < size,
    ensures
        j < d ==> lo + j * size + size <= lo + d * size,
        j > d ==> lo + j * size >= lo + (d + 1) * size,
{
    if j < d {
        assert(j * size + size <= d * size) by (nonlinear_arith)
            requires j < d, size > 0;
    }
    if j > d {
        assert(j * size >= (d + 1) * size) by (nonlinear_arith)
            requires j > d, size > 0;
    }
}

/// The offset of a slot in its group of `size` when the block starts on a multiple of `size`.
proof fn lemma_offset(pos: int, g: int, size: int, off: int)
    requires
        size > 0,
        0 <= off < size,
        pos == g * size + off,
    ensures
        pos % size == off,
{
    lemma_fundamental_div_mod_converse(pos, size, g, off);
}

/// A slot of a block in groups of `2w` that start on multiples of `2w`: its
/// group, its offset, and the slot it is compared with in a half-cleaner step.
proof fn lemma_half_slot(b: Seq<bool>, lo: int, g: int, w: int, pos: int) -> (r: (int, int))
    requires
        w >= 1,
        0 <= lo,
        lo == g * (2 * w),
        lo <= pos < b.len(),
    ensures
        r.0 >= 0,
        0 <= r.1 < 2 * w,
        pos == lo + r.0 * (2 * w) + r.1,
        r.1 < w ==> pos + w < b.len() ==> bit_step(b, w, false)[pos] == (b[pos] && b[pos + w]),
        r.1 >= w ==> bit_step(b, w, false)[pos] == (b[pos] || b[pos - w]),
{
    let size = 2 * w;
    let (j, off) = lemma_split(pos, lo, size);
    assert(pos == (g + j) * size + off) by (nonlinear_arith)
        requires pos == lo + j * size + off, lo == g * size;
    lemma_offset(pos, g + j, size, off);
    assert(pos - off >= lo) by (nonlinear_arith)
        requires pos == lo + j * size + off, j >= 0, size > 0;
    if off < w {
        assert(partner(pos, w, false) == pos + w);
    } else {
        assert(partner(pos, w, false) == pos - w);
    }
    (j, off)
}

/// A half-cleaner step keeps a block settled, with sub-blocks of half the size.
pub proof fn lemma_settled_half(
    b: Seq<bool>,
    lo: int,
    len: int,
    w: int,
    d: int,
    x: bool,
    p: int,
    q: int,
) -> (r: (int, bool, int, int))
    requires
        w >= 1,
        0 <= lo,
        lo + len <= b.len(),
        lo % (2 * w) == 0,
        len % (2 * w) == 0,
        settled(b, lo, len, 2 * w, d, x, p, q),
    ensures
        settled(bit_step(b, w, false), lo, len, w, r.0, r.1, r.2, r.3),
{
    let c = bit_step(b, w, false);
    let size = 2 * w;
    lemma_fundamental_div_mod(lo, size);
    let g = lo / size;
    assert(lo == g * size) by (nonlinear_arith)
        requires lo == size * g + 0;
    let base = lo + d * size;
    assert(d * size + size == (d + 1) * size) by (nonlinear_arith);
    assert(d * size == 2 * d * w && (d + 1) * size == (2 * d + 2) * w && (2 * d + 1) * w == d
        * size + w) by (nonlinear_arith)
        requires size == 2 * w;
    assert forall|i: int| 0 <= i < w implies #[trigger] c[base + i] == (b[base + i] && b[base + i
        + w]) by {
        let (j, off) = lemma_half_slot(b, lo, g, w, base + i);
        lemma_order(lo, size, j, d, off);
    }
    assert forall|i: int| 0 <= i < w implies #[trigger] c[base + i + w] == (b[base + i] || b[base
        + i + w]) by {
        let (j, off) = lemma_half_slot(b, lo, g, w, base + i + w);
        lemma_order(lo, size, j, d, off);
        assert(base + i + w - w == base + i);
    }
    let (upper, x1, p1, q1) = lemma_half_cleaner(b, c, base, w, x, p, q);
    let d1 = if upper {
        2 * d + 1
    } else {
        2 * d
    };
    assert(d1 * w == (if upper { d * size + w } else { d * size }) && (d1 + 1) * w == (if upper {
        (d + 1) * size
    } else {
        d * size + w
    })) by (nonlinear_arith)
        requires
            size == 2 * w,
            d1 == (if upper { 2 * d + 1 } else { 2 * d }),
    ;
    assert(d * size + size <= len);
    assert forall|pos: int| lo <= pos < lo + d1 * w implies !#[trigger] c[pos] by {
        let (j, off) = lemma_half_slot(b, lo, g, w, pos);
        lemma_order(lo, size, j, d, off);
        if j == d {
            assert(c[base + off] == c[pos]);
        } else if off < w {
            assert(!b[pos + w]);
        }
    }
    assert forall|pos: int| lo + (d1 + 1) * w <= pos < lo + len implies #[trigger] c[pos] by {
        let (j, off) = lemma_half_slot(b, lo, g, w, pos);
        lemma_order(lo, size, j, d, off);
        if j == d {
            assert(c[base + w + (off - w)] == c[pos]);
        } else if off >= w {
            assert(b[pos - w]);
        } else {
            lemma_fundamental_div_mod(len, size);
            let k = len / size;
            assert(j * size + size <= len) by (nonlinear_arith)
                requires
                    len == size * k + 0,
                    j * size + off < len,
                    0 <= off,
                    size > 0,
            ;
            assert(b[pos + w]);
        }
    }
    assert forall|i: int| 0 <= i < w implies #[trigger] c[lo + d1 * w + i] == shape(x1, p1, q1, i) by {
        if upper {
            assert(lo + d1 * w + i == base + w + i);
        } else {
            assert(lo + d1 * w + i == base + i);
        }
    }
    (d1, x1, p1, q1)
}

/// Sorted bits are a run of unset bits followed by a run of set bits.
pub proof fn lemma_sorted_prefix(b: Seq<bool>, lo: int, n: int) -> (a: int)
    requires
        0 <= lo,
        0 <= n,
        lo + n <= b.len(),
        sorted_bits(b, lo, lo + n),
    ensures
        0 <= a <= n,
        forall|i: int| 0 <= i < n ==> #[trigger] b[lo + i] == (i >= a),
    decreases n,
{
    if n == 0 {
        0
    } else {
        let a0 = lemma_sorted_prefix(b, lo, n - 1);
        if a0 < n - 1 {
            assert(b[lo + a0]);
            assert(b[lo + (n - 1)]);
            a0
        } else if b[lo + (n - 1)] {
            n - 1
        } else {
            n
        }
    }
}

/// The first step of a stage settles a block whose halves are sorted, in
/// sub-blocks of half its length.
pub proof fn lemma_settled_flip(b: Seq<bool>, lo: int, h: int) -> (r: (int, bool, int, int))
    requires
        h >= 1,
        0 <= lo,
        lo + 2 * h <= b.len(),
        lo % (2 * h) == 0,
        sorted_bits(b, lo, lo + h),
        sorted_bits(b, lo + h, lo + 2 * h),
    ensures
        settled(bit_step(b, h, true), lo, 2 * h, h, r.0, r.1, r.2, r.3),
{
    let c = bit_step(b, h, true);
    let size = 2 * h;
    lemma_fundamental_div_mod(lo, size);
    let g = lo / size;
    assert(lo == g * size) by (nonlinear_arith)
        requires lo == size * g + 0;
    let a = lemma_sorted_prefix(b, lo, h);
    let z = lemma_sorted_prefix(b, lo + h, h);
    assert forall|i: int| 0 <= i < h implies #[trigger] c[lo + i] == (b[lo + i] && b[lo + 2 * h - 1
        - i]) by {
        lemma_offset(lo + i, g, size, i);
        assert(partner(lo + i, h, true) == lo + 2 * h - 1 - i);
    }
    assert forall|i: int| 0 <= i < h implies #[trigger] c[lo + 2 * h - 1 - i] == (b[lo + i] || b[lo
        + 2 * h - 1 - i]) by {
        lemma_offset(lo + 2 * h - 1 - i, g, size, 2 * h - 1 - i);
        assert(partner(lo + 2 * h - 1 - i, h, true) == lo + i);
    }
    let (upper, x1, p1, q1) = lemma_flip(b, c, lo, h, a, z);
    let d1: int = if upper {
        1
    } else {
        0
    };
    assert(d1 * h == (if upper { h } else { 0 }) && (d1 + 1) * h == (if upper { 2 * h } else { h }))
        by (nonlinear_arith)
        requires d1 == (if upper { 1int } else { 0int });
    assert forall|pos: int| lo <= pos < lo + d1 * h implies !#[trigger] c[pos] by {
        assert(c[lo + (pos - lo)] == c[pos]);
    }
    assert forall|pos: int| lo + (d1 + 1) * h <= pos < lo + 2 * h implies #[trigger] c[pos] by {
        assert(c[lo + h + (pos - lo - h)] == c[pos]);
    }
    assert forall|i: int| 0 <= i < h implies #[trigger] c[lo + d1 * h + i] == shape(x1, p1, q1, i) by {
        if upper {
            assert(lo + d1 * h + i == lo + h + i);
        } else {
            assert(lo + d1 * h + i == lo + i);
        }
    }
    (d1, x1, p1, q1)
}

/// A block settled in sub-blocks of one slot is sorted.
pub proof fn lemma_settled_unit(b: Seq<bool>, lo: int, len: int, d: int, x: bool, p: int, q: int)
    requires
        settled(b, lo, len, 1, d, x, p, q),
    ensures
        sorted_bits(b, lo, lo + len),
{
    assert forall|i: int, j: int| lo <= i <= j < lo + len implies (#[trigger] b[i] ==> #[trigger] b[j]) by {
        if b[i] && i != j {
            assert(lo + d * 1 <= i);
            assert(lo + (d + 1) * 1 <= j);
        }
    }
}

/// `2^a` divides `2^b` for `a <= b`.
pub proof fn lemma_two_to_divides(a: nat, b: nat)
    requires
        a <= b,
    ensures
        two_to(b) == two_to(a) * two_to((b - a) as nat),
    decreases b,
{
    if a < b {
        lemma_two_to_divides(a, (b - 1) as nat);
        assert(two_to((b - a) as nat) == 2 * two_to((b - 1 - a) as nat));
        assert(two_to(a) * (2 * two_to((b - 1 - a) as nat)) == 2 * (two_to(a) * two_to(
            (b - 1 - a) as nat,
        ))) by (nonlinear_arith);
    } else {
        assert(two_to(0) == 1);
        assert(two_to(a) * 1 == two_to(a));
    }
}

/// `k * (m * n)` is a multiple of `n`.
proof fn lemma_multiple(k: int, m: int, n: int)
    requires
        n > 0,
    ensures
        (k * (m * n)) % n == 0,
{
    assert(k * (m * n) == (k * m) * n) by (nonlinear_arith);
    lemma_offset(k * (m * n), k * m, n, 0);
}

/// Bits after the steps of `steps`, in order.
pub open spec fn bit_run(b: Seq<bool>, steps: Seq<SortStep>) -> Seq<bool>
    decreases steps.len(),
{
    if steps.len() == 0 {
        b
    } else {
        bit_step(
            bit_run(b, steps.drop_last()),
            steps.last().group_width as int,
            steps.last().step_index == 0,
        )
    }
}

/// Running two lists of steps is running their concatenation.
pub proof fn lemma_bit_run_concat(b: Seq<bool>, s1: Seq<SortStep>, s2: Seq<SortStep>)
    ensures
        bit_run(b, s1 + s2) == bit_run(bit_run(b, s1), s2),
    decreases s2.len(),
{
    if s2.len() == 0 {
        assert(s1 + s2 =~= s1);
    } else {
        assert((s1 + s2).drop_last() =~= s1 + s2.drop_last());
        lemma_bit_run_concat(b, s1, s2.drop_last());
    }
}

/// Every aligned segment of `size` bits is sorted.
pub open spec fn segments_sorted(b: Seq<bool>, size: int) -> bool {
    forall|g: int|
        0 <= g && g * size + size <= b.len() ==> #[trigger] sorted_bits(b, g * size, g * size + size)
}

/// Every aligned block of `blen` bits is settled in sub-blocks of `size`.
pub open spec fn blocks_settled(b: Seq<bool>, blen: int, size: int) -> bool {
    forall|g: int|
        0 <= g && g * blen + blen <= b.len() ==> #[trigger] block_settled(b, g * blen, blen, size)
}

/// Bit length of step `t` of stage `s` as an integer.
proof fn lemma_step_width(s: nat, t: nat)
    requires
        t <= s <= 31,
    ensures
        step_of(s, t).group_width as int == two_to((s - t) as nat),
        two_to((s - t) as nat) >= 1,
        step_of(s, t).step_index == t,
{
    lemma_two_to_monotone((s - t) as nat, 31);
    lemma_two_to_monotone(0, (s - t) as nat);
    lemma_two_to_32();
}

/// After steps `0..=t` of stage `s`, every block of the stage is settled in
/// sub-blocks of `2^(s - t)`.
pub proof fn lemma_stage_prefix(b: Seq<bool>, s: nat, t: nat)
    requires
        t <= s <= 31,
        b.len() as int % two_to(s + 1) as int == 0,
        segments_sorted(b, two_to(s) as int),
    ensures
        blocks_settled(
            bit_run(b, stage_steps(s).take(t as int + 1)),
            two_to(s + 1) as int,
            two_to((s - t) as nat) as int,
        ),
    decreases t,
{
    let h = two_to(s) as int;
    let blen = two_to(s + 1) as int;
    let w = two_to((s - t) as nat) as int;
    let steps = stage_steps(s).take(t as int + 1);
    assert(steps.drop_last() =~= stage_steps(s).take(t as int));
    assert(steps.last() == step_of(s, t));
    lemma_step_width(s, t);
    let prev = bit_run(b, stage_steps(s).take(t as int));
    let cur = bit_run(b, steps);
    assert(cur == bit_step(prev, w, t == 0));
    lemma_two_to_monotone(0, s);
    assert(blen == 2 * h);
    if t == 0 {
        assert(stage_steps(s).take(0) =~= Seq::<SortStep>::empty());
        assert(prev == b);
        assert forall|g: int| 0 <= g && g * blen + blen <= cur.len() implies #[trigger] block_settled(
            cur,
            g * blen,
            blen,
            w,
        ) by {
            assert(g * blen == (2 * g) * h && (2 * g) * h + h == (2 * g + 1) * h && g * blen + blen
                == (2 * g + 1) * h + h) by (nonlinear_arith)
                requires blen == 2 * h;
            assert(0 <= g * blen) by (nonlinear_arith)
                requires 0 <= g, blen >= 0;
            assert(sorted_bits(b, (2 * g) * h, (2 * g) * h + h));
            assert(sorted_bits(b, (2 * g + 1) * h, (2 * g + 1) * h + h));
            lemma_offset(g * blen, g, blen, 0);
            let (d, x, p, q) = lemma_settled_flip(b, g * blen, h);
            assert(settled(cur, g * blen, blen, w, d, x, p, q));
        }
    } else {
        lemma_stage_prefix(b, s, (t - 1) as nat);
        let size = two_to((s - (t - 1)) as nat) as int;
        assert(size == 2 * w);
        lemma_two_to_divides((s - t + 1) as nat, s + 1);
        let k = two_to((s + 1 - (s - t + 1)) as nat) as int;
        assert(blen == size * k);
        assert forall|g: int| 0 <= g && g * blen + blen <= cur.len() implies #[trigger] block_settled(
            cur,
            g * blen,
            blen,
            w,
        ) by {
            assert(block_settled(prev, g * blen, blen, size));
            let (d, x, p, q) = choose|d: int, x: bool, p: int, q: int|
                #[trigger] settled(prev, g * blen, blen, size, d, x, p, q);
            assert(0 <= g * blen) by (nonlinear_arith)
                requires 0 <= g, blen >= 0;
            lemma_multiple(g, k, size);
            lemma_multiple(1, k, size);
            assert(1 * (k * size) == blen) by (nonlinear_arith)
                requires blen == size * k;
            assert(g * (k * size) == g * blen) by (nonlinear_arith)
                requires blen == size * k;
            let (d1, x1, p1, q1) = lemma_settled_half(prev, g * blen, blen, w, d, x, p, q);
            assert(settled(cur, g * blen, blen, w, d1, x1, p1, q1));
        }
    }
}

/// A stage turns sorted segments of `2^s` bits into sorted segments of `2^(s+1)`.
pub proof fn lemma_stage(b: Seq<bool>, s: nat)
    requires
        s <= 31,
        b.len() as int % two_to(s + 1) as int == 0,
        segments_sorted(b, two_to(s) as int),
    ensures
        segments_sorted(bit_run(b, stage_steps(s)), two_to(s + 1) as int),
{
    lemma_stage_prefix(b, s, s);
    assert(stage_steps(s).take(s as int + 1) =~= stage_steps(s));
    let c = bit_run(b, stage_steps(s));
    let blen = two_to(s + 1) as int;
    assert(two_to(0) == 1);
    assert forall|g: int| 0 <= g && g * blen + blen <= c.len() implies #[trigger] sorted_bits(
        c,
        g * blen,
        g * blen + blen,
    ) by {
        assert(block_settled(c, g * blen, blen, 1));
        let (d, x, p, q) = choose|d: int, x: bool, p: int, q: int|
            #[trigger] settled(c, g * blen, blen, 1, d, x, p, q);
        lemma_settled_unit(c, g * blen, blen, d, x, p, q);
    }
}

/// Every step keeps the number of bits.
pub proof fn lemma_bit_run_len(b: Seq<bool>, steps: Seq<SortStep>)
    ensures
        bit_run(b, steps).len() == b.len(),
    decreases steps.len(),
{
    if steps.len() > 0 {
        lemma_bit_run_len(b, steps.drop_last());
    }
}

/// The network of `m` stages sorts any `2^m` bits.
pub proof fn lemma_network_sorts_bits(b: Seq<bool>, m: nat)
    requires
        m <= 32,
        b.len() == two_to(m),
    ensures
        sorted_bits(bit_run(b, schedule(m)), 0, b.len() as int),
{
    lemma_stages_sort_bits(b, m, m);
    lemma_bit_run_len(b, schedule(m));
    assert(sorted_bits(bit_run(b, schedule(m)), 0 * (b.len() as int), 0 * (b.len() as int) + b.len()));
}

/// After `k` stages, aligned segments of `2^k` bits are sorted.
pub proof fn lemma_stages_sort_bits(b: Seq<bool>, m: nat, k: nat)
    requires
        k <= m <= 32,
        b.len() == two_to(m),
    ensures
        segments_sorted(bit_run(b, schedule(k)), two_to(k) as int),
    decreases k,
{
    if k == 0 {
        let c = bit_run(b, schedule(0));
        assert(two_to(0) == 1);
        assert forall|g: int| 0 <= g && g * 1 + 1 <= c.len() implies #[trigger] sorted_bits(
            c,
            g * 1,
            g * 1 + 1,
        ) by {
        }
    } else {
        lemma_stages_sort_bits(b, m, (k - 1) as nat);
        let prev = bit_run(b, schedule((k - 1) as nat));
        lemma_bit_run_concat(b, schedule((k - 1) as nat), stage_steps((k - 1) as nat));
        lemma_bit_run_len(b, schedule((k - 1) as nat));
        lemma_two_to_divides(k, m);
        let r = two_to((m - k) as nat) as int;
        lemma_two_to_monotone(0, k);
        assert(b.len() as int == r * two_to(k) as int + 0) by (nonlinear_arith)
            requires b.len() == two_to(k) * two_to((m - k) as nat), r == two_to((m - k) as nat);
        lemma_offset(b.len() as int, r, two_to(k) as int, 0);
        lemma_stage(prev, (k - 1) as nat);
    }
}

/// The threshold bits of `s` for `v`, padded with set bits up to `len`.
pub open spec fn bits(s: Seq<Entry>, v: u32, len: nat) -> Seq<bool> {
    Seq::new(len, |i: int| i >= s.len() || s[i].key > v)
}

/// The lane of a step of width `w` that touches slot `i`.
pub open spec fn lane_of(i: int, w: int, first: bool) -> int {
    let off = i % (2 * w);
    w * (i / (2 * w)) + if off < w {
        off
    } else if first {
        2 * w - 1 - off
    } else {
        off - w
    }
}

/// The two slots of lane `k` are partners, both belong to lane `k`, and they are
/// the only slots that do.
proof fn lemma_lane(step: SortStep, lanes: int, k: int)
    requires
        is_valid_step(step),
        lanes % (step.group_width as int) == 0,
        0 <= k < lanes,
    ensures
        ({
            let (l, r) = lane_pair(k, step);
            let w = step.group_width as int;
            let first = step.step_index == 0;
            &&& 0 <= l < r < 2 * lanes
            &&& partner(l, w, first) == r
            &&& partner(r, w, first) == l
            &&& lane_of(l, w, first) == k
            &&& lane_of(r, w, first) == k
            &&& forall|i: int| 0 <= i < 2 * lanes && #[trigger] lane_of(i, w, first) == k ==> i == l || i == r
        }),
{
    let (l, r) = lane_pair(k, step);
    let w = step.group_width as int;
    let first = step.step_index == 0;
    let size = 2 * w;
    lemma_fundamental_div_mod(k, w);
    let g = k / w;
    let h = k % w;
    lemma_fundamental_div_mod(lanes, w);
    let c = lanes / w;
    assert(g >= 0 && g < c && g * size + size <= 2 * lanes) by (nonlinear_arith)
        requires k == w * g + h, 0 <= h < w, 0 <= k < lanes, lanes == w * c + 0, size == 2 * w;
    assert(l == g * size + h) by (nonlinear_arith)
        requires l == h + (2 * w) * g, size == 2 * w;
    let roff = if first { size - 1 - h } else { w + h };
    assert(r == g * size + roff);
    lemma_fundamental_div_mod_converse(l, size, g, h);
    lemma_fundamental_div_mod_converse(r, size, g, roff);
    assert(lane_of(l, w, first) == w * g + h);
    assert(lane_of(r, w, first) == w * g + h);
    assert forall|i: int| 0 <= i < 2 * lanes && #[trigger] lane_of(i, w, first) == k implies i == l
        || i == r by {
        lemma_fundamental_div_mod(i, size);
        let gi = i / size;
        let off = i % size;
        let hh = if off < w {
            off
        } else if first {
            size - 1 - off
        } else {
            off - w
        };
        assert(k == w * gi + hh);
        lemma_fundamental_div_mod_converse(k, w, gi, hh);
    }
}

/// Every slot below `2 * lanes` belongs to a lane below `lanes`.
proof fn lemma_lane_of_range(i: int, w: int, first: bool, lanes: int)
    requires
        w >= 1,
        lanes % w == 0,
        0 <= i < 2 * lanes,
    ensures
        0 <= lane_of(i, w, first) < lanes,
{
    let size = 2 * w;
    lemma_fundamental_div_mod(i, size);
    lemma_fundamental_div_mod(lanes, w);
    let gi = i / size;
    let off = i % size;
    let c = lanes / w;
    let hh = if off < w {
        off
    } else if first {
        size - 1 - off
    } else {
        off - w
    };
    assert(0 <= gi < c) by (nonlinear_arith)
        requires i == size * gi + off, 0 <= off < size, 0 <= i < 2 * lanes, lanes == w * c + 0, size
            == 2 * w, w >= 1;
    assert(0 <= w * gi + hh < lanes) by (nonlinear_arith)
        requires 0 <= gi < c, 0 <= hh < w, lanes == w * c + 0;
}

/// Bits with the lanes below `k` of a step applied.
pub open spec fn lanes_applied(b: Seq<bool>, w: int, first: bool, k: int) -> Seq<bool> {
    Seq::new(
        b.len(),
        |i: int|
            if lane_of(i, w, first) < k {
                bit_step(b, w, first)[i]
            } else {
                b[i]
            },
    )
}

/// Lanes `0..k` of a step on entries act on their threshold bits as those lanes
/// of the step on bits.
proof fn lemma_step_lanes_bits(s: Seq<Entry>, step: SortStep, lanes: nat, v: u32, k: nat)
    requires
        is_valid_step(step),
        lanes as int % (step.group_width as int) == 0,
        s.len() <= 2 * lanes,
        k <= lanes,
    ensures
        step_result(s, step, k).len() == s.len(),
        bits(step_result(s, step, k), v, 2 * lanes) == lanes_applied(
            bits(s, v, 2 * lanes),
            step.group_width as int,
            step.step_index == 0,
            k as int,
        ),
    decreases k,
{
    let w = step.group_width as int;
    let first = step.step_index == 0;
    let b0 = bits(s, v, 2 * lanes);
    if k == 0 {
        assert forall|i: int| 0 <= i < 2 * lanes implies #[trigger] lanes_applied(b0, w, first, 0)[i]
            == b0[i] by {
            lemma_lane_of_range(i, w, first, lanes as int);
        }
        assert(bits(step_result(s, step, 0), v, 2 * lanes) =~= lanes_applied(b0, w, first, 0));
    } else {
        lemma_step_lanes_bits(s, step, lanes, v, (k - 1) as nat);
        let prev = step_result(s, step, (k - 1) as nat);
        let (l, r) = lane_pair(k - 1, step);
        let cur = step_result(s, step, k);
        assert(cur == compare_exchange(prev, l, r));
        lemma_lane(step, lanes as int, k - 1);
        let bp = bits(prev, v, 2 * lanes);
        let bc = bits(cur, v, 2 * lanes);
        let want = lanes_applied(b0, w, first, k as int);
        assert(bp == lanes_applied(b0, w, first, k - 1));
        assert(bp[l] == b0[l] && bp[r] == b0[r]);
        assert forall|i: int| 0 <= i < 2 * lanes implies #[trigger] bc[i] == want[i] by {
            lemma_lane_of_range(i, w, first, lanes as int);
            if i == l {
                assert(want[i] == (b0[l] && b0[r]));
            } else if i == r {
                assert(want[i] == (b0[r] || b0[l]));
            } else {
                assert(want[i] == bp[i]);
            }
        }
        assert(bc =~= want);
    }
}

/// A whole step on entries is the step on their threshold bits.
proof fn lemma_step_bits(s: Seq<Entry>, step: SortStep, lanes: nat, v: u32)
    requires
        is_valid_step(step),
        lanes as int % (step.group_width as int) == 0,
        s.len() <= 2 * lanes,
    ensures
        step_result(s, step, lanes).len() == s.len(),
        bits(step_result(s, step, lanes), v, 2 * lanes) == bit_step(
            bits(s, v, 2 * lanes),
            step.group_width as int,
            step.step_index == 0,
        ),
{
    let w = step.group_width as int;
    let first = step.step_index == 0;
    lemma_step_lanes_bits(s, step, lanes, v, lanes);
    let b0 = bits(s, v, 2 * lanes);
    assert forall|i: int| 0 <= i < 2 * lanes implies #[trigger] lanes_applied(
        b0,
        w,
        first,
        lanes as int,
    )[i] == bit_step(b0, w, first)[i] by {
        lemma_lane_of_range(i, w, first, lanes as int);
    }
    assert(lanes_applied(b0, w, first, lanes as int) =~= bit_step(b0, w, first));
}

/// Steps on entries are the same steps on their threshold bits.
proof fn lemma_run_bits(s: Seq<Entry>, steps: Seq<SortStep>, lanes: nat, v: u32)
    requires
        forall|i: int|
            0 <= i < steps.len() ==> is_valid_step(#[trigger] steps[i]) && lanes as int % (
            steps[i].group_width as int) == 0,
        s.len() <= 2 * lanes,
    ensures
        run_steps(s, steps, lanes).len() == s.len(),
        bits(run_steps(s, steps, lanes), v, 2 * lanes) == bit_run(bits(s, v, 2 * lanes), steps),
    decreases steps.len(),
{
    if steps.len() > 0 {
        lemma_run_bits(s, steps.drop_last(), lanes, v);
        assert(steps.last() == steps[steps.len() - 1]);
        lemma_step_bits(run_steps(s, steps.drop_last(), lanes), steps.last(), lanes, v);
    }
}

/// The bitonic network sorts by key, for every length.
pub proof fn lemma_network_sorts(s: Seq<Entry>)
    requires
        s.len() <= u32::MAX,
    ensures
        sorted_by_key(network_result(s)),
{
    let n = s.len() as u32;
    let m = stage_count_spec(n);
    let steps = schedule(m);
    let res = network_result(s);
    lemma_two_to_32();
    lemma_least_exponent(n as nat, 32);
    let m0 = choose|k: nat| k <= 32 && #[trigger] is_stage_count(n as nat, k);
    lemma_stage_count_unique(n as nat, m0, m);
    if m == 0 {
        assert(steps.len() == 0);
        assert(res == s);
        assert(s.len() <= 1);
    } else {
        let lanes = two_to((m - 1) as nat);
        assert(lane_count(n) == lanes);
        lemma_schedule_steps(m);
        assert forall|i: int| 0 <= i < steps.len() implies is_valid_step(#[trigger] steps[i]) && lanes
            as int % (steps[i].group_width as int) == 0 by {
            let st = steps[i];
            let e = (st.stage_index - st.step_index) as nat;
            lemma_two_to_divides(e, (m - 1) as nat);
            lemma_two_to_monotone(e, 31);
            lemma_two_to_monotone(0, e);
            lemma_two_to_32();
            let k = two_to((m - 1 - e) as nat) as int;
            assert(lanes == k * two_to(e) as int) by (nonlinear_arith)
                requires lanes == two_to(e) * two_to((m - 1 - e) as nat), k == two_to((m - 1 - e) as nat);
            lemma_offset(lanes as int, k, two_to(e) as int, 0);
        }
        assert forall|i: int, j: int| 0 <= i <= j < res.len() implies res[i].key <= res[j].key by {
            let v = res[j].key;
            lemma_run_bits(s, steps, lanes, v);
            lemma_network_sorts_bits(bits(s, v, 2 * lanes), m);
            let b = bits(res, v, 2 * lanes);
            assert(b == bit_run(bits(s, v, 2 * lanes), steps));
            assert(b[i] ==> b[j]);
        }
    }
}

/// Some exponent up to `e` is the least with `2^m >= n`, when `2^e >= n`.
proof fn lemma_least_exponent(n: nat, e: nat)
    requires
        two_to(e) >= n,
    ensures
        exists|m: nat| m <= e && #[trigger] is_stage_count(n, m),
    decreases e,
{
    if e == 0 || two_to((e - 1) as nat) < n {
        assert(is_stage_count(n, e));
    } else {
        lemma_least_exponent(n, (e - 1) as nat);
    }
}

/// Steps of the network only exchange entries.
pub proof fn lemma_run_steps_permutes(s: Seq<Entry>, steps: Seq<SortStep>, lanes: nat)
    ensures
        permutation_of(run_steps(s, steps, lanes), s),
    decreases steps.len(),
{
    if steps.len() > 0 {
        lemma_run_steps_permutes(s, steps.drop_last(), lanes);
        lemma_step_permutes(run_steps(s, steps.drop_last(), lanes), steps.last(), lanes);
    }
}

/// The lanes of one step only exchange entries.
pub proof fn lemma_step_permutes(s: Seq<Entry>, step: SortStep, lanes: nat)
    ensures
        permutation_of(step_result(s, step, lanes), s),
    decreases lanes,
{
    broadcast use vstd::seq_lib::group_to_multiset_ensures;

    if lanes > 0 {
        lemma_step_permutes(s, step, (lanes - 1) as nat);
        let prev = step_result(s, step, (lanes - 1) as nat);
        let (l, r) = lane_pair(lanes - 1, step);
        if 0 <= l < r < prev.len() && prev[l].key > prev[r].key {
            vstd::seq_lib::to_multiset_update(prev, l, prev[r]);
            vstd::seq_lib::to_multiset_update(prev.update(l, prev[r]), r, prev[l]);
            assert(prev.to_multiset().insert(prev[r]).remove(prev[l]).insert(prev[l]).remove(prev[r])
                =~= prev.to_multiset());
        }
    }
}

/// The network and a sort by key agree: at every position they give an entry
/// with the same key, and they hold the same entries. Only the order among equal
/// keys may differ.
pub proof fn lemma_network_matches_sort(s: Seq<Entry>, sorted: Seq<Entry>)
    requires
        s.len() <= u32::MAX,
        sorted_by_key(sorted),
        permutation_of(sorted, s),
    ensures
        permutation_of(network_result(s), sorted),
        network_result(s).len() == sorted.len(),
        forall|i: int| 0 <= i < sorted.len() ==> #[trigger] network_result(s)[i].key == sorted[i].key,
{
    lemma_network_sorts(s);
    lemma_run_steps_permutes(
        s,
        schedule(stage_count_spec(s.len() as u32)),
        lane_count(s.len() as u32),
    );
    lemma_sorted_same_keys(network_result(s), sorted);
}

} // verus!

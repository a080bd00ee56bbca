//! The bitonic sorting network: a fixed schedule of compare-and-swap steps.
//!
//! A host computes the schedule once per sort; each step is a launch in which
//! every lane compares and possibly swaps one pair of slots. The lanes of a step
//! are independent; successive steps are separated by a barrier. The logical
//! entry count is padded to the next power of two; a pair whose right slot lies
//! in the padding is left alone, exactly as if the padding held the largest key.
use vstd::prelude::*;
use crate::entry::{Entry, permutation_of, sorted_by_key};
use crate::network_sorts::lemma_network_sorts;

verus! {

broadcast use vstd::seq_lib::group_seq_properties, vstd::seq_lib::group_to_multiset_ensures;

/// Lanes per workgroup of a parallel launch.
pub const WORKGROUP_SIZE: u32 = 256;

/// `2^e`.
pub open spec fn two_to(e: nat) -> nat
    decreases e,
{
    if e == 0 {
        1
    } else {
        2 * two_to((e - 1) as nat)
    }
}

/// Powers of two grow with the exponent.
pub proof fn lemma_two_to_monotone(a: nat, b: nat)
    requires
        a <= b,
    ensures
        1 <= two_to(a) <= two_to(b),
    decreases b,
{
    if a < b {
        lemma_two_to_monotone(a, (b - 1) as nat);
    } else if b > 0 {
        lemma_two_to_monotone((b - 1) as nat, (b - 1) as nat);
    }
}

/// The powers of two at the ends of the 32-bit range.
pub proof fn lemma_two_to_32()
    ensures
        two_to(31) == 0x8000_0000,
        two_to(32) == 0x1_0000_0000,
{
    reveal_with_fuel(two_to, 33);
}

/// The parameters of one step of the network.
#[derive(Clone, Copy, Debug, PartialEq, Eq)]
pub struct SortStep {
    /// The stage, from 0.
    pub stage_index: u32,
    /// The step within its stage, from 0 to `stage_index`.
    pub step_index: u32,
    /// `2^(stage_index - step_index)`: half the span of the pairs of this step.
    pub group_width: u32,
    /// `2 * group_width - 1`.
    pub group_height: u32,
}

/// The step of stage `s` numbered `t`.
pub open spec fn step_of(s: nat, t: nat) -> SortStep {
    SortStep {
        stage_index: s as u32,
        step_index: t as u32,
        group_width: two_to((s - t) as nat) as u32,
        group_height: (2 * two_to((s - t) as nat) - 1) as u32,
    }
}

/// The steps of stage `s`, in order.
pub open spec fn stage_steps(s: nat) -> Seq<SortStep> {
    Seq::new(s + 1, |t: int| step_of(s, t as nat))
}

/// All steps of a network of `m` stages, stage after stage.
pub open spec fn schedule(m: nat) -> Seq<SortStep>
    decreases m,
{
    if m == 0 {
        Seq::empty()
    } else {
        schedule((m - 1) as nat) + stage_steps((m - 1) as nat)
    }
}

/// The number of stages for `n` entries: the least `m` with `2^m >= n`.
pub fn stage_count(n: u32) -> (m: u32)
    ensures
        is_stage_count(n as nat, m as nat),
        m == stage_count_spec(n),
        m <= 32,
{
    let mut m: u32 = 0;
    let mut p: u64 = 1;
    proof {
        lemma_two_to_32();
    }
    while p < n as u64
        invariant
            p == two_to(m as nat),
            m <= 32,
            m == 0 || two_to((m - 1) as nat) < n,
            two_to(32) == 0x1_0000_0000,
        decreases 32 - m,
    {
        if m >= 32 {
            proof {
                lemma_two_to_monotone(32, m as nat);
            }
        }
        p = p * 2;
        m = m + 1;
    }
    proof {
        assert(is_stage_count(n as nat, m as nat));
        lemma_stage_count_unique(n as nat, m as nat, stage_count_spec(n));
    }
    m
}

/// `2^e` for exponents that fit.
pub fn pow2_u32(e: u32) -> (r: u32)
    requires
        e <= 31,
    ensures
        r == two_to(e as nat),
        1 <= r <= 0x8000_0000,
{
    let mut w: u32 = 1;
    let mut i: u32 = 0;
    proof {
        lemma_two_to_monotone(e as nat, 31);
        lemma_two_to_32();
    }
    while i < e
        invariant
            i <= e <= 31,
            w == two_to(i as nat),
            two_to(e as nat) <= 0x8000_0000,
        decreases e - i,
    {
        proof {
            lemma_two_to_monotone((i + 1) as nat, e as nat);
        }
        w = w * 2;
        i = i + 1;
    }
    proof {
        lemma_two_to_monotone(0, e as nat);
    }
    w
}

/// The parameters of step `t` of stage `s`.
pub fn sort_step(s: u32, t: u32) -> (r: SortStep)
    requires
        t <= s < 32,
    ensures
        r == step_of(s as nat, t as nat),
        is_valid_step(r),
{
    let w = pow2_u32(s - t);
    SortStep { stage_index: s, step_index: t, group_width: w, group_height: (w - 1) + w }
}

/// The width and height of a step agree, and its pairs stay within 32-bit positions.
pub open spec fn is_valid_step(step: SortStep) -> bool {
    &&& 1 <= step.group_width <= 0x8000_0000
    &&& step.group_height == 2 * step.group_width - 1
}

/// The steps of a network for `n` entries: stages `0..stage_count(n)`, and in
/// stage `s` the steps `0..=s`.
pub fn sort_schedule(n: u32) -> (r: Vec<SortStep>)
    ensures
        r@ == schedule(stage_count_spec(n)),
        stage_count_spec(n) <= 32,
{
    let m = stage_count(n);
    let mut out: Vec<SortStep> = Vec::new();
    let mut s: u32 = 0;
    while s < m
        invariant
            m <= 32,
            m == stage_count_spec(n),
            s <= m,
            out@ == schedule(s as nat),
        decreases m - s,
    {
        let ghost before = out@;
        let mut t: u32 = 0;
        while t <= s
            invariant
                s < m <= 32,
                t <= s + 1,
                out@ == before + stage_steps(s as nat).take(t as int),
            decreases s + 1 - t,
        {
            out.push(sort_step(s, t));
            proof {
                assert(stage_steps(s as nat).take(t as int + 1) =~= stage_steps(s as nat).take(
                    t as int,
                ).push(step_of(s as nat, t as nat)));
            }
            t += 1;
        }
        assert(stage_steps(s as nat).take(s as int + 1) =~= stage_steps(s as nat));
        s += 1;
    }
    out
}

/// `m` is the least exponent with `2^m >= n`.
pub open spec fn is_stage_count(n: nat, m: nat) -> bool {
    two_to(m) >= n && (m == 0 || two_to((m - 1) as nat) < n)
}

/// The number of stages for `n` entries.
pub open spec fn stage_count_spec(n: u32) -> nat {
    choose|m: nat| #[trigger] is_stage_count(n as nat, m)
}

/// At most one exponent is the least with `2^m >= n`.
pub proof fn lemma_stage_count_unique(n: nat, a: nat, b: nat)
    requires
        is_stage_count(n, a),
        is_stage_count(n, b),
    ensures
        a == b,
{
    if a < b {
        lemma_two_to_monotone(a, (b - 1) as nat);
    } else if b < a {
        lemma_two_to_monotone(b, (a - 1) as nat);
    }
}

/// Every step of a schedule of at most 32 stages is a valid step of one of its stages.
pub proof fn lemma_schedule_steps(m: nat)
    requires
        m <= 32,
    ensures
        forall|i: int|
            0 <= i < schedule(m).len() ==> {
                let st = #[trigger] schedule(m)[i];
                &&& st.step_index <= st.stage_index < m
                &&& st == step_of(st.stage_index as nat, st.step_index as nat)
                &&& is_valid_step(st)
            },
    decreases m,
{
    if m > 0 {
        lemma_schedule_steps((m - 1) as nat);
        let prev = schedule((m - 1) as nat);
        let last = stage_steps((m - 1) as nat);
        assert forall|i: int| 0 <= i < schedule(m).len() implies {
            let st = #[trigger] schedule(m)[i];
            &&& st.step_index <= st.stage_index < m
            &&& st == step_of(st.stage_index as nat, st.step_index as nat)
            &&& is_valid_step(st)
        } by {
            if i >= prev.len() {
                let t = i - prev.len();
                let w = two_to((m - 1 - t) as nat);
                lemma_two_to_monotone((m - 1 - t) as nat, 31);
                lemma_two_to_monotone(0, (m - 1 - t) as nat);
                lemma_two_to_32();
                assert(schedule(m)[i] == last[t]);
            } else {
                assert(schedule(m)[i] == prev[i]);
            }
        }
    }
}

/// The two slots that `lane` compares in `step`.
///
/// Lanes are grouped by `group_width`; each group covers `group_height + 1`
/// slots. On the first step of a stage a lane pairs a slot with its mirror in the
/// group; on later steps with the slot `group_width` further on.
pub open spec fn lane_pair(lane: int, step: SortStep) -> (int, int) {
    let w = step.group_width as int;
    let h = lane % w;
    let left = h + (step.group_height + 1) * (lane / w);
    let right = if step.step_index == 0 {
        left + step.group_height - 2 * h
    } else {
        left + (step.group_height + 1) / 2
    };
    (left, right)
}

/// Orders slots `l < r` of `s` by key, swapping them if the left key is larger.
pub open spec fn compare_exchange(s: Seq<Entry>, l: int, r: int) -> Seq<Entry> {
    if 0 <= l < r < s.len() && s[l].key > s[r].key {
        s.update(l, s[r]).update(r, s[l])
    } else {
        s
    }
}

/// `s` after lanes `0..lanes` of `step`.
pub open spec fn step_result(s: Seq<Entry>, step: SortStep, lanes: nat) -> Seq<Entry>
    decreases lanes,
{
    if lanes == 0 {
        s
    } else {
        let (l, r) = lane_pair(lanes - 1, step);
        compare_exchange(step_result(s, step, (lanes - 1) as nat), l, r)
    }
}

/// `s` after the steps of `steps`, in order, each with `lanes` lanes.
pub open spec fn run_steps(s: Seq<Entry>, steps: Seq<SortStep>, lanes: nat) -> Seq<Entry>
    decreases steps.len(),
{
    if steps.len() == 0 {
        s
    } else {
        step_result(run_steps(s, steps.drop_last(), lanes), steps.last(), lanes)
    }
}

/// Lanes per launch for `n` entries: half the padded length.
pub open spec fn lane_count(n: u32) -> nat {
    two_to(stage_count_spec(n)) / 2
}

/// `s` after the whole network for its length.
pub open spec fn network_result(s: Seq<Entry>) -> Seq<Entry> {
    run_steps(s, schedule(stage_count_spec(s.len() as u32)), lane_count(s.len() as u32))
}

/// The pair of slots that `lane` compares in `step`; the left one comes first.
pub fn pair_for_lane(lane: u32, step: SortStep) -> (r: (u64, u64))
    requires
        is_valid_step(step),
    ensures
        r.0 == lane_pair(lane as int, step).0,
        r.1 == lane_pair(lane as int, step).1,
        r.0 < r.1,
{
    let w = step.group_width as u64;
    let lane64 = lane as u64;
    let h = lane64 % w;
    let group = lane64 / w;
    proof {
        assert(group * w <= lane64) by (nonlinear_arith)
            requires group == lane64 / w, w >= 1;
        assert((2 * w) * group <= 2 * lane64) by (nonlinear_arith)
            requires group * w <= lane64;
    }
    let left = h + (step.group_height as u64 + 1) * group;
    let right = if step.step_index == 0 {
        left + step.group_height as u64 - 2 * h
    } else {
        left + (step.group_height as u64 + 1) / 2
    };
    (left, right)
}

/// Runs lanes `0..lanes` of one step over `entries`. A lane whose right slot is
/// past the end leaves both slots alone.
pub fn run_step(entries: &mut Vec<Entry>, step: SortStep, lanes: u32)
    requires
        is_valid_step(step),
    ensures
        final(entries)@ == step_result(old(entries)@, step, lanes as nat),
        permutation_of(final(entries)@, old(entries)@),
{
    let n = entries.len() as u64;
    let mut lane: u32 = 0;
    while lane < lanes
        invariant
            is_valid_step(step),
            n == entries.len(),
            lane <= lanes,
            entries@ == step_result(old(entries)@, step, lane as nat),
            permutation_of(entries@, old(entries)@),
        decreases lanes - lane,
    {
        let (l, r) = pair_for_lane(lane, step);
        if r < n {
            let a = entries[l as usize];
            let b = entries[r as usize];
            if a.key > b.key {
                let ghost before = entries@;
                entries.set(l as usize, b);
                entries.set(r as usize, a);
                proof {
                    vstd::seq_lib::to_multiset_update(before, l as int, b);
                    vstd::seq_lib::to_multiset_update(before.update(l as int, b), r as int, a);
                    assert(before.to_multiset().insert(b).remove(a).insert(a).remove(b)
                        =~= before.to_multiset());
                }
            }
        }
        lane += 1;
    }
}

/// Lanes per launch for `n` entries.
pub fn lanes_for(n: u32) -> (r: u32)
    ensures
        r == lane_count(n),
{
    let m = stage_count(n);
    if m == 0 {
        0
    } else {
        let r = pow2_u32(m - 1);
        proof {
            assert(two_to(m as nat) == 2 * two_to((m - 1) as nat));
        }
        r
    }
}

/// Sorts `entries` by key with the bitonic network for their length, run one
/// step at a time, each step over all lanes.
pub fn bitonic_sort(entries: &mut Vec<Entry>)
    requires
        old(entries).len() <= u32::MAX,
    ensures
        final(entries)@ == network_result(old(entries)@),
        permutation_of(final(entries)@, old(entries)@),
        sorted_by_key(final(entries)@),
{
    let n = entries.len() as u32;
    let steps = sort_schedule(n);
    let lanes = lanes_for(n);
    proof {
        lemma_schedule_steps(stage_count_spec(n));
    }
    let mut i: usize = 0;
    while i < steps.len()
        invariant
            n == old(entries).len(),
            steps@ == schedule(stage_count_spec(n)),
            lanes == lane_count(n),
            stage_count_spec(n) <= 32,
            forall|j: int| 0 <= j < steps.len() ==> is_valid_step(#[trigger] steps@[j]),
            i <= steps.len(),
            entries@ == run_steps(old(entries)@, steps@.take(i as int), lanes as nat),
            permutation_of(entries@, old(entries)@),
        decreases steps.len() - i,
    {
        run_step(entries, steps[i], lanes);
        assert(steps@.take(i as int + 1).drop_last() =~= steps@.take(i as int));
        i += 1;
    }
    assert(steps@.take(steps.len() as int) =~= steps@);
    proof {
        lemma_network_sorts(old(entries)@);
    }
}

/// Workgroups to launch for one step of the network over `n` entries: enough
/// for half the padded length, and at least one lane.
pub fn sort_dispatch_size(n: u32) -> (r: u32)
    ensures
        r == ((if lane_count(n) > 1 { lane_count(n) } else { 1 }) + WORKGROUP_SIZE - 1)
            / WORKGROUP_SIZE as int,
{
    let lanes = lanes_for(n);
    let wanted = if lanes > 1 { lanes } else { 1 };
    wanted / WORKGROUP_SIZE + if wanted % WORKGROUP_SIZE != 0 { 1 } else { 0 }
}

/// Workgroups to launch for the offset pass over `n` entries: one lane per entry.
pub fn offsets_dispatch_size(n: u32) -> (r: u32)
    ensures
        r == (n + WORKGROUP_SIZE - 1) / WORKGROUP_SIZE as int,
{
    n / WORKGROUP_SIZE + if n % WORKGROUP_SIZE != 0 { 1 } else { 0 }
}

} // verus!

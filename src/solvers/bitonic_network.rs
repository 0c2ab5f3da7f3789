//! The bitonic sorting network as mathematics: what one stage of comparators
//! does to an array of records, how the stages compose into the local phase,
//! the global rounds and the whole network, and the proof that the network
//! sorts.
//!
//! The sortedness proof goes by thresholds: for a fixed key `theta`, a record
//! is "high" when its key is at least `theta`. A comparator moves high records
//! exactly as it moves ones in a sequence of bits, so it suffices to follow the
//! pattern of high records through the stages.

use vstd::prelude::*;
use vstd::arithmetic::div_mod::*;
use vstd::arithmetic::power2::*;

use crate::solvers::bitonic_sorter::LOG_LOCAL_ARRAY_SIZE;

verus! {

/// One element of the array being sorted: a key that the network orders by and
/// a payload that travels with it.
#[derive(Clone, Copy, Debug, PartialEq, Eq)]
pub struct Record {
    pub key: u32,
    pub payload: u64,
}

/// The keys are non-decreasing from left to right.
pub open spec fn sorted_keys(s: Seq<Record>) -> bool {
    forall|i: int, j: int| 0 <= i <= j < s.len() ==> #[trigger] s[i].key <= #[trigger] s[j].key
}

/// The slot that `x` is compared with in a stage whose blocks have height `h`:
/// a flip compares mirrored positions of a block, a disperse compares a slot of
/// the top half with the slot half a block further down.
pub open spec fn partner(x: int, h: int, flip: bool) -> int {
    let o = x % h;
    if flip {
        x - o + h - 1 - o
    } else if o < h / 2 {
        x + h / 2
    } else {
        x - h / 2
    }
}

/// `x` receives the smaller key of its pair.
pub open spec fn is_lower(x: int, h: int) -> bool {
    x % h < h / 2
}

/// What slot `x` holds after its pair `(x, p)` went through the comparator:
/// the pair is swapped when the record in the lower slot has the greater key.
pub open spec fn exchange(s: Seq<Record>, x: int, p: int, lower: bool) -> Record {
    if lower {
        if s[x].key > s[p].key { s[p] } else { s[x] }
    } else {
        if s[p].key > s[x].key { s[p] } else { s[x] }
    }
}

/// One stage: every block of height `h` goes through a flip or a disperse.
pub open spec fn stage(s: Seq<Record>, h: int, flip: bool) -> Seq<Record> {
    Seq::new(s.len(), |x: int| exchange(s, x, partner(x, h, flip), is_lower(x, h)))
}

/// The disperse stages of heights `2^hi`, `2^(hi-1)`, ..., `2^(lo+1)`, in that order.
pub open spec fn disperse_range(s: Seq<Record>, hi: nat, lo: nat) -> Seq<Record>
    decreases hi,
{
    if hi <= lo {
        s
    } else {
        disperse_range(stage(s, pow2(hi) as int, false), (hi - 1) as nat, lo)
    }
}

/// The full disperse cascade below a block of height `2^e`: heights `2^e` down to 2.
pub open spec fn cascade(s: Seq<Record>, e: nat) -> Seq<Record> {
    disperse_range(s, e, 0)
}

/// The local network of levels `1..=e`: at each level, a flip of blocks of
/// height `2^level` and the cascade below the halves.
pub open spec fn local_levels(s: Seq<Record>, e: nat) -> Seq<Record>
    decreases e,
{
    if e == 0 {
        s
    } else {
        level_step(local_levels(s, (e - 1) as nat), e)
    }
}

/// One level of the local network: the flip of blocks of height `2^e`, then
/// the disperse stages from half that height down to 2.
pub open spec fn level_step(s: Seq<Record>, e: nat) -> Seq<Record> {
    cascade(stage(s, pow2(e) as int, true), (e - 1) as nat)
}

/// One global round: the flip of blocks of height `2^e`, then the disperse
/// stages from that same height down to 2.
pub open spec fn global_round(s: Seq<Record>, e: nat) -> Seq<Record> {
    cascade(stage(s, pow2(e) as int, true), e)
}

/// The whole network on an array of `2^k` records: the local phase sorts every
/// chunk of `2^LOG_LOCAL_ARRAY_SIZE` records, then the global rounds merge
/// blocks of growing height, starting from one chunk.
pub open spec fn network(s: Seq<Record>, k: nat) -> Seq<Record> {
    global_rounds(
        local_levels(s, LOG_LOCAL_ARRAY_SIZE as nat),
        LOG_LOCAL_ARRAY_SIZE as nat,
        k,
    )
}

/// The global rounds for block heights `2^e` up to `2^k`.
pub open spec fn global_rounds(s: Seq<Record>, e: nat, k: nat) -> Seq<Record>
    decreases k + 1 - e,
{
    if e > k {
        s
    } else {
        global_rounds(global_round(s, e), e + 1, k)
    }
}


// ---------------------------------------------------------------------------
// Arithmetic of blocks
// ---------------------------------------------------------------------------

/// Inside an array whose length is a whole number of blocks of height `h`, the
/// block of slot `i` ends within the array.
pub proof fn lemma_block_bound(i: int, h: int, m: int)
    requires
        0 <= i < m,
        h > 0,
        m % h == 0,
    ensures
        0 <= i % h < h,
        i - i % h + h <= m,
        i % h <= i,
{
    lemma_fundamental_div_mod(i, h);
    lemma_fundamental_div_mod(m, h);
    lemma_mod_pos_bound(i, h);
    let qi = i / h;
    let qm = m / h;
    assert(qi < qm) by {
        if qi >= qm {
            assert(h * qi >= h * qm) by (nonlinear_arith)
                requires qi >= qm, h > 0;
        }
    }
    assert(h * qi + h <= h * qm) by (nonlinear_arith)
        requires qi < qm, h > 0;
    lemma_div_pos_is_pos(i, h);
    assert(h * qi >= 0) by (nonlinear_arith)
        requires qi >= 0, h > 0;
}

/// Where the partner of a slot lies: in the array, in the same block, above
/// the slot for a lower slot and below it otherwise.
pub proof fn lemma_partner(x: int, h: int, flip: bool, n: int)
    requires
        0 <= x < n,
        h >= 2,
        h % 2 == 0,
        n % h == 0,
    ensures
        0 <= partner(x, h, flip) < n,
        is_lower(x, h) ==> partner(x, h, flip) > x,
        !is_lower(x, h) ==> partner(x, h, flip) < x,
{
    lemma_block_bound(x, h, n);
}

/// A block that starts on a multiple of its height ends within any range whose
/// length is such a multiple.
pub proof fn lemma_block_fits(b: int, h: int, m: int)
    requires
        0 <= b < m,
        h > 0,
        b % h == 0,
        m % h == 0,
    ensures
        b + h <= m,
{
    lemma_block_bound(b, h, m);
}

/// Offset `o` of a block that starts on a multiple of its height.
pub proof fn lemma_block_offset(b: int, o: int, h: int)
    requires
        0 <= b,
        0 <= o < h,
        b % h == 0,
    ensures
        (b + o) % h == o,
{
    lemma_fundamental_div_mod(b, h);
    lemma_mod_multiples_vanish(b / h, o, h);
    lemma_small_mod(o as nat, h as nat);
}

/// Inside one block that spans the whole sequence, a slot is its own offset.
pub proof fn lemma_single_block(n: int)
    requires
        n > 0,
    ensures
        forall|x: int| 0 <= x < n ==> #[trigger] (x % n) == x,
{
    assert forall|x: int| 0 <= x < n implies #[trigger] (x % n) == x by {
        lemma_small_mod(x as nat, n as nat);
    }
}

/// A multiple of `2^e` is a multiple of every smaller power of two.
pub proof fn lemma_mod_pow2_down(a: int, e: nat, f: nat)
    requires
        f <= e,
        a % (pow2(e) as int) == 0,
    ensures
        a % (pow2(f) as int) == 0,
{
    lemma_pow2_pos(e);
    lemma_pow2_pos(f);
    lemma_pow2_adds(f, (e - f) as nat);
    lemma_fundamental_div_mod(a, pow2(e) as int);
    let q = a / (pow2(e) as int);
    let pf = pow2(f) as int;
    let pd = pow2((e - f) as nat) as int;
    assert(a == (pd * q) * pf) by (nonlinear_arith)
        requires a == (pf * pd) * q;
    lemma_mod_multiples_basic(pd * q, pf);
}

/// Running the disperse stages from `2^hi` down to `2^(mid+1)` and then those
/// from `2^mid` down to `2^(lo+1)` is running those from `2^hi` down to `2^(lo+1)`.
pub proof fn lemma_disperse_range_split(s: Seq<Record>, hi: nat, mid: nat, lo: nat)
    requires
        lo <= mid <= hi,
    ensures
        disperse_range(disperse_range(s, hi, mid), mid, lo) == disperse_range(s, hi, lo),
    decreases hi,
{
    if hi > mid {
        lemma_disperse_range_split(stage(s, pow2(hi) as int, false), (hi - 1) as nat, mid, lo);
    }
}

// ---------------------------------------------------------------------------
// Thresholds
// ---------------------------------------------------------------------------

/// The records with a key of at least `theta` are exactly those at `l..r`.
pub open spec fn ones_on(s: Seq<Record>, theta: int, l: int, r: int) -> bool {
    forall|i: int| 0 <= i < s.len() ==> ((#[trigger] s[i]).key >= theta) == (l <= i < r)
}

/// The records with a key below `theta` are exactly those at `l..r`.
pub open spec fn zeros_on(s: Seq<Record>, theta: int, l: int, r: int) -> bool {
    forall|i: int| 0 <= i < s.len() ==> ((#[trigger] s[i]).key >= theta) == !(l <= i < r)
}

/// Seen through the threshold `theta`, the sequence is bitonic: its high
/// records, or its low ones, form one contiguous run.
pub open spec fn bitonic01(s: Seq<Record>, theta: int) -> bool {
    exists|l: int, r: int|
        #![trigger ones_on(s, theta, l, r)]
        #![trigger zeros_on(s, theta, l, r)]
        0 <= l <= r <= s.len() && (ones_on(s, theta, l, r) || zeros_on(s, theta, l, r))
}

/// Seen through the threshold `theta`, the sequence is sorted: low records,
/// then high ones.
pub open spec fn sorted01(s: Seq<Record>, theta: int) -> bool {
    exists|a: int| 0 <= a <= s.len() && #[trigger] ones_on(s, theta, a, s.len() as int)
}

pub open spec fn all_low(s: Seq<Record>, theta: int) -> bool {
    forall|i: int| 0 <= i < s.len() ==> (#[trigger] s[i]).key < theta
}

pub open spec fn all_high(s: Seq<Record>, theta: int) -> bool {
    forall|i: int| 0 <= i < s.len() ==> (#[trigger] s[i]).key >= theta
}

/// The two halves of a block are separated at `theta`: nothing high above,
/// or nothing low below.
pub open spec fn separated(s: Seq<Record>, theta: int, m: int) -> bool {
    all_low(s.subrange(0, m), theta) || all_high(s.subrange(m, s.len() as int), theta)
}

/// A disperse of a block that is bitonic at `theta` leaves two bitonic halves
/// that are separated at `theta`.
pub proof fn lemma_half_clean(s: Seq<Record>, theta: int, m: int)
    requires
        m >= 1,
        s.len() == 2 * m,
        bitonic01(s, theta),
    ensures
        bitonic01(stage(s, 2 * m, false).subrange(0, m), theta),
        bitonic01(stage(s, 2 * m, false).subrange(m, 2 * m), theta),
        separated(stage(s, 2 * m, false), theta, m),
{
    let t = stage(s, 2 * m, false);
    let t1 = t.subrange(0, m);
    let t2 = t.subrange(m, 2 * m);
    lemma_single_block(2 * m);
    assert forall|i: int| 0 <= i < m implies ((#[trigger] t1[i]).key >= theta) == (s[i].key
        >= theta && s[i + m].key >= theta) && (t2[i].key >= theta) == (s[i].key >= theta
        || s[i + m].key >= theta) by {
        assert(i % (2 * m) == i);
        assert((i + m) % (2 * m) == i + m);
    }
    let (l, r) = choose|l: int, r: int|
        0 <= l <= r <= s.len() && (ones_on(s, theta, l, r) || zeros_on(s, theta, l, r));
    if ones_on(s, theta, l, r) {
        if l < r - m {
            assert(ones_on(t1, theta, l, r - m));
            assert(all_high(t2, theta));
        } else {
            assert(ones_on(t1, theta, 0, 0));
            assert(all_low(t1, theta));
        }
        if r <= m {
            assert(ones_on(t2, theta, l, r));
        } else if l >= m {
            assert(ones_on(t2, theta, l - m, r - m));
        } else if r - m >= l {
            assert(ones_on(t2, theta, 0, m));
        } else {
            assert(zeros_on(t2, theta, r - m, l));
        }
    } else {
        if l < r - m {
            assert(zeros_on(t2, theta, l, r - m));
            assert(all_low(t1, theta));
        } else {
            assert(zeros_on(t2, theta, 0, 0));
            assert(all_high(t2, theta));
        }
        if r <= m {
            assert(zeros_on(t1, theta, l, r));
        } else if l >= m {
            assert(zeros_on(t1, theta, l - m, r - m));
        } else if r - m >= l {
            assert(zeros_on(t1, theta, 0, m));
        } else {
            assert(ones_on(t1, theta, r - m, l));
        }
    }
}

/// A flip of a block whose halves are sorted at `theta` leaves two bitonic
/// halves that are separated at `theta`.
pub proof fn lemma_flip_clean(s: Seq<Record>, theta: int, m: int)
    requires
        m >= 1,
        s.len() == 2 * m,
        sorted01(s.subrange(0, m), theta),
        sorted01(s.subrange(m, 2 * m), theta),
    ensures
        bitonic01(stage(s, 2 * m, true).subrange(0, m), theta),
        bitonic01(stage(s, 2 * m, true).subrange(m, 2 * m), theta),
        separated(stage(s, 2 * m, true), theta, m),
{
    let t = stage(s, 2 * m, true);
    let t1 = t.subrange(0, m);
    let t2 = t.subrange(m, 2 * m);
    let s1 = s.subrange(0, m);
    let s2 = s.subrange(m, 2 * m);
    lemma_single_block(2 * m);
    let a = choose|a: int| 0 <= a <= m && #[trigger] ones_on(s1, theta, a, m);
    let b = choose|b: int| 0 <= b <= m && #[trigger] ones_on(s2, theta, b, m);
    assert forall|i: int| 0 <= i < m implies ((#[trigger] t1[i]).key >= theta) == (i >= a && i
        < m - b) by {
        assert(i % (2 * m) == i);
        assert(s1[i] == s[i]);
        assert(s2[m - 1 - i] == s[2 * m - 1 - i]);
    }
    assert forall|j: int| 0 <= j < m implies ((#[trigger] t2[j]).key >= theta) == (j < m - a || j
        >= b) by {
        assert((m + j) % (2 * m) == m + j);
        assert(s1[m - 1 - j] == s[m - 1 - j]);
        assert(s2[j] == s[m + j]);
    }
    if a < m - b {
        assert(ones_on(t1, theta, a, m - b));
        assert(zeros_on(t2, theta, 0, 0));
        assert(all_high(t2, theta));
    } else {
        assert(ones_on(t1, theta, 0, 0));
        assert(all_low(t1, theta));
        assert(zeros_on(t2, theta, m - a, b));
    }
}


// ---------------------------------------------------------------------------
// Lengths and locality
// ---------------------------------------------------------------------------

pub proof fn lemma_disperse_range_len(s: Seq<Record>, hi: nat, lo: nat)
    ensures
        disperse_range(s, hi, lo).len() == s.len(),
    decreases hi,
{
    if hi > lo {
        lemma_disperse_range_len(stage(s, pow2(hi) as int, false), (hi - 1) as nat, lo);
    }
}

pub proof fn lemma_local_levels_len(s: Seq<Record>, e: nat)
    ensures
        local_levels(s, e).len() == s.len(),
    decreases e,
{
    if e > 0 {
        let p = local_levels(s, (e - 1) as nat);
        lemma_local_levels_len(s, (e - 1) as nat);
        lemma_disperse_range_len(stage(p, pow2(e) as int, true), (e - 1) as nat, 0);
    }
}

pub proof fn lemma_global_rounds_len(s: Seq<Record>, e: nat, k: nat)
    ensures
        global_rounds(s, e, k).len() == s.len(),
    decreases k + 1 - e,
{
    if e <= k {
        lemma_disperse_range_len(stage(s, pow2(e) as int, true), e, 0);
        lemma_global_rounds_len(global_round(s, e), e + 1, k);
    }
}

/// A stage acts on each aligned part of the array on its own: running it on
/// the whole array and cutting out an aligned part gives what running it on
/// the part alone gives.
pub proof fn lemma_stage_restrict(s: Seq<Record>, h: int, flip: bool, a: int, m: int)
    requires
        h >= 2,
        h % 2 == 0,
        0 <= a,
        0 <= m,
        a + m <= s.len(),
        a % h == 0,
        m % h == 0,
    ensures
        stage(s, h, flip).subrange(a, a + m) == stage(s.subrange(a, a + m), h, flip),
{
    let t = s.subrange(a, a + m);
    lemma_fundamental_div_mod(a, h);
    assert forall|i: int| 0 <= i < m implies stage(s, h, flip).subrange(a, a + m)[i] == stage(
        t,
        h,
        flip,
    )[i] by {
        lemma_mod_multiples_vanish(a / h, i, h);
        lemma_block_bound(i, h, m);
    }
    assert(stage(s, h, flip).subrange(a, a + m) =~= stage(t, h, flip));
}

pub proof fn lemma_disperse_range_restrict(s: Seq<Record>, hi: nat, lo: nat, a: int, m: int)
    requires
        0 <= a,
        0 <= m,
        a + m <= s.len(),
        a % (pow2(hi) as int) == 0,
        m % (pow2(hi) as int) == 0,
    ensures
        disperse_range(s, hi, lo).subrange(a, a + m) == disperse_range(s.subrange(a, a + m), hi, lo),
    decreases hi,
{
    if hi > lo {
        let h = pow2(hi) as int;
        lemma_pow2_unfold(hi);
        lemma_pow2_pos((hi - 1) as nat);
        lemma_stage_restrict(s, h, false, a, m);
        lemma_mod_pow2_down(a, hi, (hi - 1) as nat);
        lemma_mod_pow2_down(m, hi, (hi - 1) as nat);
        lemma_disperse_range_restrict(stage(s, h, false), (hi - 1) as nat, lo, a, m);
    }
}

pub proof fn lemma_level_step_restrict(s: Seq<Record>, e: nat, a: int, m: int)
    requires
        e >= 1,
        0 <= a,
        0 <= m,
        a + m <= s.len(),
        a % (pow2(e) as int) == 0,
        m % (pow2(e) as int) == 0,
    ensures
        level_step(s, e).subrange(a, a + m) == level_step(s.subrange(a, a + m), e),
{
    let h = pow2(e) as int;
    lemma_pow2_unfold(e);
    lemma_pow2_pos((e - 1) as nat);
    lemma_stage_restrict(s, h, true, a, m);
    lemma_mod_pow2_down(a, e, (e - 1) as nat);
    lemma_mod_pow2_down(m, e, (e - 1) as nat);
    lemma_disperse_range_restrict(stage(s, h, true), (e - 1) as nat, 0, a, m);
}

pub proof fn lemma_local_levels_restrict(s: Seq<Record>, e: nat, a: int, m: int)
    requires
        0 <= a,
        0 <= m,
        a + m <= s.len(),
        a % (pow2(e) as int) == 0,
        m % (pow2(e) as int) == 0,
    ensures
        local_levels(s, e).subrange(a, a + m) == local_levels(s.subrange(a, a + m), e),
    decreases e,
{
    if e > 0 {
        lemma_mod_pow2_down(a, e, (e - 1) as nat);
        lemma_mod_pow2_down(m, e, (e - 1) as nat);
        lemma_local_levels_restrict(s, (e - 1) as nat, a, m);
        lemma_local_levels_len(s, (e - 1) as nat);
        lemma_level_step_restrict(local_levels(s, (e - 1) as nat), e, a, m);
    }
}

pub proof fn lemma_global_round_restrict(s: Seq<Record>, e: nat, a: int, m: int)
    requires
        e >= 1,
        0 <= a,
        0 <= m,
        a + m <= s.len(),
        a % (pow2(e) as int) == 0,
        m % (pow2(e) as int) == 0,
    ensures
        global_round(s, e).subrange(a, a + m) == global_round(s.subrange(a, a + m), e),
{
    let h = pow2(e) as int;
    lemma_pow2_unfold(e);
    lemma_pow2_pos((e - 1) as nat);
    lemma_stage_restrict(s, h, true, a, m);
    lemma_disperse_range_restrict(stage(s, h, true), e, 0, a, m);
}

// ---------------------------------------------------------------------------
// Stages seen through a threshold
// ---------------------------------------------------------------------------

/// A stage keeps a sequence that is all low, or all high, as it is at `theta`.
pub proof fn lemma_stage_keeps_uniform(s: Seq<Record>, h: int, flip: bool, theta: int)
    requires
        h >= 2,
        h % 2 == 0,
        (s.len() as int) % h == 0,
    ensures
        all_low(s, theta) ==> all_low(stage(s, h, flip), theta),
        all_high(s, theta) ==> all_high(stage(s, h, flip), theta),
{
    assert forall|x: int| 0 <= x < s.len() implies 0 <= #[trigger] partner(x, h, flip) < s.len() by {
        lemma_partner(x, h, flip, s.len() as int);
    }
}

pub proof fn lemma_disperse_range_keeps_uniform(s: Seq<Record>, hi: nat, lo: nat, theta: int)
    requires
        (s.len() as int) % (pow2(hi) as int) == 0,
    ensures
        all_low(s, theta) ==> all_low(disperse_range(s, hi, lo), theta),
        all_high(s, theta) ==> all_high(disperse_range(s, hi, lo), theta),
    decreases hi,
{
    if hi > lo {
        let h = pow2(hi) as int;
        lemma_pow2_unfold(hi);
        lemma_pow2_pos((hi - 1) as nat);
        lemma_stage_keeps_uniform(s, h, false, theta);
        lemma_mod_pow2_down(s.len() as int, hi, (hi - 1) as nat);
        lemma_disperse_range_keeps_uniform(stage(s, h, false), (hi - 1) as nat, lo, theta);
    }
}

/// Two sorted halves that are separated make a sorted whole.
pub proof fn lemma_join(u: Seq<Record>, theta: int, m: int)
    requires
        m >= 0,
        u.len() == 2 * m,
        sorted01(u.subrange(0, m), theta),
        sorted01(u.subrange(m, 2 * m), theta),
        separated(u, theta, m),
    ensures
        sorted01(u, theta),
{
    let u1 = u.subrange(0, m);
    let u2 = u.subrange(m, 2 * m);
    let a1 = choose|a: int| 0 <= a <= m && #[trigger] ones_on(u1, theta, a, m);
    let a2 = choose|a: int| 0 <= a <= m && #[trigger] ones_on(u2, theta, a, m);
    assert forall|i: int| 0 <= i < 2 * m implies #[trigger] u[i] == if i < m {
        u1[i]
    } else {
        u2[i - m]
    } by {}
    if all_low(u1, theta) {
        assert(ones_on(u, theta, m + a2, 2 * m));
    } else {
        assert(ones_on(u, theta, a1, 2 * m));
    }
}

/// The same records are high at `theta` in both sequences.
pub open spec fn same_pattern(s: Seq<Record>, t: Seq<Record>, theta: int) -> bool {
    s.len() == t.len() && forall|i: int|
        0 <= i < s.len() ==> ((#[trigger] s[i]).key >= theta) == (t[i].key >= theta)
}

pub proof fn lemma_same_pattern_bitonic(s: Seq<Record>, t: Seq<Record>, theta: int)
    requires
        same_pattern(s, t, theta),
        bitonic01(s, theta),
    ensures
        bitonic01(t, theta),
{
    let (l, r) = choose|l: int, r: int|
        0 <= l <= r <= s.len() && (ones_on(s, theta, l, r) || zeros_on(s, theta, l, r));
    assert forall|i: int| 0 <= i < t.len() implies ((#[trigger] t[i]).key >= theta) == (s[i].key
        >= theta) by {}
    if ones_on(s, theta, l, r) {
        assert(ones_on(t, theta, l, r));
    } else {
        assert(zeros_on(t, theta, l, r));
    }
}

/// A disperse of a block whose halves are already separated changes nothing at
/// `theta`.
pub proof fn lemma_disperse_separated(t: Seq<Record>, theta: int, m: int)
    requires
        m >= 1,
        t.len() == 2 * m,
        bitonic01(t.subrange(0, m), theta),
        bitonic01(t.subrange(m, 2 * m), theta),
        separated(t, theta, m),
    ensures
        bitonic01(stage(t, 2 * m, false).subrange(0, m), theta),
        bitonic01(stage(t, 2 * m, false).subrange(m, 2 * m), theta),
        separated(stage(t, 2 * m, false), theta, m),
{
    let w = stage(t, 2 * m, false);
    let t1 = t.subrange(0, m);
    let t2 = t.subrange(m, 2 * m);
    lemma_single_block(2 * m);
    assert forall|x: int| 0 <= x < 2 * m implies ((#[trigger] w[x]).key >= theta) == (t[x].key
        >= theta) by {
        assert(x % (2 * m) == x);
        if x < m {
            assert(t1[x] == t[x]);
            assert(t2[x] == t[x + m]);
        } else {
            assert(t1[x - m] == t[x - m]);
            assert(t2[x - m] == t[x]);
        }
    }
    assert(same_pattern(t1, w.subrange(0, m), theta)) by {
        assert forall|i: int| 0 <= i < m implies #[trigger] w.subrange(0, m)[i] == w[i] by {}
    }
    assert(same_pattern(t2, w.subrange(m, 2 * m), theta)) by {
        assert forall|i: int| 0 <= i < m implies #[trigger] w.subrange(m, 2 * m)[i] == w[i + m] by {}
    }
    if all_low(t1, theta) {
        assert forall|i: int| 0 <= i < m implies (#[trigger] w.subrange(0, m)[i]).key < theta by {
            assert(t1[i] == t[i]);
            assert(w.subrange(0, m)[i] == w[i]);
        }
    } else {
        assert forall|i: int| 0 <= i < m implies (#[trigger] w.subrange(m, 2 * m)[i]).key
            >= theta by {
            assert(t2[i] == t[i + m]);
            assert(w.subrange(m, 2 * m)[i] == w[i + m]);
        }
    }
    lemma_same_pattern_bitonic(t.subrange(0, m), w.subrange(0, m), theta);
    lemma_same_pattern_bitonic(t.subrange(m, 2 * m), w.subrange(m, 2 * m), theta);
}

/// The disperse cascade sorts a block that is bitonic at `theta`.
pub proof fn lemma_cascade_sorts(s: Seq<Record>, theta: int, e: nat)
    requires
        s.len() == pow2(e),
        bitonic01(s, theta),
    ensures
        sorted01(cascade(s, e), theta),
    decreases e, 1nat,
{
    if e == 0 {
        assert(pow2(0) == 1) by { lemma2_to64(); }
        if s[0].key >= theta {
            assert(ones_on(s, theta, 0, 1));
        } else {
            assert(ones_on(s, theta, 1, 1));
        }
    } else {
        let m = pow2((e - 1) as nat) as int;
        lemma_pow2_unfold(e);
        lemma_pow2_pos((e - 1) as nat);
        lemma_half_clean(s, theta, m);
        lemma_combine(stage(s, 2 * m, false), theta, e);
    }
}

/// The disperse cascade below two bitonic, separated halves sorts the block.
pub proof fn lemma_combine(t: Seq<Record>, theta: int, e: nat)
    requires
        e >= 1,
        t.len() == pow2(e),
        bitonic01(t.subrange(0, pow2((e - 1) as nat) as int), theta),
        bitonic01(t.subrange(pow2((e - 1) as nat) as int, t.len() as int), theta),
        separated(t, theta, pow2((e - 1) as nat) as int),
    ensures
        sorted01(cascade(t, (e - 1) as nat), theta),
    decreases e, 0nat,
{
    let e1 = (e - 1) as nat;
    let m = pow2(e1) as int;
    lemma_pow2_unfold(e);
    lemma_pow2_pos(e1);
    let u = cascade(t, e1);
    lemma_disperse_range_len(t, e1, 0);
    assert(m % m == 0) by { lemma_mod_self_0(m); }
    assert((2 * m) % m == 0) by { lemma_mod_multiples_basic(2, m); }
    lemma_disperse_range_restrict(t, e1, 0, 0, m);
    lemma_disperse_range_restrict(t, e1, 0, m, m);
    let t1 = t.subrange(0, m);
    let t2 = t.subrange(m, 2 * m);
    lemma_cascade_sorts(t1, theta, e1);
    lemma_cascade_sorts(t2, theta, e1);
    lemma_disperse_range_keeps_uniform(t1, e1, 0, theta);
    lemma_disperse_range_keeps_uniform(t2, e1, 0, theta);
    lemma_join(u, theta, m);
}


// ---------------------------------------------------------------------------
// Rounds and levels
// ---------------------------------------------------------------------------

/// A level of the local network sorts a block whose halves are sorted.
pub proof fn lemma_level_step_block(u: Seq<Record>, theta: int, e: nat)
    requires
        e >= 1,
        u.len() == pow2(e),
        sorted01(u.subrange(0, pow2((e - 1) as nat) as int), theta),
        sorted01(u.subrange(pow2((e - 1) as nat) as int, u.len() as int), theta),
    ensures
        sorted01(level_step(u, e), theta),
{
    let m = pow2((e - 1) as nat) as int;
    lemma_pow2_unfold(e);
    lemma_pow2_pos((e - 1) as nat);
    lemma_flip_clean(u, theta, m);
    lemma_combine(stage(u, 2 * m, true), theta, e);
}

/// A global round sorts a block whose halves are sorted.
pub proof fn lemma_global_round_block(u: Seq<Record>, theta: int, e: nat)
    requires
        e >= 1,
        u.len() == pow2(e),
        sorted01(u.subrange(0, pow2((e - 1) as nat) as int), theta),
        sorted01(u.subrange(pow2((e - 1) as nat) as int, u.len() as int), theta),
    ensures
        sorted01(global_round(u, e), theta),
{
    let m = pow2((e - 1) as nat) as int;
    lemma_pow2_unfold(e);
    lemma_pow2_pos((e - 1) as nat);
    lemma_flip_clean(u, theta, m);
    let t = stage(u, 2 * m, true);
    lemma_disperse_separated(t, theta, m);
    lemma_combine(stage(t, 2 * m, false), theta, e);
}

/// Every aligned block of height `h` is sorted at `theta`.
pub open spec fn blocks_sorted(s: Seq<Record>, theta: int, h: int) -> bool {
    forall|c: int|
        0 <= c && c * h + h <= s.len() ==> #[trigger] sorted01(s.subrange(c * h, c * h + h), theta)
}

/// Applying `level_step` (when `global` is false) or `global_round` (when it is
/// true) at level `e` turns sorted blocks of height `2^(e-1)` into sorted blocks
/// of height `2^e`.
pub proof fn lemma_level(s: Seq<Record>, theta: int, e: nat, global: bool)
    requires
        e >= 1,
        (s.len() as int) % (pow2(e) as int) == 0,
        blocks_sorted(s, theta, pow2((e - 1) as nat) as int),
    ensures
        blocks_sorted(
            if global {
                global_round(s, e)
            } else {
                level_step(s, e)
            },
            theta,
            pow2(e) as int,
        ),
{
    let h = pow2(e) as int;
    let m = pow2((e - 1) as nat) as int;
    lemma_pow2_unfold(e);
    lemma_pow2_pos((e - 1) as nat);
    let r = if global {
        global_round(s, e)
    } else {
        level_step(s, e)
    };
    assert forall|c: int| 0 <= c && c * h + h <= r.len() implies #[trigger] sorted01(
        r.subrange(c * h, c * h + h),
        theta,
    ) by {
        lemma_disperse_range_len(stage(s, h, true), e, 0);
        lemma_disperse_range_len(stage(s, h, true), (e - 1) as nat, 0);
        let a = c * h;
        lemma_mod_multiples_basic(c, h);
        assert(h % h == 0) by { lemma_mod_self_0(h); }
        assert(a == (2 * c) * m && a + m == (2 * c + 1) * m) by (nonlinear_arith)
            requires a == c * h, h == 2 * m;
        assert(c * h >= 0) by (nonlinear_arith)
            requires c >= 0, h > 0;
        let u = s.subrange(a, a + h);
        assert(u.subrange(0, m) =~= s.subrange((2 * c) * m, (2 * c) * m + m));
        assert(u.subrange(m, h) =~= s.subrange((2 * c + 1) * m, (2 * c + 1) * m + m));
        assert(sorted01(s.subrange((2 * c) * m, (2 * c) * m + m), theta));
        assert(sorted01(s.subrange((2 * c + 1) * m, (2 * c + 1) * m + m), theta));
        if global {
            lemma_global_round_restrict(s, e, a, h);
            lemma_global_round_block(u, theta, e);
        } else {
            lemma_level_step_restrict(s, e, a, h);
            lemma_level_step_block(u, theta, e);
        }
    }
}

/// A single record is sorted at any threshold.
pub proof fn lemma_single_sorted(s: Seq<Record>, theta: int)
    requires
        s.len() == 1,
    ensures
        sorted01(s, theta),
{
    if s[0].key >= theta {
        assert(ones_on(s, theta, 0, 1));
    } else {
        assert(ones_on(s, theta, 1, 1));
    }
}

/// Every part of a sequence that is sorted at `theta` is sorted at `theta`.
pub proof fn lemma_sorted01_part(s: Seq<Record>, theta: int, i: int, j: int)
    requires
        sorted01(s, theta),
        0 <= i <= j <= s.len(),
    ensures
        sorted01(s.subrange(i, j), theta),
{
    let a = choose|a: int| 0 <= a <= s.len() && #[trigger] ones_on(s, theta, a, s.len() as int);
    let p = s.subrange(i, j);
    let b = if a < i {
        0
    } else if a > j {
        j - i
    } else {
        a - i
    };
    assert forall|x: int| 0 <= x < p.len() implies ((#[trigger] p[x]).key >= theta) == (b <= x
        < j - i) by {
        assert(p[x] == s[x + i]);
    }
    assert(ones_on(p, theta, b, j - i));
}

/// The local network of levels `1..=e` leaves sorted blocks of height `2^e`.
pub proof fn lemma_local_levels_sorted(s: Seq<Record>, theta: int, e: nat)
    requires
        (s.len() as int) % (pow2(e) as int) == 0,
    ensures
        blocks_sorted(local_levels(s, e), theta, pow2(e) as int),
    decreases e,
{
    if e == 0 {
        assert(pow2(0) == 1) by { lemma2_to64(); }
        assert forall|c: int| 0 <= c && c * 1 + 1 <= s.len() implies #[trigger] sorted01(
            s.subrange(c * 1, c * 1 + 1),
            theta,
        ) by {
            lemma_single_sorted(s.subrange(c * 1, c * 1 + 1), theta);
        }
    } else {
        lemma_mod_pow2_down(s.len() as int, e, (e - 1) as nat);
        lemma_local_levels_sorted(s, theta, (e - 1) as nat);
        lemma_local_levels_len(s, (e - 1) as nat);
        lemma_level(local_levels(s, (e - 1) as nat), theta, e, false);
    }
}

/// The global rounds from level `e` on, started on sorted blocks of height
/// `2^(e-1)`, leave sorted blocks of height `2^k`.
pub proof fn lemma_global_rounds_sorted(s: Seq<Record>, theta: int, e: nat, k: nat)
    requires
        1 <= e <= k + 1,
        s.len() == pow2(k),
        blocks_sorted(s, theta, pow2((e - 1) as nat) as int),
    ensures
        blocks_sorted(global_rounds(s, e, k), theta, pow2(k) as int),
    decreases k + 1 - e,
{
    if e <= k {
        lemma_pow2_pos(k);
        assert((pow2(k) as int) % (pow2(k) as int) == 0) by { lemma_mod_self_0(pow2(k) as int); }
        lemma_mod_pow2_down(s.len() as int, k, e);
        lemma_level(s, theta, e, true);
        lemma_disperse_range_len(stage(s, pow2(e) as int, true), e, 0);
        lemma_global_rounds_sorted(global_round(s, e), theta, e + 1, k);
    }
}

/// Sorted blocks of height `2h` consist of sorted blocks of height `h`.
pub proof fn lemma_blocks_halve(s: Seq<Record>, theta: int, m: int)
    requires
        m >= 1,
        blocks_sorted(s, theta, 2 * m),
        (s.len() as int) % (2 * m) == 0,
    ensures
        blocks_sorted(s, theta, m),
{
    assert forall|c: int| 0 <= c && c * m + m <= s.len() implies #[trigger] sorted01(
        s.subrange(c * m, c * m + m),
        theta,
    ) by {
        let d = c / 2;
        lemma_fundamental_div_mod(c, 2);
        let off = if c % 2 == 0 { 0 } else { m };
        assert(c * m == d * (2 * m) + off) by (nonlinear_arith)
            requires c == 2 * d + c % 2, off == (if c % 2 == 0 { 0 } else { m });
        assert(d >= 0);
        lemma_block_bound(c * m, 2 * m, s.len() as int);
        lemma_fundamental_div_mod(c * m, 2 * m);
        lemma_fundamental_div_mod_converse(c * m, 2 * m, d, off);
        assert(d * (2 * m) + 2 * m <= s.len());
        assert(sorted01(s.subrange(d * (2 * m), d * (2 * m) + 2 * m), theta));
        lemma_sorted01_part(s.subrange(d * (2 * m), d * (2 * m) + 2 * m), theta, off, off + m);
        assert(s.subrange(d * (2 * m), d * (2 * m) + 2 * m).subrange(off, off + m) =~= s.subrange(
            c * m,
            c * m + m,
        ));
    }
}

/// Sorted at every threshold means sorted by key.
pub proof fn lemma_sorted_all_thresholds(s: Seq<Record>)
    requires
        forall|theta: int| #[trigger] sorted01(s, theta),
    ensures
        sorted_keys(s),
{
    assert forall|i: int, j: int| 0 <= i <= j < s.len() implies #[trigger] s[i].key
        <= #[trigger] s[j].key by {
        let theta = s[i].key as int;
        assert(sorted01(s, theta));
        let a = choose|a: int| 0 <= a <= s.len() && #[trigger] ones_on(s, theta, a, s.len() as int);
    }
}

/// The local network sorts every chunk of `2^e` records, chunks being aligned
/// on `2^e`.
pub proof fn lemma_local_levels_sorts_chunks(s: Seq<Record>, e: nat, c: int)
    requires
        (s.len() as int) % (pow2(e) as int) == 0,
        0 <= c,
        c * pow2(e) + pow2(e) <= s.len(),
    ensures
        sorted_keys(local_levels(s, e).subrange(c * pow2(e), c * pow2(e) + pow2(e))),
{
    let h = pow2(e) as int;
    let r = local_levels(s, e).subrange(c * h, c * h + h);
    assert forall|theta: int| #[trigger] sorted01(r, theta) by {
        lemma_local_levels_sorted(s, theta, e);
        lemma_local_levels_len(s, e);
    }
    lemma_sorted_all_thresholds(r);
}

/// The whole network sorts an array of `2^k` records, `k` at least the
/// exponent of a chunk.
pub proof fn lemma_network_sorts(s: Seq<Record>, k: nat)
    requires
        LOG_LOCAL_ARRAY_SIZE <= k,
        s.len() == pow2(k),
    ensures
        sorted_keys(network(s, k)),
{
    let l = LOG_LOCAL_ARRAY_SIZE as nat;
    let r = network(s, k);
    lemma_pow2_pos(k);
    lemma_pow2_pos(l);
    lemma_pow2_unfold(l);
    lemma_pow2_pos((l - 1) as nat);
    assert forall|theta: int| #[trigger] sorted01(r, theta) by {
        lemma_mod_self_0(pow2(k) as int);
        lemma_mod_pow2_down(s.len() as int, k, l);
        lemma_local_levels_sorted(s, theta, l);
        lemma_local_levels_len(s, l);
        lemma_blocks_halve(local_levels(s, l), theta, pow2((l - 1) as nat) as int);
        lemma_global_rounds_sorted(local_levels(s, l), theta, l, k);
        lemma_global_rounds_len(local_levels(s, l), l, k);
        assert(0 * (pow2(k) as int) + (pow2(k) as int) <= r.len());
        assert(sorted01(r.subrange(0 * (pow2(k) as int), 0 * (pow2(k) as int) + (pow2(k) as int)), theta));
        assert(r.subrange(0, pow2(k) as int) =~= r);
    }
    lemma_sorted_all_thresholds(r);
}


/// Global rounds at every level, from blocks of height 2 up to the whole
/// array, sort an array of `2^k` records.
pub proof fn lemma_all_rounds_sort(s: Seq<Record>, k: nat)
    requires
        s.len() == pow2(k),
    ensures
        sorted_keys(global_rounds(s, 1, k)),
{
    let r = global_rounds(s, 1, k);
    lemma_pow2_pos(k);
    assert(pow2(0) == 1) by { lemma2_to64(); }
    lemma_mod_multiples_basic(s.len() as int, 1);
    assert forall|theta: int| #[trigger] sorted01(r, theta) by {
        lemma_local_levels_sorted(s, theta, 0);
        assert(local_levels(s, 0) == s);
        lemma_global_rounds_sorted(s, theta, 1, k);
        lemma_global_rounds_len(s, 1, k);
        assert(0 * (pow2(k) as int) + (pow2(k) as int) <= r.len());
        assert(sorted01(r.subrange(0 * (pow2(k) as int), 0 * (pow2(k) as int) + (pow2(k) as int)), theta));
        assert(r.subrange(0, pow2(k) as int) =~= r);
    }
    lemma_sorted_all_thresholds(r);
}

// ---------------------------------------------------------------------------
// Sorted input
// ---------------------------------------------------------------------------

/// No comparator swaps anything in a sorted array.
pub proof fn lemma_stage_sorted(s: Seq<Record>, h: int, flip: bool)
    requires
        h >= 2,
        h % 2 == 0,
        (s.len() as int) % h == 0,
        sorted_keys(s),
    ensures
        stage(s, h, flip) == s,
{
    assert forall|x: int| 0 <= x < s.len() implies #[trigger] stage(s, h, flip)[x] == s[x] by {
        lemma_partner(x, h, flip, s.len() as int);
        let p = partner(x, h, flip);
        if is_lower(x, h) {
            assert(s[x].key <= s[p].key);
        } else {
            assert(s[p].key <= s[x].key);
        }
    }
    assert(stage(s, h, flip) =~= s);
}

pub proof fn lemma_disperse_range_sorted(s: Seq<Record>, hi: nat, lo: nat)
    requires
        (s.len() as int) % (pow2(hi) as int) == 0,
        sorted_keys(s),
    ensures
        disperse_range(s, hi, lo) == s,
    decreases hi,
{
    if hi > lo {
        lemma_pow2_unfold(hi);
        lemma_pow2_pos((hi - 1) as nat);
        lemma_stage_sorted(s, pow2(hi) as int, false);
        lemma_mod_pow2_down(s.len() as int, hi, (hi - 1) as nat);
        lemma_disperse_range_sorted(s, (hi - 1) as nat, lo);
    }
}

pub proof fn lemma_level_step_sorted(s: Seq<Record>, e: nat)
    requires
        e >= 1,
        (s.len() as int) % (pow2(e) as int) == 0,
        sorted_keys(s),
    ensures
        level_step(s, e) == s,
        global_round(s, e) == s,
{
    lemma_pow2_unfold(e);
    lemma_pow2_pos((e - 1) as nat);
    lemma_stage_sorted(s, pow2(e) as int, true);
    lemma_disperse_range_sorted(s, e, 0);
    lemma_mod_pow2_down(s.len() as int, e, (e - 1) as nat);
    lemma_disperse_range_sorted(s, (e - 1) as nat, 0);
}

pub proof fn lemma_local_levels_sorted_input(s: Seq<Record>, e: nat)
    requires
        (s.len() as int) % (pow2(e) as int) == 0,
        sorted_keys(s),
    ensures
        local_levels(s, e) == s,
    decreases e,
{
    if e > 0 {
        lemma_mod_pow2_down(s.len() as int, e, (e - 1) as nat);
        lemma_local_levels_sorted_input(s, (e - 1) as nat);
        lemma_level_step_sorted(s, e);
    }
}

pub proof fn lemma_global_rounds_sorted_input(s: Seq<Record>, e: nat, k: nat)
    requires
        e >= 1,
        s.len() == pow2(k),
        sorted_keys(s),
    ensures
        global_rounds(s, e, k) == s,
    decreases k + 1 - e,
{
    if e <= k {
        lemma_pow2_pos(k);
        lemma_mod_self_0(pow2(k) as int);
        lemma_mod_pow2_down(s.len() as int, k, e);
        lemma_level_step_sorted(s, e);
        lemma_global_rounds_sorted_input(s, e + 1, k);
    }
}

/// The network leaves an array that is already sorted exactly as it is.
pub proof fn lemma_network_sorted_input(s: Seq<Record>, k: nat)
    requires
        LOG_LOCAL_ARRAY_SIZE <= k,
        s.len() == pow2(k),
        sorted_keys(s),
    ensures
        network(s, k) == s,
{
    let l = LOG_LOCAL_ARRAY_SIZE as nat;
    lemma_pow2_pos(k);
    lemma_mod_self_0(pow2(k) as int);
    lemma_mod_pow2_down(s.len() as int, k, l);
    lemma_local_levels_sorted_input(s, l);
    lemma_pow2_unfold(l);
    lemma_global_rounds_sorted_input(s, l, k);
}

} // verus!

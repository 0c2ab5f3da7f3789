//! The stage scheduler and the executors of the bitonic sort.

use vstd::prelude::*;
use vstd::arithmetic::div_mod::*;
use vstd::arithmetic::power2::*;

use crate::solvers::bitonic_network::{
    cascade, disperse_range, lemma_block_offset, lemma_disperse_range_len,
    lemma_disperse_range_restrict, lemma_disperse_range_split, lemma_local_levels_len,
    lemma_local_levels_restrict, lemma_local_levels_sorts_chunks, sorted_keys, global_round,
    global_rounds, network, lemma_global_rounds_len, lemma_network_sorts,
    lemma_network_sorted_input, lemma_all_rounds_sort, lemma_global_rounds_sorted_input,
    lemma_mod_pow2_down, lemma_block_fits, level_step, local_levels, stage, Record,
};

verus! {

/// Number of lanes in a workgroup of the local pass; one workgroup sorts a
/// chunk of twice as many records in its shared memory.
pub const LOCAL_PASS_SIZE: u32 = 512;

/// Number of records in one chunk of the local phase.
pub const LOCAL_ARRAY_SIZE: u32 = 2 * LOCAL_PASS_SIZE;

/// Base-two logarithm of `LOCAL_ARRAY_SIZE`.
pub const LOG_LOCAL_ARRAY_SIZE: u32 = 10;

/// Number of comparator pairs in one workgroup of a global pass.
pub const GLOBAL_PASS_SIZE: u32 = 64;

/// One dispatch of the sort, with the parameters it is issued with.
#[derive(Clone, Copy, Debug, PartialEq, Eq)]
pub enum Stage {
    /// The local phase: the full bitonic network on every chunk, one
    /// workgroup per chunk.
    SortLocal { groups: u32 },
    /// A flip of blocks of height `2^(k - t)` over the whole array.
    FlipGlobal { k: u32, t: u32, groups: u32 },
    /// A disperse of blocks of height `2^q` over the whole array.
    DisperseGlobal { k: u32, q: u32, groups: u32 },
    /// The disperse stages from the height of a chunk down to 2, on every
    /// chunk, one workgroup per chunk.
    DisperseLocal { groups: u32 },
}

/// Why a sort was refused before any work was done.
#[derive(Clone, Copy, Debug, PartialEq, Eq)]
pub enum SortError {
    /// The number of records is not a power of two, or is less than one chunk.
    InvalidLength,
}

/// Which pair a slot at offset `r` of a block of height `h` belongs to, the
/// pairs of a block being numbered by the offset of their lower slot.
pub open spec fn pair_index(r: int, h: int, flip: bool) -> int {
    if r < h / 2 {
        r
    } else if flip {
        h - 1 - r
    } else {
        r - h / 2
    }
}

/// Exchanging two slots keeps the records of a sequence.
proof fn lemma_swap_multiset(s: Seq<Record>, i: int, j: int)
    requires
        0 <= i < s.len(),
        0 <= j < s.len(),
        i != j,
    ensures
        s.update(i, s[j]).update(j, s[i]).to_multiset() == s.to_multiset(),
{
    broadcast use vstd::seq_lib::to_multiset_update;
    broadcast use vstd::multiset::group_multiset_axioms;
    broadcast use vstd::seq_lib::group_to_multiset_ensures;

    assert(s.contains(s[i]));
    assert(s.contains(s[j]));
    let s1 = s.update(i, s[j]);
    assert(s1[j] == s[j]);
    assert(s1.to_multiset() == s.to_multiset().insert(s[j]).remove(s[i]));
    assert(s1.update(j, s[i]).to_multiset() == s1.to_multiset().insert(s[i]).remove(s[j]));
    assert(s.to_multiset().insert(s[j]).remove(s[i]).insert(s[i]).remove(s[j]) =~= s.to_multiset());
}

/// The comparator: swaps the records at `i` and `j`, `i < j`, when the key at
/// `i` is greater than the key at `j`.
pub fn compare_exchange(v: &mut Vec<Record>, i: usize, j: usize)
    requires
        i < j < old(v).len(),
    ensures
        final(v)@ == if old(v)@[i as int].key > old(v)@[j as int].key {
            old(v)@.update(i as int, old(v)@[j as int]).update(j as int, old(v)@[i as int])
        } else {
            old(v)@
        },
        final(v)@.to_multiset() == old(v)@.to_multiset(),
{
    let a = v[i];
    let b = v[j];
    if a.key > b.key {
        proof {
            lemma_swap_multiset(v@, i as int, j as int);
        }
        v.set(i, b);
        v.set(j, a);
    }
}

/// Runs one stage, with blocks of height `h`, on the records at `lo..hi`.
pub fn apply_stage(v: &mut Vec<Record>, lo: usize, hi: usize, h: usize, flip: bool)
    requires
        lo <= hi <= old(v).len(),
        h >= 2,
        h % 2 == 0,
        (hi - lo) as int % (h as int) == 0,
    ensures
        final(v)@.len() == old(v)@.len(),
        final(v)@.subrange(lo as int, hi as int) == stage(
            old(v)@.subrange(lo as int, hi as int),
            h as int,
            flip,
        ),
        forall|x: int|
            0 <= x < old(v)@.len() && !(lo <= x < hi) ==> #[trigger] final(v)@[x] == old(v)@[x],
        final(v)@.to_multiset() == old(v)@.to_multiset(),
{
    let ghost v0 = v@;
    let ghost w = v0.subrange(lo as int, hi as int);
    let ghost target = stage(w, h as int, flip);
    let half = h / 2;
    let mut b: usize = lo;
    proof {
        lemma_small_mod(0, h as nat);
    }
    while b < hi
        invariant
            lo <= b <= hi <= v0.len(),
            h >= 2,
            h % 2 == 0,
            half == h / 2,
            (hi - lo) as int % (h as int) == 0,
            (b - lo) as int % (h as int) == 0,
            w == v0.subrange(lo as int, hi as int),
            target == stage(w, h as int, flip),
            v@.len() == v0.len(),
            forall|x: int| lo <= x < b ==> #[trigger] v@[x] == target[x - lo],
            forall|x: int| 0 <= x < v0.len() && !(lo <= x < b) ==> #[trigger] v@[x] == v0[x],
            v@.to_multiset() == v0.to_multiset(),
        decreases hi - b,
    {
        proof {
            lemma_block_fits(b as int - lo as int, h as int, hi as int - lo as int);
        }
        let mut o: usize = 0;
        while o < half
            invariant
                lo <= b,
                b + h <= hi <= v0.len(),
                h >= 2,
                h % 2 == 0,
                half == h / 2,
                o <= half,
                (b - lo) as int % (h as int) == 0,
                w == v0.subrange(lo as int, hi as int),
                target == stage(w, h as int, flip),
                v@.len() == v0.len(),
                forall|x: int| lo <= x < b ==> #[trigger] v@[x] == target[x - lo],
                forall|x: int|
                    b <= x < b + h ==> #[trigger] v@[x] == if pair_index(x - b, h as int, flip) < o {
                        target[x - lo]
                    } else {
                        v0[x]
                    },
                forall|x: int|
                    0 <= x < v0.len() && !(lo <= x < b + h) ==> #[trigger] v@[x] == v0[x],
                v@.to_multiset() == v0.to_multiset(),
            decreases half - o,
        {
            let i = b + o;
            let j = if flip {
                b + h - 1 - o
            } else {
                b + o + half
            };
            proof {
                lemma_block_offset(b as int - lo as int, o as int, h as int);
                lemma_block_offset(b as int - lo as int, j as int - b as int, h as int);
                assert(v@[i as int] == v0[i as int]);
                assert(v@[j as int] == v0[j as int]);
                assert(w[i - lo] == v0[i as int]);
                assert(w[j - lo] == v0[j as int]);
            }
            compare_exchange(v, i, j);
            o += 1;
        }
        b += h;
        proof {
            lemma_mod_add_multiples_vanish(b as int - h as int - lo as int, h as int);
        }
    }
    assert(v@.subrange(lo as int, hi as int) =~= target);
}


/// `2^e` as a machine integer.
pub fn pow2_usize(e: u32) -> (r: usize)
    requires
        e <= 31,
    ensures
        r == pow2(e as nat),
{
    let mut r: usize = 1;
    let mut i: u32 = 0;
    proof {
        lemma2_to64();
    }
    while i < e
        invariant
            i <= e <= 31,
            r == pow2(i as nat),
        decreases e - i,
    {
        proof {
            lemma_pow2_unfold((i + 1) as nat);
            lemma_pow2_strictly_increases((i + 1) as nat, 32);
            lemma2_to64();
        }
        r = r * 2;
        i = i + 1;
    }
    r
}

/// The disperse stages of heights `2^hi_e` down to `2^(lo_e + 1)` on the
/// records at `lo..hi`.
pub fn disperse_cascade(v: &mut Vec<Record>, lo: usize, hi: usize, hi_e: u32, lo_e: u32)
    requires
        lo <= hi <= old(v).len(),
        hi_e <= 31,
        (hi - lo) as int % (pow2(hi_e as nat) as int) == 0,
    ensures
        final(v)@.len() == old(v)@.len(),
        final(v)@.subrange(lo as int, hi as int) == disperse_range(
            old(v)@.subrange(lo as int, hi as int),
            hi_e as nat,
            lo_e as nat,
        ),
        forall|x: int|
            0 <= x < old(v)@.len() && !(lo <= x < hi) ==> #[trigger] final(v)@[x] == old(v)@[x],
        final(v)@.to_multiset() == old(v)@.to_multiset(),
{
    let ghost v0 = v@;
    let ghost goal = disperse_range(v0.subrange(lo as int, hi as int), hi_e as nat, lo_e as nat);
    let mut q: u32 = hi_e;
    while q > lo_e
        invariant
            lo <= hi <= v0.len(),
            q <= hi_e <= 31,
            (hi - lo) as int % (pow2(q as nat) as int) == 0,
            v@.len() == v0.len(),
            disperse_range(v@.subrange(lo as int, hi as int), q as nat, lo_e as nat) == goal,
            forall|x: int| 0 <= x < v0.len() && !(lo <= x < hi) ==> #[trigger] v@[x] == v0[x],
            v@.to_multiset() == v0.to_multiset(),
        decreases q,
    {
        proof {
            lemma_pow2_unfold(q as nat);
            lemma_pow2_pos((q - 1) as nat);
            lemma_mod_pow2_down((hi - lo) as int, q as nat, (q - 1) as nat);
        }
        let h = pow2_usize(q);
        apply_stage(v, lo, hi, h, false);
        q = q - 1;
    }
}

/// `LOCAL_ARRAY_SIZE` is `2^LOG_LOCAL_ARRAY_SIZE`, and a multiple of every
/// smaller power of two.
pub proof fn lemma_local_size(e: nat)
    requires
        e <= LOG_LOCAL_ARRAY_SIZE,
    ensures
        pow2(LOG_LOCAL_ARRAY_SIZE as nat) == LOCAL_ARRAY_SIZE,
        (LOCAL_ARRAY_SIZE as int) % (pow2(e) as int) == 0,
{
    lemma2_to64();
    lemma_mod_self_0(1024);
    lemma_mod_pow2_down(1024, 10, e);
}

/// The local phase on one chunk: the full bitonic network on the records at
/// `lo..lo + LOCAL_ARRAY_SIZE`.
pub fn sort_local_chunk(v: &mut Vec<Record>, lo: usize)
    requires
        lo + LOCAL_ARRAY_SIZE <= old(v).len(),
    ensures
        final(v)@.len() == old(v)@.len(),
        final(v)@.subrange(lo as int, lo + LOCAL_ARRAY_SIZE) == local_levels(
            old(v)@.subrange(lo as int, lo + LOCAL_ARRAY_SIZE),
            LOG_LOCAL_ARRAY_SIZE as nat,
        ),
        forall|x: int|
            0 <= x < old(v)@.len() && !(lo <= x < lo + LOCAL_ARRAY_SIZE)
                ==> #[trigger] final(v)@[x] == old(v)@[x],
        final(v)@.to_multiset() == old(v)@.to_multiset(),
{
    let ghost v0 = v@;
    let hi = lo + LOCAL_ARRAY_SIZE as usize;
    let ghost c0 = v0.subrange(lo as int, hi as int);
    let mut e: u32 = 1;
    while e <= LOG_LOCAL_ARRAY_SIZE
        invariant
            1 <= e <= LOG_LOCAL_ARRAY_SIZE + 1,
            hi == lo + LOCAL_ARRAY_SIZE,
            hi <= v0.len(),
            c0 == v0.subrange(lo as int, hi as int),
            v@.len() == v0.len(),
            v@.subrange(lo as int, hi as int) == local_levels(c0, (e - 1) as nat),
            forall|x: int| 0 <= x < v0.len() && !(lo <= x < hi) ==> #[trigger] v@[x] == v0[x],
            v@.to_multiset() == v0.to_multiset(),
        decreases LOG_LOCAL_ARRAY_SIZE + 1 - e,
    {
        proof {
            lemma_local_size(e as nat);
            lemma_local_size((e - 1) as nat);
            lemma_pow2_unfold(e as nat);
            lemma_pow2_pos((e - 1) as nat);
        }
        let h = pow2_usize(e);
        apply_stage(v, lo, hi, h, true);
        disperse_cascade(v, lo, hi, e - 1, 0);
        proof {
            assert(local_levels(c0, e as nat) == level_step(local_levels(c0, (e - 1) as nat), e as nat));
        }
        e = e + 1;
    }
}


/// The local phase: the full bitonic network on each of the `count_groups`
/// chunks that make up the array, every chunk on its own.
pub fn sort_local(v: &mut Vec<Record>, count_groups: u32)
    requires
        count_groups as int * LOCAL_ARRAY_SIZE == old(v).len(),
    ensures
        final(v)@ == local_levels(old(v)@, LOG_LOCAL_ARRAY_SIZE as nat),
        forall|c: int|
            0 <= c < count_groups ==> #[trigger] sorted_keys(
                final(v)@.subrange(c * LOCAL_ARRAY_SIZE, c * LOCAL_ARRAY_SIZE + LOCAL_ARRAY_SIZE),
            ),
        final(v)@.to_multiset() == old(v)@.to_multiset(),
{
    let ghost v0 = v@;
    let ghost l = LOG_LOCAL_ARRAY_SIZE as nat;
    let ghost goal = local_levels(v0, l);
    proof {
        lemma_local_levels_len(v0, l);
        lemma_local_size(l);
    }
    let n = v.len();
    let mut c: u32 = 0;
    while c < count_groups
        invariant
            n == v0.len(),
            c <= count_groups,
            count_groups as int * LOCAL_ARRAY_SIZE == v0.len(),
            goal == local_levels(v0, l),
            goal.len() == v0.len(),
            l == LOG_LOCAL_ARRAY_SIZE,
            pow2(l) == LOCAL_ARRAY_SIZE,
            v@.len() == v0.len(),
            forall|x: int| 0 <= x < c * LOCAL_ARRAY_SIZE ==> #[trigger] v@[x] == goal[x],
            forall|x: int| c * LOCAL_ARRAY_SIZE <= x < v0.len() ==> #[trigger] v@[x] == v0[x],
            v@.to_multiset() == v0.to_multiset(),
        decreases count_groups - c,
    {
        proof {
            assert(c * LOCAL_ARRAY_SIZE + LOCAL_ARRAY_SIZE <= count_groups * LOCAL_ARRAY_SIZE)
                by (nonlinear_arith)
                requires c < count_groups;
        }
        let lo = c as usize * LOCAL_ARRAY_SIZE as usize;
        let ghost before = v@;
        sort_local_chunk(v, lo);
        proof {
            assert((c + 1) * LOCAL_ARRAY_SIZE == c * LOCAL_ARRAY_SIZE + LOCAL_ARRAY_SIZE)
                by (nonlinear_arith);
        }
        proof {
            let a = lo as int;
            let m = LOCAL_ARRAY_SIZE as int;
            lemma_mod_multiples_basic(c as int, m);
            lemma_mod_self_0(m);
            lemma_local_levels_restrict(v0, l, a, m);
            assert(before.subrange(a, a + m) =~= v0.subrange(a, a + m));
            assert forall|x: int| a <= x < a + m implies #[trigger] v@[x] == goal[x] by {
                assert(v@[x] == v@.subrange(a, a + m)[x - a]);
                assert(goal[x] == goal.subrange(a, a + m)[x - a]);
            }
        }
        c = c + 1;
    }
    proof {
        assert(v@ =~= goal);
        assert forall|c: int| 0 <= c < count_groups implies #[trigger] sorted_keys(
            v@.subrange(c * LOCAL_ARRAY_SIZE, c * LOCAL_ARRAY_SIZE + LOCAL_ARRAY_SIZE),
        ) by {
            lemma_mod_multiples_basic(count_groups as int, LOCAL_ARRAY_SIZE as int);
            assert(c * LOCAL_ARRAY_SIZE + LOCAL_ARRAY_SIZE <= count_groups * LOCAL_ARRAY_SIZE)
                by (nonlinear_arith)
                requires c < count_groups;
            lemma_local_levels_sorts_chunks(v0, l, c);
        }
    }
}

/// The end of a global round: the disperse stages from the height of a chunk
/// down to 2, on each of the `count_groups` chunks on its own.
pub fn disperse_local(v: &mut Vec<Record>, count_groups: u32)
    requires
        count_groups as int * LOCAL_ARRAY_SIZE == old(v).len(),
    ensures
        final(v)@ == cascade(old(v)@, LOG_LOCAL_ARRAY_SIZE as nat),
        final(v)@.to_multiset() == old(v)@.to_multiset(),
{
    let ghost v0 = v@;
    let ghost l = LOG_LOCAL_ARRAY_SIZE as nat;
    let ghost goal = cascade(v0, l);
    proof {
        lemma_disperse_range_len(v0, l, 0);
        lemma_local_size(l);
    }
    let n = v.len();
    let mut c: u32 = 0;
    while c < count_groups
        invariant
            n == v0.len(),
            c <= count_groups,
            count_groups as int * LOCAL_ARRAY_SIZE == v0.len(),
            goal == cascade(v0, l),
            goal.len() == v0.len(),
            l == LOG_LOCAL_ARRAY_SIZE,
            pow2(l) == LOCAL_ARRAY_SIZE,
            v@.len() == v0.len(),
            forall|x: int| 0 <= x < c * LOCAL_ARRAY_SIZE ==> #[trigger] v@[x] == goal[x],
            forall|x: int| c * LOCAL_ARRAY_SIZE <= x < v0.len() ==> #[trigger] v@[x] == v0[x],
            v@.to_multiset() == v0.to_multiset(),
        decreases count_groups - c,
    {
        proof {
            assert(c * LOCAL_ARRAY_SIZE + LOCAL_ARRAY_SIZE <= count_groups * LOCAL_ARRAY_SIZE)
                by (nonlinear_arith)
                requires c < count_groups;
        }
        let lo = c as usize * LOCAL_ARRAY_SIZE as usize;
        let hi = lo + LOCAL_ARRAY_SIZE as usize;
        let ghost before = v@;
        proof {
            lemma_mod_self_0(LOCAL_ARRAY_SIZE as int);
        }
        disperse_cascade(v, lo, hi, LOG_LOCAL_ARRAY_SIZE, 0);
        proof {
            assert((c + 1) * LOCAL_ARRAY_SIZE == c * LOCAL_ARRAY_SIZE + LOCAL_ARRAY_SIZE)
                by (nonlinear_arith);
        }
        proof {
            let a = lo as int;
            let m = LOCAL_ARRAY_SIZE as int;
            lemma_mod_multiples_basic(c as int, m);
            lemma_disperse_range_restrict(v0, l, 0, a, m);
            assert(before.subrange(a, a + m) =~= v0.subrange(a, a + m));
            assert forall|x: int| a <= x < a + m implies #[trigger] v@[x] == goal[x] by {
                assert(v@[x] == v@.subrange(a, a + m)[x - a]);
                assert(goal[x] == goal.subrange(a, a + m)[x - a]);
            }
        }
        c = c + 1;
    }
    proof {
        assert(v@ =~= goal);
    }
}


/// A flip of the whole array with blocks of height `2^(k - t)`.
pub fn single_flip_global(v: &mut Vec<Record>, t: u32, k: u32)
    requires
        t < k <= 31,
        old(v).len() == pow2(k as nat),
    ensures
        final(v)@ == stage(old(v)@, pow2((k - t) as nat) as int, true),
        final(v)@.to_multiset() == old(v)@.to_multiset(),
{
    let ghost v0 = v@;
    let n = v.len();
    proof {
        lemma_pow2_unfold((k - t) as nat);
        lemma_pow2_pos((k - t - 1) as nat);
        lemma_pow2_pos(k as nat);
        lemma_mod_self_0(pow2(k as nat) as int);
        lemma_mod_pow2_down(n as int, k as nat, (k - t) as nat);
    }
    let h = pow2_usize(k - t);
    apply_stage(v, 0, n, h, true);
    proof {
        assert(v0.subrange(0, n as int) =~= v0);
        assert(v@.subrange(0, n as int) =~= v@);
    }
}

/// A disperse of the whole array with blocks of height `2^q`.
pub fn disperse_global(v: &mut Vec<Record>, q: u32, k: u32)
    requires
        1 <= q <= k <= 31,
        old(v).len() == pow2(k as nat),
    ensures
        final(v)@ == stage(old(v)@, pow2(q as nat) as int, false),
        final(v)@.to_multiset() == old(v)@.to_multiset(),
{
    let ghost v0 = v@;
    let n = v.len();
    proof {
        lemma_pow2_unfold(q as nat);
        lemma_pow2_pos((q - 1) as nat);
        lemma_pow2_pos(k as nat);
        lemma_mod_self_0(pow2(k as nat) as int);
        lemma_mod_pow2_down(n as int, k as nat, q as nat);
    }
    let h = pow2_usize(q);
    apply_stage(v, 0, n, h, false);
    proof {
        assert(v0.subrange(0, n as int) =~= v0);
        assert(v@.subrange(0, n as int) =~= v@);
    }
}

/// The disperse part of the global round for `t`: global disperse stages
/// while blocks are taller than a chunk, then the local disperse of every
/// chunk.
pub fn full_disperse_global(v: &mut Vec<Record>, t: u32, k: u32)
    requires
        t + LOG_LOCAL_ARRAY_SIZE <= k <= 31,
        old(v).len() == pow2(k as nat),
    ensures
        final(v)@ == cascade(old(v)@, (k - t) as nat),
        final(v)@.to_multiset() == old(v)@.to_multiset(),
{
    let ghost v0 = v@;
    let ghost l = LOG_LOCAL_ARRAY_SIZE as nat;
    let n = v.len();
    let mut q: u32 = k - t;
    proof {
        lemma_pow2_pos(k as nat);
        lemma_mod_self_0(pow2(k as nat) as int);
        lemma_mod_pow2_down(n as int, k as nat, (k - t) as nat);
    }
    while q > LOG_LOCAL_ARRAY_SIZE
        invariant
            q <= k - t,
            k <= 31,
            n == v0.len(),
            n == pow2(k as nat),
            v@.len() == n,
            l == LOG_LOCAL_ARRAY_SIZE,
            disperse_range(v@, q as nat, l) == disperse_range(v0, (k - t) as nat, l),
            v@.to_multiset() == v0.to_multiset(),
        decreases q,
    {
        disperse_global(v, q, k);
        q = q - 1;
    }
    let groups = pow2_usize(k - LOG_LOCAL_ARRAY_SIZE) as u32;
    proof {
        lemma_pow2_adds((k - LOG_LOCAL_ARRAY_SIZE) as nat, l);
        lemma2_to64();
        lemma_disperse_range_split(v0, (k - t) as nat, l, 0);
    }
    disperse_local(v, groups);
}

/// `k` with `2^k == n`, for a power of two `n`.
pub open spec fn log2(n: nat) -> nat {
    choose|k: nat| pow2(k) == n
}

/// A length that the sort accepts: a power of two of at least one chunk.
pub open spec fn valid_count(n: nat) -> bool {
    exists|k: nat| LOG_LOCAL_ARRAY_SIZE <= k && pow2(k) == n
}

/// Powers of two differ.
pub proof fn lemma_pow2_injective(a: nat, b: nat)
    requires
        pow2(a) == pow2(b),
    ensures
        a == b,
{
    if a < b {
        lemma_pow2_strictly_increases(a, b);
    } else if b < a {
        lemma_pow2_strictly_increases(b, a);
    }
}

/// The exponent of `n` when `n` is a power of two.
pub fn log2_exact(n: u32) -> (r: Option<u32>)
    ensures
        r.is_some() <==> exists|k: nat| pow2(k) == n,
        r.is_some() ==> r.unwrap() <= 31 && pow2(r.unwrap() as nat) == n && log2(n as nat) == r.unwrap(),
{
    let mut p: u64 = 1;
    let mut k: u32 = 0;
    proof {
        lemma2_to64();
    }
    while p < n as u64
        invariant
            p == pow2(k as nat),
            k <= 33,
            k > 0 ==> pow2((k - 1) as nat) < n,
            p <= 2 * (n as u64) + 1,
        decreases 2 * (n as u64) + 1 - p,
    {
        proof {
            lemma_pow2_unfold((k + 1) as nat);
            lemma_pow2_pos(k as nat);
            if k >= 33 {
                lemma_pow2_strictly_increases(32, k as nat);
                lemma2_to64();
            }
        }
        p = p * 2;
        k = k + 1;
    }
    if p == n as u64 {
        proof {
            if k > 31 {
                lemma_pow2_strictly_increases(31, k as nat);
                lemma2_to64();
                lemma_pow2_unfold(32);
            }
            lemma_pow2_injective(log2(n as nat), k as nat);
        }
        Some(k)
    } else {
        proof {
            assert forall|j: nat| pow2(j) != n by {
                if j < k {
                    if j < (k - 1) as nat {
                        lemma_pow2_strictly_increases(j, (k - 1) as nat);
                    }
                } else if j > k {
                    lemma_pow2_strictly_increases(k as nat, j);
                }
            }
        }
        None
    }
}


/// Checks the number of records of a sort and gives its exponent.
pub fn check_count(count: u32) -> (r: Result<u32, SortError>)
    ensures
        r is Ok <==> valid_count(count as nat),
        r is Ok ==> LOG_LOCAL_ARRAY_SIZE <= r.unwrap() <= 31 && pow2(r.unwrap() as nat) == count
            && log2(count as nat) == r.unwrap(),
        r is Err ==> r == Err::<u32, SortError>(SortError::InvalidLength),
{
    match log2_exact(count) {
        Some(k) => {
            if k >= LOG_LOCAL_ARRAY_SIZE {
                Ok(k)
            } else {
                proof {
                    assert forall|j: nat| !(LOG_LOCAL_ARRAY_SIZE <= j && pow2(j) == count) by {
                        if pow2(j) == count {
                            lemma_pow2_injective(j, k as nat);
                        }
                    }
                }
                Err(SortError::InvalidLength)
            }
        },
        None => Err(SortError::InvalidLength),
    }
}

/// Sorts the records by key: the local phase, then for `t` from
/// `k - LOG_LOCAL_ARRAY_SIZE` down to 0 a global flip and the disperse stages
/// below it, on an array of `2^k` records.
pub fn sort(v: &mut Vec<Record>) -> (r: Result<(), SortError>)
    requires
        old(v).len() <= u32::MAX,
    ensures
        r is Ok <==> valid_count(old(v)@.len()),
        r is Ok ==> final(v)@ == network(old(v)@, log2(old(v)@.len())),
        r is Ok ==> sorted_keys(final(v)@),
        r is Err ==> r == Err::<(), SortError>(SortError::InvalidLength) && final(v)@ == old(v)@,
        final(v)@.to_multiset() == old(v)@.to_multiset(),
        sorted_keys(old(v)@) ==> final(v)@ == old(v)@,
{
    let ghost v0 = v@;
    let count = v.len() as u32;
    let k = match check_count(count) {
        Ok(k) => k,
        Err(e) => {
            return Err(e);
        },
    };
    let ghost l = LOG_LOCAL_ARRAY_SIZE as nat;
    let groups = pow2_usize(k - LOG_LOCAL_ARRAY_SIZE) as u32;
    proof {
        lemma_pow2_adds((k - LOG_LOCAL_ARRAY_SIZE) as nat, l);
        lemma2_to64();
        lemma_pow2_strictly_increases((k - LOG_LOCAL_ARRAY_SIZE) as nat, 32);
    }
    sort_local(v, groups);
    let ghost goal = network(v0, k as nat);
    let mut r: u32 = k - LOG_LOCAL_ARRAY_SIZE + 1;
    proof {
        lemma_local_levels_len(v0, l);
    }
    while r > 0
        invariant
            LOG_LOCAL_ARRAY_SIZE <= k <= 31,
            r <= k - LOG_LOCAL_ARRAY_SIZE + 1,
            v@.len() == pow2(k as nat),
            goal == network(v0, k as nat),
            global_rounds(v@, (k - r + 1) as nat, k as nat) == goal,
            v@.to_multiset() == v0.to_multiset(),
        decreases r,
    {
        let t = r - 1;
        single_flip_global(v, t, k);
        let ghost mid = v@;
        full_disperse_global(v, t, k);
        proof {
            lemma_disperse_range_len(mid, (k - t) as nat, 0);
        }
        r = t;
    }
    proof {
        lemma_network_sorts(v0, k as nat);
        if sorted_keys(v0) {
            lemma_network_sorted_input(v0, k as nat);
        }
    }
    Ok(())
}

/// A length that the reference sorter accepts: any power of two.
pub open spec fn is_pow2(n: nat) -> bool {
    exists|k: nat| pow2(k) == n
}

/// The sequential reference: for every block height `2^e`, from 2 up to the
/// whole array, a flip and the disperse stages from `2^e` down to 2, each on
/// the whole array.
pub fn reference_sort(v: &mut Vec<Record>) -> (r: Result<(), SortError>)
    requires
        old(v).len() <= u32::MAX,
    ensures
        r is Ok <==> is_pow2(old(v)@.len()),
        r is Ok ==> final(v)@ == global_rounds(old(v)@, 1, log2(old(v)@.len())),
        r is Ok ==> sorted_keys(final(v)@),
        r is Err ==> r == Err::<(), SortError>(SortError::InvalidLength) && final(v)@ == old(v)@,
        final(v)@.to_multiset() == old(v)@.to_multiset(),
        sorted_keys(old(v)@) ==> final(v)@ == old(v)@,
{
    let ghost v0 = v@;
    let n = v.len();
    let k = match log2_exact(n as u32) {
        Some(k) => k,
        None => {
            return Err(SortError::InvalidLength);
        },
    };
    let ghost goal = global_rounds(v0, 1, k as nat);
    let mut e: u32 = 1;
    while e <= k
        invariant
            1 <= e <= k + 1,
            k <= 31,
            n == v0.len(),
            v@.len() == n,
            n == pow2(k as nat),
            goal == global_rounds(v0, 1, k as nat),
            global_rounds(v@, e as nat, k as nat) == goal,
            v@.to_multiset() == v0.to_multiset(),
        decreases k + 1 - e,
    {
        single_flip_global(v, k - e, k);
        proof {
            lemma_pow2_pos(k as nat);
            lemma_mod_self_0(pow2(k as nat) as int);
            lemma_mod_pow2_down(n as int, k as nat, e as nat);
            lemma_disperse_range_len(stage(v@, pow2(e as nat) as int, true), e as nat, 0);
        }
        let ghost before = v@;
        disperse_cascade(v, 0, n, e, 0);
        proof {
            assert(before.subrange(0, n as int) =~= before);
            assert(v@.subrange(0, n as int) =~= v@);
        }
        e = e + 1;
    }
    proof {
        lemma_all_rounds_sort(v0, k as nat);
        if sorted_keys(v0) {
            lemma_global_rounds_sorted_input(v0, 1, k as nat);
        }
    }
    Ok(())
}


/// Workgroups of a local dispatch on `2^k` records: one per chunk.
pub open spec fn chunk_groups(k: nat) -> u32 {
    pow2((k - LOG_LOCAL_ARRAY_SIZE) as nat) as u32
}

/// Workgroups of a global dispatch on `2^k` records: `2^(k-1)` pairs, in
/// groups of `GLOBAL_PASS_SIZE`.
pub open spec fn global_groups(k: nat) -> u32 {
    (pow2((k - 1) as nat) / (GLOBAL_PASS_SIZE as nat)) as u32
}

/// The global disperse dispatches for `q` from the given one down to
/// `LOG_LOCAL_ARRAY_SIZE + 1`.
pub open spec fn disperse_stages(k: nat, q: nat) -> Seq<Stage>
    decreases q,
{
    if q <= LOG_LOCAL_ARRAY_SIZE {
        Seq::empty()
    } else {
        seq![Stage::DisperseGlobal { k: k as u32, q: q as u32, groups: global_groups(k) }]
            + disperse_stages(k, (q - 1) as nat)
    }
}

/// The dispatches of the round that merges blocks of height `2^e`.
pub open spec fn round_stages(k: nat, e: nat) -> Seq<Stage> {
    seq![Stage::FlipGlobal { k: k as u32, t: (k - e) as u32, groups: global_groups(k) }]
        + disperse_stages(k, e) + seq![Stage::DisperseLocal { groups: chunk_groups(k) }]
}

/// The dispatches of the rounds for block heights `2^e` up to `2^k`.
pub open spec fn rounds_from(k: nat, e: nat) -> Seq<Stage>
    decreases k + 1 - e,
{
    if e > k {
        Seq::empty()
    } else {
        round_stages(k, e) + rounds_from(k, e + 1)
    }
}

/// Every dispatch of a sort of `2^k` records, in the order they are issued.
pub open spec fn schedule_spec(k: nat) -> Seq<Stage> {
    seq![Stage::SortLocal { groups: chunk_groups(k) }] + rounds_from(k, LOG_LOCAL_ARRAY_SIZE as nat)
}

/// The dispatches of a sort of `count` records, in the order they must be
/// issued, each finished before the next one starts.
pub fn schedule(count: u32) -> (r: Result<Vec<Stage>, SortError>)
    ensures
        r is Ok <==> valid_count(count as nat),
        r is Ok ==> r.unwrap()@ == schedule_spec(log2(count as nat)),
        r is Err ==> r == Err::<Vec<Stage>, SortError>(SortError::InvalidLength),
{
    let k = match check_count(count) {
        Ok(k) => k,
        Err(e) => {
            return Err(e);
        },
    };
    let ghost kk = k as nat;
    proof {
        lemma2_to64();
        lemma_pow2_strictly_increases((k - LOG_LOCAL_ARRAY_SIZE) as nat, 32);
        lemma_pow2_strictly_increases((k - 1) as nat, 32);
    }
    let chunk = pow2_usize(k - LOG_LOCAL_ARRAY_SIZE) as u32;
    let global = (pow2_usize(k - 1) / GLOBAL_PASS_SIZE as usize) as u32;
    let mut out: Vec<Stage> = Vec::new();
    out.push(Stage::SortLocal { groups: chunk });
    let mut r: u32 = k - LOG_LOCAL_ARRAY_SIZE + 1;
    while r > 0
        invariant
            LOG_LOCAL_ARRAY_SIZE <= k <= 31,
            kk == k,
            r <= k - LOG_LOCAL_ARRAY_SIZE + 1,
            chunk == chunk_groups(kk),
            global == global_groups(kk),
            out@ + rounds_from(kk, (k - r + 1) as nat) == schedule_spec(kk),
        decreases r,
    {
        let t = r - 1;
        let ghost e = (k - t) as nat;
        let ghost rest = rounds_from(kk, e + 1);
        proof {
            assert(rounds_from(kk, e) == round_stages(kk, e) + rest);
        }
        out.push(Stage::FlipGlobal { k, t, groups: global });
        proof {
            assert(out@ + disperse_stages(kk, e) + seq![Stage::DisperseLocal { groups: chunk }] + rest
                =~= schedule_spec(kk));
        }
        let mut q: u32 = k - t;
        while q > LOG_LOCAL_ARRAY_SIZE
            invariant
                LOG_LOCAL_ARRAY_SIZE <= k <= 31,
                kk == k,
                q <= 31,
                chunk == chunk_groups(kk),
                global == global_groups(kk),
                out@ + disperse_stages(kk, q as nat) + seq![Stage::DisperseLocal { groups: chunk }]
                    + rest == schedule_spec(kk),
            decreases q,
        {
            let ghost before = out@;
            out.push(Stage::DisperseGlobal { k, q, groups: global });
            proof {
                assert(disperse_stages(kk, q as nat) == seq![
                    Stage::DisperseGlobal { k: k, q: q, groups: global },
                ] + disperse_stages(kk, (q - 1) as nat));
                assert(out@ + disperse_stages(kk, (q - 1) as nat) =~= before + disperse_stages(
                    kk,
                    q as nat,
                ));
            }
            q = q - 1;
        }
        let ghost before = out@;
        out.push(Stage::DisperseLocal { groups: chunk });
        proof {
            assert(disperse_stages(kk, q as nat) =~= Seq::<Stage>::empty());
            assert(out@ + rest =~= before + disperse_stages(kk, q as nat) + seq![
                Stage::DisperseLocal { groups: chunk },
            ] + rest);
        }
        r = t;
    }
    proof {
        assert(rounds_from(kk, (k + 1) as nat) =~= Seq::<Stage>::empty());
        assert(out@ =~= out@ + Seq::<Stage>::empty());
    }
    Ok(out)
}


/// The array lengths that a dispatch can run on.
pub open spec fn stage_fits(st: Stage, n: nat) -> bool {
    match st {
        Stage::SortLocal { groups } => groups * LOCAL_ARRAY_SIZE == n,
        Stage::FlipGlobal { k, t, groups } => t < k <= 31 && pow2(k as nat) == n,
        Stage::DisperseGlobal { k, q, groups } => 1 <= q <= k <= 31 && pow2(k as nat) == n,
        Stage::DisperseLocal { groups } => groups * LOCAL_ARRAY_SIZE == n,
    }
}

/// What a dispatch does to the array.
pub open spec fn stage_effect(s: Seq<Record>, st: Stage) -> Seq<Record> {
    match st {
        Stage::SortLocal { groups } => local_levels(s, LOG_LOCAL_ARRAY_SIZE as nat),
        Stage::FlipGlobal { k, t, groups } => stage(s, pow2((k - t) as nat) as int, true),
        Stage::DisperseGlobal { k, q, groups } => stage(s, pow2(q as nat) as int, false),
        Stage::DisperseLocal { groups } => cascade(s, LOG_LOCAL_ARRAY_SIZE as nat),
    }
}

/// The dispatches run one after the other.
pub open spec fn run_stages(s: Seq<Record>, stages: Seq<Stage>) -> Seq<Record>
    decreases stages.len(),
{
    if stages.len() == 0 {
        s
    } else {
        run_stages(stage_effect(s, stages[0]), stages.drop_first())
    }
}

/// Runs one dispatch on the array.
pub fn run_stage(v: &mut Vec<Record>, st: Stage)
    requires
        stage_fits(st, old(v)@.len()),
    ensures
        final(v)@ == stage_effect(old(v)@, st),
        final(v)@.to_multiset() == old(v)@.to_multiset(),
{
    match st {
        Stage::SortLocal { groups } => sort_local(v, groups),
        Stage::FlipGlobal { k, t, groups } => single_flip_global(v, t, k),
        Stage::DisperseGlobal { k, q, groups } => disperse_global(v, q, k),
        Stage::DisperseLocal { groups } => disperse_local(v, groups),
    }
}

pub proof fn lemma_run_concat(s: Seq<Record>, a: Seq<Stage>, b: Seq<Stage>)
    ensures
        run_stages(s, a + b) == run_stages(run_stages(s, a), b),
    decreases a.len(),
{
    if a.len() == 0 {
        assert(a + b =~= b);
    } else {
        assert((a + b).drop_first() =~= a.drop_first() + b);
        lemma_run_concat(stage_effect(s, a[0]), a.drop_first(), b);
    }
}

proof fn lemma_run_single(s: Seq<Record>, st: Stage)
    ensures
        run_stages(s, seq![st]) == stage_effect(s, st),
{
    let one = seq![st];
    assert(one.len() == 1 && one[0] == st);
    assert(one.drop_first() =~= Seq::<Stage>::empty());
    assert(run_stages(stage_effect(s, st), one.drop_first()) == stage_effect(s, st));
}

proof fn lemma_run_disperse(s: Seq<Record>, k: nat, q: nat)
    requires
        q <= k <= 31,
    ensures
        run_stages(s, disperse_stages(k, q)) == disperse_range(s, q, LOG_LOCAL_ARRAY_SIZE as nat),
    decreases q,
{
    if q > LOG_LOCAL_ARRAY_SIZE {
        let st = Stage::DisperseGlobal { k: k as u32, q: q as u32, groups: global_groups(k) };
        lemma_run_concat(s, seq![st], disperse_stages(k, (q - 1) as nat));
        lemma_run_single(s, st);
        lemma_run_disperse(stage(s, pow2(q) as int, false), k, (q - 1) as nat);
    }
}

proof fn lemma_run_round(s: Seq<Record>, k: nat, e: nat)
    requires
        LOG_LOCAL_ARRAY_SIZE <= e <= k <= 31,
    ensures
        run_stages(s, round_stages(k, e)) == global_round(s, e),
{
    let flip = Stage::FlipGlobal { k: k as u32, t: (k - e) as u32, groups: global_groups(k) };
    let fin = Stage::DisperseLocal { groups: chunk_groups(k) };
    let l = LOG_LOCAL_ARRAY_SIZE as nat;
    let a = stage(s, pow2(e) as int, true);
    lemma_run_concat(s, seq![flip] + disperse_stages(k, e), seq![fin]);
    lemma_run_concat(s, seq![flip], disperse_stages(k, e));
    lemma_run_single(s, flip);
    lemma_run_disperse(a, k, e);
    lemma_run_single(disperse_range(a, e, l), fin);
    lemma_disperse_range_split(a, e, l, 0);
}

proof fn lemma_run_rounds(s: Seq<Record>, k: nat, e: nat)
    requires
        LOG_LOCAL_ARRAY_SIZE <= e,
        k <= 31,
    ensures
        run_stages(s, rounds_from(k, e)) == global_rounds(s, e, k),
    decreases k + 1 - e,
{
    if e <= k {
        lemma_run_concat(s, round_stages(k, e), rounds_from(k, e + 1));
        lemma_run_round(s, k, e);
        lemma_run_rounds(global_round(s, e), k, e + 1);
    }
}

/// Issuing the dispatches of the schedule in order does exactly what the
/// sequential network does.
pub proof fn lemma_schedule_runs_network(s: Seq<Record>, k: nat)
    requires
        LOG_LOCAL_ARRAY_SIZE <= k <= 31,
    ensures
        run_stages(s, schedule_spec(k)) == network(s, k),
{
    let first = Stage::SortLocal { groups: chunk_groups(k) };
    lemma_run_concat(s, seq![first], rounds_from(k, LOG_LOCAL_ARRAY_SIZE as nat));
    lemma_run_single(s, first);
    lemma_run_rounds(local_levels(s, LOG_LOCAL_ARRAY_SIZE as nat), k, LOG_LOCAL_ARRAY_SIZE as nat);
}


/// The sort run through its dispatches gives a sorted array, and so does the
/// sequential reference on the same input.
pub proof fn lemma_cross_validation(s: Seq<Record>, k: nat)
    requires
        LOG_LOCAL_ARRAY_SIZE <= k <= 31,
        s.len() == pow2(k),
    ensures
        sorted_keys(run_stages(s, schedule_spec(k))),
        sorted_keys(global_rounds(s, 1, k)),
{
    lemma_schedule_runs_network(s, k);
    lemma_network_sorts(s, k);
    lemma_all_rounds_sort(s, k);
}

/// On exactly one chunk, the local phase alone sorts the array.
pub proof fn lemma_local_phase_sorts_one_chunk(s: Seq<Record>)
    requires
        s.len() == LOCAL_ARRAY_SIZE,
    ensures
        sorted_keys(local_levels(s, LOG_LOCAL_ARRAY_SIZE as nat)),
{
    let l = LOG_LOCAL_ARRAY_SIZE as nat;
    lemma_local_size(l);
    lemma_mod_self_0(LOCAL_ARRAY_SIZE as int);
    lemma_local_levels_sorts_chunks(s, l, 0);
    lemma_local_levels_len(s, l);
    assert(local_levels(s, l).subrange(0, LOCAL_ARRAY_SIZE as int) =~= local_levels(s, l));
}

/// On two chunks, the local phase sorts each half on its own, and the whole
/// sort sorts the array.
pub proof fn lemma_two_chunks(s: Seq<Record>)
    requires
        s.len() == 2 * LOCAL_ARRAY_SIZE,
    ensures
        sorted_keys(local_levels(s, LOG_LOCAL_ARRAY_SIZE as nat).subrange(0, LOCAL_ARRAY_SIZE as int)),
        sorted_keys(
            local_levels(s, LOG_LOCAL_ARRAY_SIZE as nat).subrange(
                LOCAL_ARRAY_SIZE as int,
                2 * LOCAL_ARRAY_SIZE,
            ),
        ),
        sorted_keys(network(s, (LOG_LOCAL_ARRAY_SIZE + 1) as nat)),
{
    let l = LOG_LOCAL_ARRAY_SIZE as nat;
    lemma_local_size(l);
    lemma_mod_multiples_basic(2, LOCAL_ARRAY_SIZE as int);
    lemma_local_levels_sorts_chunks(s, l, 0);
    lemma_local_levels_sorts_chunks(s, l, 1);
    lemma_pow2_unfold(l + 1);
    lemma_network_sorts(s, l + 1);
}

/// The four bytes of `x`, least significant first.
pub open spec fn le_bytes(x: u32) -> Seq<u8> {
    seq![
        (x % 256) as u8,
        ((x / 256) % 256) as u8,
        ((x / 65536) % 256) as u8,
        (x / 16777216) as u8,
    ]
}

/// The parameter block of a global dispatch: `a` then `b`, each as four
/// bytes, least significant first.
pub fn pack(a: u32, b: u32) -> (r: [u8; 8])
    ensures
        r@ == le_bytes(a) + le_bytes(b),
{
    let r = [
        (a % 256) as u8,
        ((a / 256) % 256) as u8,
        ((a / 65536) % 256) as u8,
        (a / 16777216) as u8,
        (b % 256) as u8,
        ((b / 256) % 256) as u8,
        ((b / 65536) % 256) as u8,
        (b / 16777216) as u8,
    ];
    assert(r@ =~= le_bytes(a) + le_bytes(b));
    r
}

/// Whether the keys are non-decreasing; if not, the index of the first record
/// whose key is smaller than the key before it.
pub fn is_sorted(v: &[Record]) -> (r: Result<(), usize>)
    ensures
        r is Ok <==> sorted_keys(v@),
        r is Err ==> ({
            let i = r->Err_0 as int;
            0 < i < v@.len() && v@[i - 1].key > v@[i].key && sorted_keys(v@.subrange(0, i))
        }),
{
    let mut i: usize = 1;
    if v.len() == 0 {
        return Ok(());
    }
    while i < v.len()
        invariant
            1 <= i <= v@.len(),
            sorted_keys(v@.subrange(0, i as int)),
        decreases v@.len() - i,
    {
        if v[i - 1].key > v[i].key {
            proof {
                assert(!sorted_keys(v@));
            }
            return Err(i);
        }
        proof {
            let p = v@.subrange(0, i as int + 1);
            assert forall|a: int, b: int| 0 <= a <= b < p.len() implies #[trigger] p[a].key
                <= #[trigger] p[b].key by {
                if b == i {
                    if a < i {
                        assert(v@.subrange(0, i as int)[a].key <= v@.subrange(0, i as int)[i - 1].key);
                    }
                } else {
                    assert(v@.subrange(0, i as int)[a].key <= v@.subrange(0, i as int)[b].key);
                }
            }
        }
        i = i + 1;
    }
    proof {
        assert(v@.subrange(0, i as int) =~= v@);
    }
    Ok(())
}

} // verus!

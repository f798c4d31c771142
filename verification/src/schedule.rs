//! Hierarchical block-timestep scheduling.
//!
//! Each particle is bucketed into a power-of-two rate level `L` (0 = the base step, up to
//! [`MAX_LEVEL`]); the caller derives the level from the particle's own dynamical time. The block is
//! cut into `2^top` sub-ticks, `top` being the highest level present, and a level-`L` particle takes
//! one kick-drift-kick step every `2^(top − L)` sub-ticks — so the fast set is sub-stepped while the
//! quiescent set coasts, and everyone is synchronized at the end of the block.

use vstd::prelude::*;
use vstd::arithmetic::power2::{pow2, lemma_pow2_adds, lemma_pow2_pos, lemma2_to64};
use vstd::bits::{lemma_u32_shl_is_mul, lemma_u32_pow2_no_overflow};
use vstd::arithmetic::div_mod::{lemma_fundamental_div_mod, lemma_fundamental_div_mod_converse};

verus! {

/// The fastest bucket: a block is never cut finer than `2^MAX_LEVEL` sub-ticks.
pub const MAX_LEVEL: u32 = 6;

/// The rate levels of a block's particles and the highest level among them.
pub struct BlockSchedule {
    levels: Vec<u32>,
    top: u32,
}

/// `top` is the highest level in `levels` (0 when there are none).
pub open spec fn is_top_level(levels: Seq<u32>, top: u32) -> bool {
    &&& forall|i: int| 0 <= i < levels.len() ==> #[trigger] levels[i] <= top
    &&& (levels.len() == 0 ==> top == 0)
    &&& (levels.len() > 0 ==> exists|i: int| 0 <= i < levels.len() && #[trigger] levels[i] == top)
}

/// Sub-ticks between two kicks of a level-`level` particle when the top level is `top`.
pub open spec fn stride_spec(top: u32, level: u32) -> nat {
    pow2((top - level) as nat)
}

/// A level-`level` particle begins one of its own steps at sub-tick `sub`.
pub open spec fn starts_at(top: u32, level: u32, sub: int) -> bool {
    sub % (stride_spec(top, level) as int) == 0
}

/// A level-`level` particle ends one of its own steps at sub-tick `sub` (needs a fresh force).
pub open spec fn ends_at(top: u32, level: u32, sub: int) -> bool {
    (sub + 1) % (stride_spec(top, level) as int) == 0
}

impl BlockSchedule {
    pub closed spec fn levels_spec(&self) -> Seq<u32> {
        self.levels@
    }

    pub closed spec fn top_spec(&self) -> u32 {
        self.top
    }

    /// Well-formed: every level is within [`MAX_LEVEL`] and `top` is the highest.
    pub open spec fn wf(&self) -> bool {
        &&& forall|i: int| 0 <= i < self.levels_spec().len() ==> #[trigger] self.levels_spec()[i] <= MAX_LEVEL
        &&& is_top_level(self.levels_spec(), self.top_spec())
    }

    /// The number of sub-ticks in the block, `2^top`.
    pub open spec fn sub_ticks_spec(&self) -> nat {
        pow2(self.top_spec() as nat)
    }

    /// Schedule a block for particles at the given rate levels.
    pub fn new(levels: Vec<u32>) -> (s: BlockSchedule)
        requires
            forall|i: int| 0 <= i < levels@.len() ==> #[trigger] levels@[i] <= MAX_LEVEL,
        ensures
            s.wf(),
            s.levels_spec() == levels@,
    {
        let mut top: u32 = 0;
        let mut i: usize = 0;
        while i < levels.len()
            invariant
                i <= levels@.len(),
                forall|k: int| 0 <= k < i ==> #[trigger] levels@[k] <= top,
                i == 0 ==> top == 0,
                i > 0 ==> exists|k: int| 0 <= k < i && #[trigger] levels@[k] == top,
            decreases levels@.len() - i,
        {
            if levels[i] > top {
                top = levels[i];
            }
            i = i + 1;
        }
        BlockSchedule { levels, top }
    }

    /// Number of particles scheduled.
    pub fn len(&self) -> (n: usize)
        ensures
            n == self.levels_spec().len(),
    {
        self.levels.len()
    }

    /// The highest rate level present.
    pub fn top_level(&self) -> (t: u32)
        ensures
            t == self.top_spec(),
    {
        self.top
    }

    /// Sub-ticks the block is cut into.
    pub fn sub_ticks(&self) -> (n: u32)
        requires
            self.wf(),
        ensures
            n == self.sub_ticks_spec(),
            n <= 64,
    {
        proof {
            lemma_top_bounded(self);
            lemma_u32_pow2_no_overflow(self.top as nat);
            lemma_pow2_le64(self.top as nat);
            lemma_u32_shl_is_mul(1, self.top);
        }
        1u32 << self.top
    }

    /// Sub-ticks between consecutive kicks of particle `i` (its own step, in sub-ticks).
    pub fn stride(&self, i: usize) -> (s: u32)
        requires
            self.wf(),
            i < self.levels_spec().len(),
        ensures
            s == stride_spec(self.top_spec(), self.levels_spec()[i as int]),
            1 <= s <= 64,
    {
        let d = self.top - self.levels[i];
        proof {
            lemma_top_bounded(self);
            lemma_u32_pow2_no_overflow(d as nat);
            lemma_pow2_le64(d as nat);
            lemma_pow2_pos(d as nat);
            lemma_u32_shl_is_mul(1, d);
        }
        1u32 << d
    }

    /// Does particle `i` begin one of its own steps at sub-tick `sub`?
    pub fn starts_step(&self, i: usize, sub: u32) -> (b: bool)
        requires
            self.wf(),
            i < self.levels_spec().len(),
        ensures
            b == starts_at(self.top_spec(), self.levels_spec()[i as int], sub as int),
    {
        let s = self.stride(i);
        sub % s == 0
    }

    /// Does particle `i` end one of its own steps at sub-tick `sub` — is it active there?
    pub fn ends_step(&self, i: usize, sub: u32) -> (b: bool)
        requires
            self.wf(),
            i < self.levels_spec().len(),
            sub < self.sub_ticks_spec(),
        ensures
            b == ends_at(self.top_spec(), self.levels_spec()[i as int], sub as int),
    {
        proof {
            lemma_top_bounded(self);
            lemma_pow2_le64(self.top as nat);
        }
        let s = self.stride(i);
        (sub + 1) % s == 0
    }

    /// The active set at sub-tick `sub`: the particles ending one of their own steps there.
    pub fn active_mask(&self, sub: u32) -> (mask: Vec<bool>)
        requires
            self.wf(),
            sub < self.sub_ticks_spec(),
        ensures
            mask@.len() == self.levels_spec().len(),
            forall|i: int|
                0 <= i < mask@.len() ==> #[trigger] mask@[i] == ends_at(self.top_spec(), self.levels_spec()[i], sub as int),
    {
        let mut mask: Vec<bool> = Vec::new();
        let mut i: usize = 0;
        while i < self.levels.len()
            invariant
                self.wf(),
                sub < self.sub_ticks_spec(),
                i <= self.levels_spec().len(),
                mask@.len() == i,
                forall|k: int|
                    0 <= k < i ==> #[trigger] mask@[k] == ends_at(self.top_spec(), self.levels_spec()[k], sub as int),
            decreases self.levels_spec().len() - i,
        {
            let e = self.ends_step(i, sub);
            mask.push(e);
            i = i + 1;
        }
        mask
    }
}

/// The top level of a well-formed schedule is within [`MAX_LEVEL`].
proof fn lemma_top_bounded(s: &BlockSchedule)
    requires
        s.wf(),
    ensures
        s.top_spec() <= MAX_LEVEL,
        forall|i: int| 0 <= i < s.levels_spec().len() ==> #[trigger] s.levels_spec()[i] <= s.top_spec(),
{
    if s.levels_spec().len() > 0 {
        let i = choose|i: int| 0 <= i < s.levels_spec().len() && #[trigger] s.levels_spec()[i] == s.top_spec();
        assert(s.levels_spec()[i] <= MAX_LEVEL);
    }
}

/// Powers of two up to `2^6` are at most 64.
proof fn lemma_pow2_le64(e: nat)
    requires
        e <= 6,
    ensures
        pow2(e) <= 64,
{
    lemma2_to64();
}


/// How many of the sub-ticks `0..m` begin a step of stride `st`.
pub open spec fn count_starts(st: int, m: nat) -> nat
    decreases m,
{
    if m == 0 {
        0
    } else {
        count_starts(st, (m - 1) as nat) + if (m - 1) % st == 0 {
            1nat
        } else {
            0nat
        }
    }
}

proof fn lemma_count_starts(st: int, q: nat, r: nat)
    requires
        st > 0,
        r < st,
    ensures
        count_starts(st, q * st as nat + r) == q + if r > 0 {
            1nat
        } else {
            0nat
        },
    decreases q * st + r,
{
    let m: nat = q * st as nat + r;
    if m == 0 {
        assert(q == 0) by (nonlinear_arith)
            requires
                q * st + r == 0,
                st > 0,
                r >= 0,
                q >= 0,
        ;
    } else if r > 0 {
        lemma_count_starts(st, q, (r - 1) as nat);
        assert((m - 1) as nat == q * st as nat + (r - 1) as nat);
        lemma_fundamental_div_mod_converse((m - 1) as int, st, q as int, (r - 1) as int);
        assert(count_starts(st, m) == count_starts(st, (m - 1) as nat) + if (m - 1) % st == 0 {
            1nat
        } else {
            0nat
        });
    } else {
        assert(q > 0) by (nonlinear_arith)
            requires
                m == q * st + r,
                r == 0,
                m > 0,
                st > 0,
        ;
        let q1: nat = (q - 1) as nat;
        assert(m - 1 == q1 * st + (st - 1)) by (nonlinear_arith)
            requires
                m == q * st,
                q1 == q - 1,
        ;
        lemma_count_starts(st, q1, (st - 1) as nat);
        assert((m - 1) as nat == q1 * st as nat + (st - 1) as nat);
        lemma_fundamental_div_mod_converse((m - 1) as int, st, q1 as int, st - 1);
        assert(count_starts(st, m) == count_starts(st, (m - 1) as nat) + if (m - 1) % st == 0 {
            1nat
        } else {
            0nat
        });
    }
}

/// A level-`L` particle's own steps tile the block exactly: the `2^top` sub-ticks are `2^L` of its
/// strides.
pub proof fn lemma_steps_tile_the_block(top: u32, level: u32)
    requires
        level <= top,
    ensures
        stride_spec(top, level) * pow2(level as nat) == pow2(top as nat),
{
    lemma_pow2_adds((top - level) as nat, level as nat);
}

/// Over one block a level-`L` particle begins exactly `2^L` steps: the fast set is kicked
/// `2^(L)` times as often as the base level, and the base level (L = 0) exactly once.
pub proof fn lemma_kick_count_per_block(top: u32, level: u32)
    requires
        level <= top,
    ensures
        count_starts(stride_spec(top, level) as int, pow2(top as nat)) == pow2(level as nat),
{
    lemma_steps_tile_the_block(top, level);
    lemma_pow2_pos((top - level) as nat);
    let st = stride_spec(top, level);
    let q = pow2(level as nat);
    assert(q * st == st * q) by (nonlinear_arith);
    lemma_count_starts(st as int, q, 0);
}

/// Every particle begins a step at the first sub-tick and ends one at the last: the block starts
/// and finishes synchronized.
pub proof fn lemma_synchronized_at_block_edges(top: u32, level: u32)
    requires
        level <= top,
    ensures
        starts_at(top, level, 0),
        ends_at(top, level, pow2(top as nat) - 1),
{
    lemma_steps_tile_the_block(top, level);
    lemma_pow2_pos((top - level) as nat);
    let st = stride_spec(top, level) as int;
    let q = pow2(level as nat) as int;
    assert(pow2(top as nat) as int == q * st + 0) by (nonlinear_arith)
        requires
            st * q == pow2(top as nat),
    ;
    lemma_fundamental_div_mod_converse(pow2(top as nat) as int, st, q, 0);
    lemma_fundamental_div_mod_converse(0, st, 0, 0);
}

/// A step that begins at sub-tick `s` ends exactly `stride − 1` sub-ticks later, and no other
/// step of the same particle begins or ends in between: each particle is kicked once at each end
/// of every one of its own steps.
pub proof fn lemma_step_spans_its_stride(top: u32, level: u32, s: int, t: int)
    requires
        level <= top,
        s >= 0,
        starts_at(top, level, s),
        s <= t < s + stride_spec(top, level),
    ensures
        ends_at(top, level, t) <==> t == s + stride_spec(top, level) - 1,
        starts_at(top, level, t) <==> t == s,
{
    lemma_pow2_pos((top - level) as nat);
    let st = stride_spec(top, level) as int;
    let q = s / st;
    lemma_fundamental_div_mod(s, st);
    assert(s == q * st) by (nonlinear_arith)
        requires
            s == st * (s / st) + s % st,
            s % st == 0,
            q == s / st,
    ;
    let r = t - s;
    lemma_fundamental_div_mod_converse(t, st, q, r);
    if r + 1 < st {
        lemma_fundamental_div_mod_converse(t + 1, st, q, r + 1);
    } else {
        assert(t + 1 == (q + 1) * st + 0) by (nonlinear_arith)
            requires
                s == q * st,
                t == s + st - 1,
        ;
        lemma_fundamental_div_mod_converse(t + 1, st, q + 1, 0);
    }
}

impl BlockSchedule {
    /// When every particle is quiescent (level 0) the block is one global kick-drift-kick step:
    /// a single sub-tick at which everyone starts and ends.
    pub proof fn lemma_all_slow_is_one_global_step(&self)
        requires
            self.wf(),
            forall|i: int| 0 <= i < self.levels_spec().len() ==> #[trigger] self.levels_spec()[i] == 0,
        ensures
            self.top_spec() == 0,
            self.sub_ticks_spec() == 1,
            forall|i: int|
                0 <= i < self.levels_spec().len() ==> starts_at(self.top_spec(), #[trigger] self.levels_spec()[i], 0)
                    && ends_at(self.top_spec(), self.levels_spec()[i], 0),
    {
        if self.levels_spec().len() > 0 {
            let i = choose|i: int| 0 <= i < self.levels_spec().len() && #[trigger] self.levels_spec()[i] == self.top_spec();
            assert(self.levels_spec()[i] == 0);
        }
        lemma2_to64();
    }

    /// The fastest particles (those at the top level) are active at every sub-tick.
    pub proof fn lemma_top_level_always_active(&self, i: int, sub: int)
        requires
            self.wf(),
            0 <= i < self.levels_spec().len(),
            self.levels_spec()[i] == self.top_spec(),
            0 <= sub,
        ensures
            starts_at(self.top_spec(), self.levels_spec()[i], sub),
            ends_at(self.top_spec(), self.levels_spec()[i], sub),
    {
        lemma2_to64();
        lemma_fundamental_div_mod_converse(sub, 1, sub, 0);
        lemma_fundamental_div_mod_converse(sub + 1, 1, sub + 1, 0);
    }
}

} // verus!

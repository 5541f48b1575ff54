//! Deterministic xoshiro128** pseudo-random number generator.
use vstd::prelude::*;

verus! {

/// The four state words of the generator.
pub struct RandomState {
    pub s0: u32,
    pub s1: u32,
    pub s2: u32,
    pub s3: u32,
}

/// Rotation of a 32-bit word to the left by `k` bits (`0 < k < 32`).
pub open spec fn rotl(x: u32, k: u32) -> u32 {
    ((x << k) | (x >> ((32 - k) as u32))) as u32
}

/// Output word of xoshiro128** for a state.
pub open spec fn raw_output(s: RandomState) -> u32 {
    rotl(s.s0.wrapping_add(s.s3), 7).wrapping_add(s.s0)
}

/// State of xoshiro128** after one step.
pub open spec fn next_state(s: RandomState) -> RandomState {
    let t = (s.s1 << 9u32) as u32;
    let s2 = s.s2 ^ s.s0;
    let s3 = s.s3 ^ s.s1;
    let s1 = s.s1 ^ s2;
    let s0 = s.s0 ^ s3;
    RandomState { s0, s1, s2: s2 ^ t, s3: rotl(s3, 11) }
}

/// Seed scrambling used to derive the initial state words.
pub open spec fn scramble_well(n: u64, add: u32) -> u64 {
    (1812433253u64).wrapping_mul(n ^ (n >> 30u64)).wrapping_add(add as u64)
}

/// Initial state for a seed.
pub open spec fn seeded_state(seed: u32) -> RandomState {
    let s1 = scramble_well(seed as u64, 1) as u32;
    let s2 = scramble_well(s1 as u64, 2) as u32;
    let s3 = scramble_well(s2 as u64, 3) as u32;
    RandomState { s0: seed, s1, s2, s3 }
}

/// One less than the number of redraws after which the rejection loop of
/// the bounded draw gives up and keeps its last draw.
pub open spec fn redraw_limit() -> nat {
    (u64::MAX - 1) as nat
}

/// Redraws of Lemire's method: keeps drawing while the low word is below `t`,
/// at most `fuel` more times. Returns the last product and the state.
pub open spec fn redraw(s: RandomState, n: nat, t: nat, fuel: nat) -> (nat, RandomState)
    decreases fuel,
{
    let m = raw_output(s) as nat * n;
    if fuel == 0 || m % 0x1_0000_0000 >= t {
        (m, next_state(s))
    } else {
        redraw(next_state(s), n, t, (fuel - 1) as nat)
    }
}

/// Draw of Lemire's method for a value in `[0, n)`: the product of the first
/// accepted raw word with `n`, and the state after the draws.
pub open spec fn bounded_draw(s: RandomState, n: nat) -> (nat, RandomState) {
    let m = raw_output(s) as nat * n;
    if m % 0x1_0000_0000 < n && m % 0x1_0000_0000 < 0x1_0000_0000nat % n {
        redraw(next_state(s), n, 0x1_0000_0000nat % n, redraw_limit())
    } else {
        (m, next_state(s))
    }
}

/// Value and state after `next_int(a, b)`.
pub open spec fn next_int_spec(s: RandomState, a: int, b: int) -> (int, RandomState) {
    let d = bounded_draw(s, (b - a + 1) as nat);
    ((d.0 / 0x1_0000_0000) as int + a, d.1)
}

/// Result of Fisher-Yates shuffling the first `i + 1` items of `v`, walking
/// `i` down to 1, together with the final state.
pub open spec fn shuffle_spec<T>(s: RandomState, v: Seq<T>, i: int) -> (Seq<T>, RandomState)
    decreases i,
{
    if i <= 0 {
        (v, s)
    } else {
        let d = next_int_spec(s, 0, i);
        let j = d.0;
        let w = v.update(i, v[j]).update(j, v[i]);
        shuffle_spec(d.1, w, i - 1)
    }
}

/// A xoshiro128** generator.
pub struct Random {
    state: RandomState,
}

fn rotate_left(x: u32, k: u32) -> (r: u32)
    requires
        0 < k < 32,
    ensures
        r == rotl(x, k),
{
    (x << k) | (x >> (32 - k))
}

fn scramble_well_exec(n: u64, add: u32) -> (r: u64)
    ensures
        r == scramble_well(n, add),
{
    (1812433253u64).wrapping_mul(n ^ (n >> 30u64)).wrapping_add(add as u64)
}

proof fn lemma_draw_bound(raw: nat, n: nat)
    requires
        raw < 0x1_0000_0000,
        0 < n,
    ensures
        (raw * n) / 0x1_0000_0000 < n,
        raw * n < 0x1_0000_0000 * n,
{
    assert(raw * n < 0x1_0000_0000 * n) by (nonlinear_arith)
        requires
            raw < 0x1_0000_0000,
            0 < n,
    ;
    assert((raw * n) / 0x1_0000_0000 < n) by (nonlinear_arith)
        requires
            raw * n < 0x1_0000_0000 * n,
    ;
}

proof fn lemma_redraw_bound(s: RandomState, n: nat, t: nat, fuel: nat)
    requires
        0 < n,
    ensures
        redraw(s, n, t, fuel).0 / 0x1_0000_0000 < n,
    decreases fuel,
{
    lemma_draw_bound(raw_output(s) as nat, n);
    if fuel > 0 {
        lemma_redraw_bound(next_state(s), n, t, (fuel - 1) as nat);
    }
}

/// A bounded draw yields a value below `n`.
pub proof fn lemma_bounded_draw_bound(s: RandomState, n: nat)
    requires
        0 < n,
    ensures
        bounded_draw(s, n).0 / 0x1_0000_0000 < n,
{
    lemma_draw_bound(raw_output(s) as nat, n);
    lemma_redraw_bound(next_state(s), n, 0x1_0000_0000nat % n, redraw_limit());
}

/// `next_int(a, b)` draws a value in `[a, b]`; on the empty range
/// `b == a - 1` it yields `a`.
pub proof fn lemma_next_int_range(s: RandomState, a: int, b: int)
    requires
        a <= b + 1,
    ensures
        a <= b ==> a <= next_int_spec(s, a, b).0 <= b,
        a == b + 1 ==> next_int_spec(s, a, b).0 == a,
{
    if a <= b {
        lemma_bounded_draw_bound(s, (b - a + 1) as nat);
    } else {
        assert(raw_output(s) as nat * 0 == 0);
    }
}

/// Exchanging two items of a sequence keeps its multiset of items.
pub proof fn lemma_swap_multiset<T>(s: Seq<T>, i: int, j: int)
    requires
        0 <= i < s.len(),
        0 <= j < s.len(),
    ensures
        s.update(i, s[j]).update(j, s[i]).to_multiset() == s.to_multiset(),
{
    broadcast use {
        vstd::seq_lib::to_multiset_update,
        vstd::multiset::group_multiset_axioms,
        vstd::seq_lib::group_to_multiset_ensures,
    };
    let s1 = s.update(i, s[j]);
    assert(s1.to_multiset() == s.to_multiset().insert(s[j]).remove(s[i]));
    assert(s1.update(j, s[i]).to_multiset() == s1.to_multiset().insert(s[i]).remove(s1[j]));
    if i == j {
        assert(s1 =~= s);
        assert(s1.update(j, s[i]) =~= s);
    } else {
        assert(s1[j] == s[j]);
        assert(s.to_multiset().count(s[i]) > 0);
        assert(s.to_multiset().insert(s[j]).remove(s[i]).insert(s[i]).remove(s[j]) =~= s.to_multiset());
    }
}

impl Random {
    /// Current state of the generator.
    pub closed spec fn spec_state(&self) -> RandomState {
        self.state
    }

    /// Returns the four state words.
    pub fn state(&self) -> (r: [u32; 4])
        ensures
            r@ == seq![self.spec_state().s0, self.spec_state().s1, self.spec_state().s2, self.spec_state().s3],
    {
        [self.state.s0, self.state.s1, self.state.s2, self.state.s3]
    }

    /// Creates a generator whose state is derived from `seed`.
    pub fn new(seed: u32) -> (r: Self)
        ensures
            r.spec_state() == seeded_state(seed),
    {
        let s1 = scramble_well_exec(seed as u64, 1) as u32;
        let s2 = scramble_well_exec(s1 as u64, 2) as u32;
        let s3 = scramble_well_exec(s2 as u64, 3) as u32;
        Random { state: RandomState { s0: seed, s1, s2, s3 } }
    }

    /// Raw 32-bit output; advances the state by one step.
    fn next_raw(&mut self) -> (r: u32)
        ensures
            r == raw_output(old(self).spec_state()),
            final(self).spec_state() == next_state(old(self).spec_state()),
    {
        let s = &self.state;
        let result = rotate_left(s.s0.wrapping_add(s.s3), 7).wrapping_add(s.s0);
        let t = s.s1 << 9u32;
        let s2 = s.s2 ^ s.s0;
        let s3 = s.s3 ^ s.s1;
        let s1 = s.s1 ^ s2;
        let s0 = s.s0 ^ s3;
        let s3r = rotate_left(s3, 11);
        self.state = RandomState { s0, s1, s2: s2 ^ t, s3: s3r };
        result
    }

    /// Lemire's draw of a value in `[0, n)`.
    fn next_int_bounded(&mut self, n: u32) -> (r: u32)
        ensures
            r as nat == bounded_draw(old(self).spec_state(), n as nat).0 / 0x1_0000_0000,
            final(self).spec_state() == bounded_draw(old(self).spec_state(), n as nat).1,
            n > 0 ==> r < n,
            n == 0 ==> r == 0,
    {
        let ghost s0 = self.spec_state();
        if n == 0 {
            let _ = self.next_raw();
            assert(raw_output(s0) as nat * 0 == 0);
            return 0;
        }
        proof {
            lemma_bounded_draw_bound(s0, n as nat);
            lemma_draw_bound(raw_output(s0) as nat, n as nat);
        }
        let raw = self.next_raw();
        let mut m: u64 = (raw as u64) * (n as u64);
        let mut l: u64 = m & 0xffff_ffff;
        assert(m & 0xffff_ffff == m % 0x1_0000_0000) by (bit_vector);
        if l < n as u64 {
            let t: u64 = 0x1_0000_0000u64 % (n as u64);
            let mut fuel: u64 = u64::MAX;
            let ghost target = bounded_draw(s0, n as nat);
            while l < t && fuel > 0
                invariant
                    0 < n,
                    t == 0x1_0000_0000nat % (n as nat),
                    l == m % 0x1_0000_0000,
                    l < t && fuel > 0 ==> redraw(self.spec_state(), n as nat, t as nat, (fuel - 1) as nat) == target,
                    l >= t || fuel == 0 ==> (m as nat, self.spec_state()) == target,
                    m < 0x1_0000_0000 * (n as nat),
                decreases fuel,
            {
                let ghost s = self.spec_state();
                proof {
                    lemma_draw_bound(raw_output(s) as nat, n as nat);
                }
                let raw2 = self.next_raw();
                assert((raw2 as u64) & 0xffff_ffff == raw2 as u64) by (bit_vector);
                m = ((raw2 as u64) & 0xffff_ffff) * (n as u64);
                l = m & 0xffff_ffff;
                assert(m & 0xffff_ffff == m % 0x1_0000_0000) by (bit_vector);
                fuel = fuel - 1;
            }
            proof {
                lemma_draw_bound(0, n as nat);
            }
            assert(m >> 32 == m / 0x1_0000_0000) by (bit_vector);
            assert((m as nat) / 0x1_0000_0000 < n) by {
                lemma_bounded_draw_bound(s0, n as nat);
            }
            (m >> 32) as u32
        } else {
            assert(m >> 32 == m / 0x1_0000_0000) by (bit_vector);
            (m >> 32) as u32
        }
    }

    /// Uniform draw of an integer in `[a, b]`. An empty range (`b == a - 1`)
    /// consumes one raw word and yields `a`.
    pub fn next_int(&mut self, a: i32, b: i32) -> (r: i32)
        requires
            a <= b + 1,
            b - a + 1 <= i32::MAX,
        ensures
            (r as int, final(self).spec_state()) == next_int_spec(old(self).spec_state(), a as int, b as int),
            a <= b ==> a <= r <= b,
            a == b + 1 ==> r == a,
    {
        let range = (b - a + 1) as u32;
        let v = self.next_int_bounded(range);
        v as i32 + a
    }

    /// The 24 high bits of the next raw output; `next_float` is this value
    /// times 2^-24.
    pub fn next_float_bits(&mut self) -> (r: u32)
        ensures
            r == raw_output(old(self).spec_state()) >> 8u32,
            r < 0x100_0000,
            final(self).spec_state() == next_state(old(self).spec_state()),
    {
        let raw = self.next_raw();
        assert(raw >> 8u32 < 0x100_0000) by (bit_vector);
        raw >> 8u32
    }

    /// Fisher-Yates shuffle of `v`.
    pub fn shuffle<T: Copy>(&mut self, v: &mut Vec<T>)
        requires
            old(v).len() <= i32::MAX,
        ensures
            (final(v)@, final(self).spec_state()) == shuffle_spec(old(self).spec_state(), old(v)@, old(v).len() - 1),
            final(v)@.to_multiset() == old(v)@.to_multiset(),
    {
        let n = v.len();
        if n == 0 {
            return;
        }
        let mut i = n - 1;
        let ghost target = shuffle_spec(self.spec_state(), v@, n - 1);
        while i > 0
            invariant
                v.len() == n,
                i < n,
                n <= i32::MAX,
                shuffle_spec(self.spec_state(), v@, i as int) == target,
                v@.to_multiset() == old(v)@.to_multiset(),
            decreases i,
        {
            let j = self.next_int(0, i as i32) as usize;
            let vi = v[i];
            let vj = v[j];
            let ghost before = v@;
            v.set(i, vj);
            v.set(j, vi);
            proof {
                assert(v@ == before.update(i as int, before[j as int]).update(j as int, before[i as int]));
                lemma_swap_multiset(before, i as int, j as int);
            }
            i = i - 1;
        }
    }
}

} // verus!

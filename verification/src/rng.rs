//! A SplitMix64 generator: small, fast, and replayable from its seed.
use vstd::prelude::*;

verus! {

/// Added to the state on every draw.
pub const GOLDEN_GAMMA: u64 = 0x9e37_79b9_7f4a_7c15;

/// The two multipliers of the SplitMix64 finaliser.
pub const MIX_A: u64 = 0xbf58_476d_1ce4_e5b9;
pub const MIX_B: u64 = 0x94d0_49bb_1331_11eb;

/// The state after one draw.
pub open spec fn advance(state: u64) -> u64 {
    ((state as nat + GOLDEN_GAMMA as nat) % 0x1_0000_0000_0000_0000) as u64
}

/// The SplitMix64 finaliser, applied to the advanced state.
#[verifier::opaque]
pub open spec fn mix(z: u64) -> u64 {
    let a = (((z ^ (z >> 30u64)) as nat * MIX_A as nat) % 0x1_0000_0000_0000_0000) as u64;
    let b = (((a ^ (a >> 27u64)) as nat * MIX_B as nat) % 0x1_0000_0000_0000_0000) as u64;
    b ^ (b >> 31u64)
}

/// The word drawn from a generator in state `state`.
pub open spec fn draw(state: u64) -> u64 {
    mix(advance(state))
}

/// `x` read as a fraction of 2^64, scaled onto `0..n`.
#[verifier::opaque]
pub open spec fn scale(x: u64, n: usize) -> usize {
    ((x as nat * n as nat) / 0x1_0000_0000_0000_0000) as usize
}

/// The result of `below(n)` from a generator in state `state`.
pub open spec fn below_from(state: u64, n: usize) -> usize {
    scale(draw(state), n)
}

pub struct Rng(u64);

impl View for Rng {
    type V = u64;

    /// The generator's state word.
    closed spec fn view(&self) -> u64 {
        self.0
    }
}

impl Rng {
    pub fn new(seed: u64) -> (r: Self)
        ensures
            r@ == seed,
    {
        Rng(seed)
    }

    pub fn next_u64(&mut self) -> (r: u64)
        ensures
            final(self)@ == advance(old(self)@),
            r == draw(old(self)@),
    {
        proof {
            reveal(mix);
        }
        self.0 = self.0.wrapping_add(GOLDEN_GAMMA);
        let mut z = self.0;
        z = (z ^ (z >> 30u64)).wrapping_mul(MIX_A);
        z = (z ^ (z >> 27u64)).wrapping_mul(MIX_B);
        z ^ (z >> 31u64)
    }

    /// A draw scaled onto `0..n` by the high half of a 128-bit product.
    pub fn below(&mut self, n: usize) -> (r: usize)
        ensures
            final(self)@ == advance(old(self)@),
            r == below_from(old(self)@, n),
            n > 0 ==> r < n,
            n == 0 ==> r == 0,
    {
        let x = self.next_u64();
        proof {
            lemma_scale_below(x, n);
            reveal(scale);
        }
        let wide: u128 = (x as u128) * (n as u128);
        let high: u128 = wide >> 64u128;
        proof {
            assert(wide >> 64u128 == wide / 0x1_0000_0000_0000_0000) by (bit_vector);
        }
        high as usize
    }
}

/// Two generators in the same state draw the same word and move to the same state, so a
/// seed replays the same sequence.
pub proof fn lemma_same_seed_replays(a: u64, b: u64)
    requires
        a == b,
    ensures
        draw(a) == draw(b),
        advance(a) == advance(b),
{
}

/// The state after `k` draws from state `state`.
pub open spec fn advanced_by(state: u64, k: nat) -> u64
    decreases k,
{
    if k == 0 {
        state
    } else {
        advance(advanced_by(state, (k - 1) as nat))
    }
}

/// After `k` draws from seed `s` the state is `s + k·γ` modulo 2^64, so the next word
/// drawn is the finaliser applied to `s + (k + 1)·γ`.
pub proof fn lemma_kth_draw(s: u64, k: nat)
    ensures
        advanced_by(s, k) == ((s as nat + k * GOLDEN_GAMMA as nat) % 0x1_0000_0000_0000_0000) as u64,
        draw(advanced_by(s, k)) == mix(((s as nat + (k + 1) * GOLDEN_GAMMA as nat) % 0x1_0000_0000_0000_0000) as u64),
    decreases k,
{
    let m: int = 0x1_0000_0000_0000_0000;
    let g = GOLDEN_GAMMA as int;
    if k == 0 {
        vstd::arithmetic::div_mod::lemma_small_mod(s as nat, m as nat);
    } else {
        lemma_kth_draw(s, (k - 1) as nat);
        let before = s as int + (k - 1) * g;
        vstd::arithmetic::div_mod::lemma_add_mod_noop(before, g, m);
        vstd::arithmetic::div_mod::lemma_small_mod(g as nat, m as nat);
        vstd::arithmetic::div_mod::lemma_mod_bound(before, m);
        assert(before + g == s as int + k * g) by (nonlinear_arith)
            requires before == s as int + (k - 1) * g;
    }
    let now = s as int + k * g;
    vstd::arithmetic::div_mod::lemma_add_mod_noop(now, g, m);
    vstd::arithmetic::div_mod::lemma_small_mod(g as nat, m as nat);
    vstd::arithmetic::div_mod::lemma_mod_bound(now, m);
    assert(now + g == s as int + (k + 1) * g) by (nonlinear_arith)
        requires now == s as int + k * g;
}

/// A draw scaled onto `0..n` keeps the draw's place: it is the `n`-th part of the 64-bit
/// range the word falls in, so a larger word never scales lower, 0 scales to 0 and the
/// largest word to the top of the range.
pub proof fn lemma_scale_keeps_order(x: u64, other: u64, n: usize)
    ensures
        scale(x, n) * 0x1_0000_0000_0000_0000 <= (x as nat) * (n as nat),
        (x as nat) * (n as nat) < (scale(x, n) + 1) * 0x1_0000_0000_0000_0000,
        x <= other ==> scale(x, n) <= scale(other, n),
        scale(0, n) == 0,
        n > 0 ==> scale(0xffff_ffff_ffff_ffff, n) == n - 1,
{
    reveal(scale);
    let m: int = 0x1_0000_0000_0000_0000;
    lemma_scaled_fits(x, n);
    lemma_scaled_fits(other, n);
    vstd::arithmetic::div_mod::lemma_fundamental_div_mod(x as int * n as int, m);
    vstd::arithmetic::div_mod::lemma_mod_bound(x as int * n as int, m);
    if x <= other {
        assert(x as int * n as int <= other as int * n as int) by (nonlinear_arith)
            requires x <= other, n >= 0;
        vstd::arithmetic::div_mod::lemma_div_is_ordered(x as int * n as int, other as int * n as int, m);
    }
    if n > 0 {
        let top = 0xffff_ffff_ffff_ffffint * n as int;
        assert(top == (n - 1) * m + (m - n)) by (nonlinear_arith)
            requires top == 0xffff_ffff_ffff_ffffint * n as int, m == 0x1_0000_0000_0000_0000int;
        vstd::arithmetic::div_mod::lemma_fundamental_div_mod_converse(top, m, n - 1, m - n);
    }
}

/// The scaled product is at most `n`, so reading it as a `usize` keeps it.
proof fn lemma_scaled_fits(x: u64, n: usize)
    ensures
        (x as int * n as int) / 0x1_0000_0000_0000_0000 <= n,
        scale(x, n) == (x as int * n as int) / 0x1_0000_0000_0000_0000,
{
    reveal(scale);
    let m: int = 0x1_0000_0000_0000_0000;
    let p = x as int * n as int;
    vstd::arithmetic::div_mod::lemma_fundamental_div_mod(p, m);
    vstd::arithmetic::div_mod::lemma_mod_bound(p, m);
    let q = p / m;
    assert(p <= n * m) by (nonlinear_arith)
        requires p == x as int * n as int, 0 <= x < m, n >= 0;
    assert(q <= n) by (nonlinear_arith)
        requires p == m * q + p % m, 0 <= p % m, p <= n * m, m > 0;
    vstd::arithmetic::div_mod::lemma_div_pos_is_pos(p, m);
}

/// A scaled draw always lands inside its range.
pub proof fn lemma_scale_below(x: u64, n: usize)
    ensures
        x as nat * n as nat <= u128::MAX,
        n > 0 ==> scale(x, n) < n,
        n == 0 ==> scale(x, n) == 0,
        (x as nat * n as nat) / 0x1_0000_0000_0000_0000 < 0x1_0000_0000_0000_0000,
{
    reveal(scale);
    assert(x as nat * n as nat <= 0xffff_ffff_ffff_ffff * 0xffff_ffff_ffff_ffff) by (nonlinear_arith);
    assert(x as nat * n as nat <= n as nat * 0xffff_ffff_ffff_ffff) by (nonlinear_arith);
    assert((x as nat * n as nat) / 0x1_0000_0000_0000_0000 <= n as nat) by (nonlinear_arith)
        requires x as nat * n as nat <= n as nat * 0xffff_ffff_ffff_ffff;
    if n > 0 {
        assert((x as nat * n as nat) / 0x1_0000_0000_0000_0000 < n as nat) by (nonlinear_arith)
            requires x as nat * n as nat <= n as nat * 0xffff_ffff_ffff_ffff, n > 0;
    }
}

} // verus!

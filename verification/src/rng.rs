use vstd::prelude::*;

use vstd::arithmetic::div_mod::lemma_small_mod;

verus! {

/// One step of the xorshift generator with shifts 13, 7 and 17.
pub open spec fn xorshift_step(x: u64) -> u64 {
    let a = x ^ (x << 13u64);
    let b = a ^ (a >> 7u64);
    b ^ (b << 17u64)
}

/// The state reached from `s` after `k` steps.
pub open spec fn state_after(s: u64, k: nat) -> u64
    decreases k,
{
    if k == 0 {
        s
    } else {
        xorshift_step(state_after(s, (k - 1) as nat))
    }
}

/// An index in `[0, n)` drawn from the value `x`.
pub open spec fn index_from(x: u64, n: usize) -> usize {
    (x % (n as u64)) as usize
}

/// A cost in hundredths drawn from `x`: a value in `[1, 999]`.
pub open spec fn cents_from(x: u64) -> u32 {
    (x % 999 + 1) as u32
}

/// Law: the index drawn from `x` is `x` reduced modulo `n`, so every index
/// in `[0, n)` can be drawn.
pub proof fn lemma_index_from_is_remainder(x: u64, n: usize)
    requires
        n > 0,
    ensures
        index_from(x, n) as int == (x as int) % (n as int),
        index_from(x, n) < n,
        forall|i: u64| i < n ==> #[trigger] index_from(i, n) == i,
{
    assert forall|i: u64| i < n implies #[trigger] index_from(i, n) == i by {
        lemma_small_mod(i as nat, n as nat);
    }
}

/// Law: the cost drawn from `x` is `x` reduced modulo `999`, plus one.
pub proof fn lemma_cents_from_is_remainder(x: u64)
    ensures
        cents_from(x) as int == (x as int) % 999 + 1,
        1 <= cents_from(x) <= 999,
{
}

/// Law: `k + 1` steps from `s` are one step from the state after `k` steps.
pub proof fn lemma_state_after_step(s: u64, k: nat)
    ensures
        state_after(s, k + 1) == xorshift_step(state_after(s, k)),
        state_after(s, 0) == s,
{
}

/// A 64-bit xorshift pseudo-random stream.
///
/// The stream starts from the given seed unchanged (a zero seed yields zeros
/// forever), and each draw advances the state by one `xorshift_step` and
/// returns the new state.
pub struct XorShift64 {
    state: u64,
}

impl XorShift64 {
    /// The current state of the stream.
    pub closed spec fn state(&self) -> u64 {
        self.state
    }

    /// A stream whose state is `seed`.
    pub fn new(seed: u64) -> (rng: Self)
        ensures
            rng.state() == seed,
    {
        XorShift64 { state: seed }
    }

    /// Advances the stream by one step and returns the new state.
    pub fn next_value(&mut self) -> (x: u64)
        ensures
            final(self).state() == xorshift_step(old(self).state()),
            x == final(self).state(),
    {
        let mut x: u64 = self.state;
        x = x ^ (x << 13u64);
        x = x ^ (x >> 7u64);
        x = x ^ (x << 17u64);
        self.state = x;
        x
    }
}

/// Draws a random index in `[0, n)` from the stream.
pub fn random_index(rng: &mut XorShift64, n: usize) -> (i: usize)
    requires
        n > 0,
    ensures
        final(rng).state() == xorshift_step(old(rng).state()),
        i == index_from(final(rng).state(), n),
        i < n,
        i as int == (xorshift_step(old(rng).state()) as int) % (n as int),
{
    let n_u64: u64 = n as u64;
    let raw: u64 = rng.next_value() % n_u64;
    raw as usize
}

/// Draws a random cost in hundredths, in `[1, 999]`, from the stream.
pub fn random_cost_cents(rng: &mut XorShift64) -> (c: u32)
    ensures
        final(rng).state() == xorshift_step(old(rng).state()),
        c == cents_from(final(rng).state()),
        1 <= c <= 999,
        c as int == (xorshift_step(old(rng).state()) as int) % 999 + 1,
{
    let raw: u64 = rng.next_value() % 999 + 1;
    raw as u32
}

} // verus!

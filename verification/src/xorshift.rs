use vstd::prelude::*;

verus! {

/// One xorshift scramble of the first state word.
pub open spec fn scramble(x: i64) -> i64 {
    let a = x ^ (x << 13u64);
    let b = a ^ (a >> 17u64);
    b ^ (b << 5u64)
}

/// The constant added (with wrap-around) to the second state word at every draw.
pub open spec fn weyl_step() -> i64 {
    123456789123456789i64
}

/// The state that follows `s` after one draw.
pub open spec fn advance(s: (i64, i64)) -> (i64, i64) {
    (scramble(s.0), s.1.wrapping_add(weyl_step()))
}

/// The value a draw returns, read off the state the draw produced.
pub open spec fn output(s: (i64, i64)) -> i64 {
    s.0.wrapping_add(s.1)
}

/// The value of `next_in_range(range)` drawn from raw output `raw`:
/// the low 28 bits of the raw draw, reduced modulo `|range|`.
pub open spec fn reduce_in_range(raw: i64, range: i32) -> int {
    (raw & 0xFFFFFFFi64) as int % (if range < 0 { -range } else { range as int })
}

/// A small, fast pseudo-random generator (xorshift combined with a Weyl sequence).
#[allow(non_camel_case_types)]
#[derive(Debug, Clone)]
pub struct xorshift {
    x: i64,
    y: i64,
}

impl xorshift {
    /// The generator's two state words.
    pub closed spec fn state(&self) -> (i64, i64) {
        (self.x, self.y)
    }

    pub fn new(seed: i64) -> (r: Self)
        ensures
            r.state() == (seed | 1i64, seed),
    {
        xorshift { x: seed | 1, y: seed }
    }

    pub fn next(&mut self) -> (r: i64)
        ensures
            final(self).state() == advance(old(self).state()),
            r == output(final(self).state()),
    {
        self.x ^= self.x << 13;
        self.x ^= self.x >> 17;
        self.x ^= self.x << 5;
        self.y = self.y.wrapping_add(123456789123456789);
        self.x.wrapping_add(self.y)
    }

    pub fn next_in_range(&mut self, range: i32) -> (r: i32)
        requires
            range != 0,
        ensures
            final(self).state() == advance(old(self).state()),
            r == reduce_in_range(output(final(self).state()), range),
            0 <= r,
            r < range || r < -range,
    {
        let raw = self.next();
        let n = raw & 0xFFFFFFF;
        assert(0 <= n <= 0xFFFFFFFi64) by (bit_vector)
            requires n == raw & 0xFFFFFFFi64;
        let m = n as i32;
        let r = m % range;
        proof {
            if range < 0 {
                let (a, b) = (m as int, range as int);
                assert(a % b == a % (-b)) by (nonlinear_arith)
                    requires b < 0, a >= 0;
            }
        }
        r
    }
}


/// `k` scrambles of `x`.
pub open spec fn scramble_n(x: i64, k: nat) -> i64
    decreases k,
{
    if k == 0 {
        x
    } else {
        scramble(scramble_n(x, (k - 1) as nat))
    }
}

/// The state after `k` draws from state `s`.
pub open spec fn advance_n(s: (i64, i64), k: nat) -> (i64, i64)
    decreases k,
{
    if k == 0 {
        s
    } else {
        advance(advance_n(s, (k - 1) as nat))
    }
}

/// The state of a generator made from `seed`.
pub open spec fn seeded(seed: i64) -> (i64, i64) {
    (seed | 1i64, seed)
}

/// 2^64, the modulus of the wrapping additions.
pub open spec fn word() -> int {
    0x1_0000_0000_0000_0000
}

/// After `k` draws from a generator made from `seed`, the first state word is `seed | 1`
/// scrambled `k` times and the second is `seed + k * 123456789123456789` modulo 2^64; the `k`-th
/// draw returned their sum modulo 2^64.
pub proof fn lemma_draws_closed_form(seed: i64, k: nat)
    ensures
        advance_n(seeded(seed), k).0 == scramble_n(seed | 1i64, k),
        (advance_n(seeded(seed), k).1 - seed - k * weyl_step()) % word() == 0,
        k > 0 ==> (output(advance_n(seeded(seed), k)) - scramble_n(seed | 1i64, k) - seed - k * weyl_step())
            % word() == 0,
    decreases k,
{
    let m = word();
    if k > 0 {
        lemma_draws_closed_form(seed, (k - 1) as nat);
        let prev = advance_n(seeded(seed), (k - 1) as nat).1;
        let cur = advance_n(seeded(seed), k).1;
        let a = prev - seed - (k - 1) * weyl_step();
        let b = cur - seed - k * weyl_step();
        assert(b == a || b == -m + a || b == m + a);
        vstd::arithmetic::div_mod::lemma_mod_sub_multiples_vanish(a, m);
        vstd::arithmetic::div_mod::lemma_mod_add_multiples_vanish(a, m);
        let x = scramble_n(seed | 1i64, k);
        let o = output(advance_n(seeded(seed), k));
        let c = o - x - seed - k * weyl_step();
        assert(c == b || c == -m + b || c == m + b);
        vstd::arithmetic::div_mod::lemma_mod_sub_multiples_vanish(b, m);
        vstd::arithmetic::div_mod::lemma_mod_add_multiples_vanish(b, m);
    }
}

} // verus!

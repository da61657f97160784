use vstd::arithmetic::div_mod::{
    lemma_add_mod_noop, lemma_add_mod_noop_right, lemma_fundamental_div_mod,
    lemma_mod_add_multiples_vanish, lemma_mod_bound, lemma_mod_multiples_vanish,
    lemma_mul_mod_noop_left, lemma_mul_mod_noop_right, lemma_small_mod, lemma_sub_mod_noop,
};
use vstd::prelude::*;
use vstd::slice::slice_index_get;

verus! {

/// Base of the polynomial hash: one more than the number of byte values.
pub const HASH_BASE: u64 = 257;

/// Large prime modulus keeping hash values well spread.
pub const HASH_MODULUS: u64 = 1_000_000_007;

/// The polynomial hash of a whole sequence: each step multiplies the
/// accumulated value by the base, adds the next element and reduces.
pub open spec fn poly_hash(s: Seq<u64>) -> int
    decreases s.len(),
{
    if s.len() == 0 {
        0
    } else {
        (poly_hash(s.drop_last()) * (HASH_BASE as int) + s.last()) % (HASH_MODULUS as int)
    }
}

/// `HASH_BASE ^ e` reduced by the modulus at every step.
pub open spec fn pow_mod(e: nat) -> int
    decreases e,
{
    if e == 0 {
        1int % (HASH_MODULUS as int)
    } else {
        (pow_mod((e - 1) as nat) * (HASH_BASE as int)) % (HASH_MODULUS as int)
    }
}

/// The exponent the precomputed power uses: one less than the window
/// size, floored at zero.
pub open spec fn power_exponent(window_size: nat) -> nat {
    if window_size == 0 {
        0
    } else {
        (window_size - 1) as nat
    }
}

/// What one slide of the window does to the hash value: the outgoing
/// element's contribution is subtracted, the rest is shifted by the
/// base, and the incoming element is added, all modulo the modulus.
pub open spec fn roll_value(hash: int, old_value: u64, new_value: u64, base_power: int) -> int {
    let m = HASH_MODULUS as int;
    let without_old = (hash - (old_value as int * base_power) % m) % m;
    (without_old * (HASH_BASE as int) + new_value) % m
}

/// Rabin-Karp rolling hash over a fixed-size window of 64-bit values.
pub struct RollingHash {
    /// Base for the polynomial hash.
    base: u64,
    /// Prime modulus reducing every intermediate value.
    modulus: u64,
    /// Current hash value.
    hash: u64,
    /// Number of elements a window spans.
    window_size: usize,
    /// `base ^ (window_size - 1)` modulo the modulus, precomputed once
    /// so the outgoing element can be removed in constant time.
    base_power: u64,
}

impl RollingHash {
    /// The constants a well-formed hasher carries.
    pub closed spec fn wf(&self) -> bool {
        &&& self.base == HASH_BASE
        &&& self.modulus == HASH_MODULUS
        &&& self.hash < HASH_MODULUS
        &&& self.base_power == pow_mod(power_exponent(self.window_size as nat))
    }

    /// The window size this hasher was created with.
    pub closed spec fn spec_window_size(&self) -> nat {
        self.window_size as nat
    }

    /// The current hash value, as the mathematics sees it.
    pub closed spec fn spec_hash(&self) -> int {
        self.hash as int
    }

    /// Create a rolling hash for windows of the given size.
    pub fn new(window_size: usize) -> (r: Self)
        ensures
            r.wf(),
            r.spec_window_size() == window_size,
            r.spec_hash() == 0,
    {
        let base: u64 = HASH_BASE;
        let modulus: u64 = HASH_MODULUS;

        let steps: usize = if window_size == 0 { 0 } else { window_size - 1 };
        let mut base_power: u64 = 1;
        let mut k: usize = 0;
        assert(1int % (HASH_MODULUS as int) == 1) by {
            lemma_small_mod(1nat, HASH_MODULUS as nat);
        }
        while k < steps
            invariant
                k <= steps,
                base_power == pow_mod(k as nat),
                base_power < HASH_MODULUS,
            decreases steps - k,
        {
            base_power = Self::mul_mod(base_power, HASH_BASE, HASH_MODULUS);
            k = k + 1;
        }
        assert(steps as nat == power_exponent(window_size as nat));

        Self { base, modulus, hash: 0, window_size, base_power }
    }

    /// Start a window over the first `window_size` values of the slice
    /// (over all of them when the slice is shorter).
    pub fn init(&mut self, values: &[u64])
        requires
            old(self).wf(),
        ensures
            final(self).wf(),
            final(self).spec_window_size() == old(self).spec_window_size(),
            final(self).spec_hash() == poly_hash(
                values@.take(
                    vstd::math::min(old(self).spec_window_size() as int, values@.len() as int),
                ),
            ),
    {
        let n = values.len();
        let count: usize = if self.window_size < n { self.window_size } else { n };
        self.hash = 0;
        let ghost orig = *self;
        let mut i: usize = 0;
        assert(values@.take(0int) =~= Seq::<u64>::empty());
        while i < count
            invariant
                i <= count,
                count <= values@.len(),
                self.wf(),
                self.window_size == orig.window_size,
                self.base_power == orig.base_power,
                self.hash == poly_hash(values@.take(i as int)),
                self.modulus == HASH_MODULUS,
                self.base == HASH_BASE,
            decreases count - i,
        {
            let val = *slice_index_get(values, i);
            let shifted = Self::mul_mod(self.hash, self.base, self.modulus);
            let mixed = Self::add_mod(shifted, val, self.modulus);
            proof {
                let prefix = values@.take(i as int + 1);
                assert(prefix.drop_last() =~= values@.take(i as int));
                assert(prefix.last() == values@[i as int]);
            }
            self.hash = mixed;
            i = i + 1;
        }
    }

    /// Slide the window one step: drop `old_value` on the left, append
    /// `new_value` on the right, and return the updated hash.
    pub fn roll(&mut self, old_value: u64, new_value: u64) -> (r: u64)
        requires
            old(self).wf(),
        ensures
            final(self).wf(),
            final(self).spec_window_size() == old(self).spec_window_size(),
            r as int == final(self).spec_hash(),
            final(self).spec_hash() == roll_value(
                old(self).spec_hash(),
                old_value,
                new_value,
                pow_mod(power_exponent(old(self).spec_window_size())),
            ),
    {
        let old_contrib = Self::mul_mod(old_value, self.base_power, self.modulus);
        let without_old = Self::sub_mod(self.hash, old_contrib, self.modulus);
        let shifted = Self::mul_mod(without_old, self.base, self.modulus);
        let mixed = Self::add_mod(shifted, new_value, self.modulus);
        proof {
            let m = HASH_MODULUS as int;
            let h = old(self).hash as int;
            let c = (old_value as int * old(self).base_power as int) % m;
            // without_old == (h - c) % m, and multiplying a reduced value
            // behaves like multiplying the unreduced difference.
            lemma_mul_mod_noop_left(h - c, HASH_BASE as int, m);
        }
        self.hash = mixed;
        mixed
    }

    /// Current hash value.
    pub fn get(&self) -> (r: u64)
        ensures
            r as int == self.spec_hash(),
    {
        self.hash
    }

    /// `(a * b) % modulus` computed without overflow.
    fn mul_mod(a: u64, b: u64, modulus: u64) -> (r: u64)
        requires
            modulus > 0,
        ensures
            r == (a as int * b as int) % (modulus as int),
            r < modulus,
    {
        proof {
            assert((a as u128) * (b as u128) <= (u64::MAX as u128) * (u64::MAX as u128))
                by (nonlinear_arith)
                requires
                    a <= u64::MAX,
                    b <= u64::MAX,
            ;
            lemma_mod_bound((a as u128 * b as u128) as int, modulus as int);
        }
        ((a as u128 * b as u128) % (modulus as u128)) as u64
    }

    /// `(a + b) % modulus` computed without overflow.
    fn add_mod(a: u64, b: u64, modulus: u64) -> (r: u64)
        requires
            modulus > 0,
        ensures
            r == (a as int + b as int) % (modulus as int),
            r < modulus,
    {
        proof {
            lemma_mod_bound(a as int + b as int, modulus as int);
        }
        ((a as u128 + b as u128) % (modulus as u128)) as u64
    }

    /// `(a - b) % modulus` in the euclidean sense: the result stays in
    /// `[0, modulus)` even when `b` exceeds `a`.
    fn sub_mod(a: u64, b: u64, modulus: u64) -> (r: u64)
        requires
            modulus > 0,
        ensures
            r == (a as int - b as int) % (modulus as int),
            r < modulus,
    {
        let m = modulus;
        if a >= b {
            proof {
                lemma_mod_bound(a as int - b as int, m as int);
            }
            (a - b) % m
        } else {
            let d = (b - a) % m;
            proof {
                let mi = m as int;
                let diff = b as int - a as int;
                lemma_mod_bound(diff, mi);
                // a - b is -d plus a multiple of m, so its euclidean
                // remainder equals that of m - d.
                assert(a as int - b as int == mi * (-(diff / mi)) + (-(d as int))) by {
                    lemma_fundamental_div_mod(diff, mi);
                    assert(mi * (-(diff / mi)) == -(mi * (diff / mi))) by (nonlinear_arith);
                }
                lemma_mod_multiples_vanish(-(diff / mi), -(d as int), mi);
                lemma_mod_add_multiples_vanish(-(d as int), mi);
                lemma_mod_bound(mi - d, mi);
            }
            (m - d) % m
        }
    }
}

/// A polynomial hash is always a reduced value.
pub proof fn lemma_poly_hash_range(s: Seq<u64>)
    ensures
        0 <= poly_hash(s) < HASH_MODULUS as int,
    decreases s.len(),
{
    if s.len() == 0 {
    } else {
        lemma_poly_hash_range(s.drop_last());
        lemma_mod_bound(
            poly_hash(s.drop_last()) * (HASH_BASE as int) + s.last(),
            HASH_MODULUS as int,
        );
    }
}

/// Prepending an element adds its contribution, scaled by the base
/// raised to the length of the rest, to the polynomial hash.
pub proof fn lemma_poly_hash_cons(x: u64, s: Seq<u64>)
    ensures
        poly_hash(seq![x] + s) == (poly_hash(s) + x as int * pow_mod(s.len())) % (
        HASH_MODULUS as int),
    decreases s.len(),
{
    let m = HASH_MODULUS as int;
    let b = HASH_BASE as int;
    if s.len() == 0 {
        assert(seq![x] + s =~= seq![x]);
        assert(seq![x].drop_last() =~= Seq::<u64>::empty());
        assert(poly_hash(Seq::<u64>::empty()) == 0);
        lemma_small_mod(1nat, HASH_MODULUS as nat);
        assert(poly_hash(seq![x]) == (x as int) % m);
        assert(pow_mod(0) == 1);
    } else {
        let s0 = s.drop_last();
        let v = s.last() as int;
        let n0 = s0.len();
        lemma_poly_hash_cons(x, s0);
        let p = poly_hash(s0);
        let pm0 = pow_mod(n0);
        let a = p + x as int * pm0;
        let c = p * b + v;
        let y = pm0 * b;
        let cons = seq![x] + s;
        assert(cons.drop_last() =~= seq![x] + s0);
        assert(cons.last() == s.last());
        assert(poly_hash(cons) == ((a % m) * b + v) % m);
        assert(((a % m) * b + v) % m == (a * b + v) % m) by {
            lemma_mul_mod_noop_left(a, b, m);
            lemma_add_mod_noop((a % m) * b, v, m);
            lemma_add_mod_noop(a * b, v, m);
        }
        assert(a * b + v == c + x as int * y) by (nonlinear_arith)
            requires
                a == p + x as int * pm0,
                c == p * b + v,
                y == pm0 * b,
        ;
        assert((c + x as int * y) % m == (c + x as int * (y % m)) % m) by {
            lemma_mul_mod_noop_right(x as int, y, m);
            lemma_add_mod_noop(c, x as int * y, m);
            lemma_add_mod_noop(c, x as int * (y % m), m);
        }
        assert(poly_hash(s) == c % m);
        assert(pow_mod(s.len()) == y % m);
        assert((c % m + x as int * (y % m)) % m == (c + x as int * (y % m)) % m) by {
            lemma_add_mod_noop_right(c % m, x as int * (y % m), m);
            lemma_add_mod_noop(c, x as int * (y % m), m);
            lemma_add_mod_noop_right(c, x as int * (y % m), m);
        }
    }
}

/// Sliding the window really computes the next window's hash: rolling
/// the hash of `w` with `w`'s first element out and `v` in yields the
/// polynomial hash of `w` shifted left by one with `v` appended.
pub proof fn lemma_roll_window(w: Seq<u64>, v: u64)
    requires
        w.len() >= 1,
    ensures
        roll_value(poly_hash(w), w[0], v, pow_mod((w.len() - 1) as nat)) == poly_hash(
            w.drop_first().push(v),
        ),
{
    let m = HASH_MODULUS as int;
    let b = HASH_BASE as int;
    let rest = w.drop_first();
    let n1 = rest.len();
    assert(seq![w[0]] + rest =~= w);
    lemma_poly_hash_cons(w[0], rest);
    let a = poly_hash(rest);
    let y = w[0] as int * pow_mod(n1);
    assert(poly_hash(w) == (a + y) % m);
    lemma_poly_hash_range(rest);
    // Removing the outgoing contribution leaves the hash of the rest.
    assert(((a + y) % m - y % m) % m == a) by {
        lemma_sub_mod_noop(a + y, y, m);
        lemma_small_mod(a as nat, HASH_MODULUS as nat);
    }
    let slid = rest.push(v);
    assert(slid.drop_last() =~= rest);
    assert(slid.last() == v);
}

/// One djb2 step: multiply the accumulator by 33 and add the byte,
/// with 64-bit wraparound.
pub open spec fn djb2_step(acc: u64, b: u8) -> u64 {
    mod_2_64(acc * 33 + b)
}

/// The djb2 fold over a byte sequence, from the given accumulator.
pub open spec fn djb2_from(bytes: Seq<u8>, acc: u64) -> u64
    decreases bytes.len(),
{
    if bytes.len() == 0 {
        acc
    } else {
        djb2_from(bytes.drop_first(), djb2_step(acc, bytes.first()))
    }
}

/// Folding a concatenation folds the two parts in turn.
pub proof fn lemma_djb2_append(a: Seq<u8>, b: Seq<u8>, acc: u64)
    ensures
        djb2_from(a + b, acc) == djb2_from(b, djb2_from(a, acc)),
    decreases a.len(),
{
    if a.len() == 0 {
        assert(a + b =~= b);
    } else {
        assert((a + b).first() == a.first());
        assert((a + b).drop_first() =~= a.drop_first() + b);
        lemma_djb2_append(a.drop_first(), b, djb2_step(acc, a.first()));
    }
}

/// One more byte at the end folds on top of the rest.
pub proof fn lemma_djb2_snoc(bytes: Seq<u8>, b: u8, acc: u64)
    ensures
        djb2_from(bytes.push(b), acc) == djb2_step(djb2_from(bytes, acc), b),
{
    assert(bytes.push(b) =~= bytes + seq![b]);
    lemma_djb2_append(bytes, seq![b], acc);
    assert(seq![b].drop_first() =~= Seq::<u8>::empty());
    assert(seq![b].first() == b);
    let mid = djb2_step(djb2_from(bytes, acc), b);
    assert(djb2_from(Seq::<u8>::empty(), mid) == mid);
}

/// Hash of one token's text: the djb2 fold over its UTF-8 bytes,
/// starting from 5381.
pub open spec fn token_hash_spec(s: Seq<char>) -> u64 {
    djb2_from(vstd::utf8::encode_utf8(s), 5381u64)
}

/// Reduction modulo `2 ^ 64`: what wrapping 64-bit arithmetic computes.
pub open spec fn mod_2_64(v: int) -> u64 {
    (v % 0x1_0000_0000_0000_0000) as u64
}

/// Fold one byte into the running hash.
fn hash_byte(acc: u64, b: u8) -> (r: u64)
    ensures
        r == djb2_step(acc, b),
{
    acc.wrapping_mul(33).wrapping_add(b as u64)
}

/// Hash a token's text for use as one element of the rolling window.
pub fn token_hash(token: &str) -> (r: u64)
    ensures
        r == token_hash_spec(token@),
{
    let bytes = token.as_bytes();
    let n = bytes.len();
    let mut hash: u64 = 5381;
    let mut i: usize = 0;
    proof {
        assert(bytes@.take(0int) =~= Seq::<u8>::empty());
    }
    while i < n
        invariant
            i <= n,
            n == bytes@.len(),
            bytes@ == vstd::utf8::encode_utf8(token@),
            hash == djb2_from(bytes@.take(i as int), 5381u64),
        decreases n - i,
    {
        let b = *slice_index_get(bytes, i);
        proof {
            assert(bytes@.take(i as int + 1) =~= bytes@.take(i as int).push(bytes@[i as int]));
            lemma_djb2_snoc(bytes@.take(i as int), bytes@[i as int], 5381u64);
        }
        hash = hash_byte(hash, b);
        i = i + 1;
    }
    proof {
        assert(bytes@.take(n as int) =~= bytes@);
    }
    hash
}

} // verus!

//! Rolling-hash (Rabin-Karp style) substring search.
//!
//! A fixed-width window slides over the text while its hash — the base-256
//! polynomial of the window's bytes, reduced modulo 2^32 — is updated in
//! constant time per step.  The search reports the first offset whose window
//! hash equals the pattern's hash.  Since equal byte windows always hash
//! equally, a reported offset is never later than a true occurrence, and an
//! absent hash means the pattern does not occur at all.

use vstd::prelude::*;
use vstd::arithmetic::div_mod::{
    lemma_add_mod_noop, lemma_mod_multiples_vanish, lemma_mul_mod_noop_left,
    lemma_mul_mod_noop_right, lemma_small_mod, lemma_sub_mod_noop,
};
use vstd::slice::{slice_index_get, slice_subrange, slice_to_vec};
use vstd::string::StringSliceAdditionalSpecFns;

verus! {

/// The window hash of a byte sequence: the base-256 polynomial of the bytes,
/// reduced modulo 2^32 at every step.
pub open spec fn window_hash(s: Seq<u8>) -> nat
    decreases s.len(),
{
    if s.len() == 0 {
        0
    } else {
        ((window_hash(s.drop_last()) * 256 + s.last()) % 0x1_0000_0000) as nat
    }
}

/// The base-256 polynomial value of a byte sequence, before any reduction.
spec fn poly_int(s: Seq<u8>) -> int
    decreases s.len(),
{
    if s.len() == 0 {
        0
    } else {
        poly_int(s.drop_last()) * 256 + s.last()
    }
}

/// 256 to the power `e`, before any reduction.
spec fn pow256_int(e: nat) -> int
    decreases e,
{
    if e == 0 {
        1
    } else {
        256 * pow256_int((e - 1) as nat)
    }
}

/// 256 to the power `e`, modulo 2^32.
spec fn pow256_mod(e: nat) -> nat
    decreases e,
{
    if e == 0 {
        1
    } else {
        ((pow256_mod((e - 1) as nat) * 256) % 0x1_0000_0000) as nat
    }
}

proof fn lemma_pow256_mod(e: nat)
    ensures
        pow256_mod(e) == pow256_int(e) % 0x1_0000_0000,
        pow256_int(e) >= 1,
    decreases e,
{
    if e == 0 {
        lemma_small_mod(1, 0x1_0000_0000);
    } else {
        lemma_pow256_mod((e - 1) as nat);
        lemma_mul_mod_noop_left(pow256_int((e - 1) as nat), 256, 0x1_0000_0000);
    }
}

/// The stepwise-reduced hash is the polynomial value reduced once.
proof fn lemma_window_hash(s: Seq<u8>)
    ensures
        window_hash(s) == poly_int(s) % 0x1_0000_0000,
        poly_int(s) >= 0,
    decreases s.len(),
{
    if s.len() == 0 {
        lemma_small_mod(0, 0x1_0000_0000);
    } else {
        lemma_window_hash(s.drop_last());
        let a = poly_int(s.drop_last());
        let c = s.last() as int;
        lemma_mul_mod_noop_left(a, 256, 0x1_0000_0000);
        lemma_add_mod_noop((a % 0x1_0000_0000) * 256, c, 0x1_0000_0000);
        lemma_add_mod_noop(a * 256, c, 0x1_0000_0000);
        lemma_small_mod(s.last() as nat, 0x1_0000_0000);
    }
}

/// Splitting the leading byte off the polynomial.
proof fn lemma_poly_shift(s: Seq<u8>)
    requires
        s.len() >= 1,
    ensures
        poly_int(s) == s[0] * pow256_int((s.len() - 1) as nat) + poly_int(s.drop_first()),
    decreases s.len(),
{
    if s.len() == 1 {
        assert(s.drop_last() =~= Seq::<u8>::empty());
        assert(s.drop_first() =~= Seq::<u8>::empty());
        assert(s.last() == s[0]);
    } else {
        let dl = s.drop_last();
        let n = s.len();
        lemma_poly_shift(dl);
        assert(dl[0] == s[0]);
        assert(dl.drop_first() =~= s.drop_first().drop_last());
        assert(s.drop_first().last() == s.last());
        assert(poly_int(s) == (s[0] * pow256_int((n - 2) as nat) + poly_int(dl.drop_first())) * 256
            + s.last());
        assert((s[0] * pow256_int((n - 2) as nat)) * 256 == s[0] * (256 * pow256_int(
            (n - 2) as nat,
        ))) by (nonlinear_arith);
        assert(pow256_int((n - 1) as nat) == 256 * pow256_int((n - 2) as nat));
    }
}

/// Appending a byte multiplies the polynomial by the base and adds the byte.
proof fn lemma_poly_push(u: Seq<u8>, b: u8)
    ensures
        poly_int(u.push(b)) == poly_int(u) * 256 + b,
{
    assert(u.push(b).drop_last() =~= u);
    assert(u.push(b).last() == b);
}

/// Wrapping addition of `u32` values is addition modulo 2^32.
proof fn lemma_wrapping_add_mod(a: u32, b: u32)
    ensures
        vstd::wrapping::u32_specs::wrapping_add(a, b) == (a + b) % 0x1_0000_0000,
{
    if a + b > u32::MAX {
        lemma_mod_multiples_vanish(1, a + b - 0x1_0000_0000, 0x1_0000_0000);
        lemma_small_mod((a + b - 0x1_0000_0000) as nat, 0x1_0000_0000);
    } else {
        lemma_small_mod((a + b) as nat, 0x1_0000_0000);
    }
}

/// Wrapping subtraction of `u32` values is subtraction modulo 2^32.
proof fn lemma_wrapping_sub_mod(a: u32, b: u32)
    ensures
        vstd::wrapping::u32_specs::wrapping_sub(a, b) == (a - b) % 0x1_0000_0000,
{
    if a - b < 0 {
        lemma_mod_multiples_vanish(1, a - b, 0x1_0000_0000);
        lemma_small_mod((a - b + 0x1_0000_0000) as nat, 0x1_0000_0000);
    } else {
        lemma_small_mod((a - b) as nat, 0x1_0000_0000);
    }
}

/// A sliding window over a byte stream together with the running hash of its
/// contents.
struct WindowHasher {
    state: u32,
    window_size: u32,
    window: Vec<u8>,
}

impl WindowHasher {
    /// The bookkeeping invariant: the window matches its recorded size and
    /// the running state is exactly the window's hash.
    spec fn wf(self) -> bool {
        &&& self.window@.len() == self.window_size
        &&& self.state == window_hash(self.window@)
    }

    /// Hash the initial window in one pass.
    fn new(first_window: &[u8]) -> (h: Self)
        requires
            first_window@.len() <= u32::MAX,
        ensures
            h.wf(),
            h.window@ == first_window@,
    {
        let window_size: u32 = first_window.len() as u32;
        let window: Vec<u8> = slice_to_vec(first_window);
        let n: usize = first_window.len();
        let mut state: u32 = 0;
        let mut i: usize = 0;
        while i < n
            invariant
                n == first_window@.len(),
                0 <= i <= n,
                state == window_hash(first_window@.take(i as int)),
            decreases n - i,
        {
            let c = *slice_index_get(first_window, i);
            let ghost s0 = state;
            state = state.wrapping_mul(256).wrapping_add(c as u32);
            proof {
                let t0 = first_window@.take(i as int);
                let t1 = first_window@.take(i + 1);
                assert(t1.drop_last() =~= t0);
                assert(t1.last() == c);
                lemma_wrapping_add_mod(s0.wrapping_mul(256), c as u32);
                lemma_add_mod_noop((s0 as int) * 256, c as int, 0x1_0000_0000);
                lemma_small_mod(c as nat, 0x1_0000_0000);
                lemma_mul_mod_noop_left(s0 as int, 256, 0x1_0000_0000);
                lemma_small_mod(s0 as nat, 0x1_0000_0000);
            }
            i = i + 1;
        }
        proof {
            assert(first_window@.take(n as int) =~= first_window@);
        }
        WindowHasher { state, window_size, window }
    }

    /// Slide the window one byte: the oldest byte leaves, `new` enters, and
    /// the running hash is fixed up in constant time.
    fn next(&mut self, new: u8)
        requires
            old(self).wf(),
            old(self).window@.len() >= 1,
        ensures
            final(self).wf(),
            final(self).window@ == old(self).window@.drop_first().push(new),
            final(self).window@.len() == old(self).window@.len(),
    {
        let ghost w = self.window@;
        let ghost m: int = 0x1_0000_0000;
        let old_b = self.window.remove(0);
        self.window.push(new);
        let p = Self::pow_mod(self.window_size - 1);
        let q = (old_b as u32).wrapping_mul(p);
        let t = self.state.wrapping_sub(q);
        let ghost s0 = self.state;
        self.state = t.wrapping_mul(256).wrapping_add(new as u32);
        proof {
            let n = w.len();
            let wdf = w.drop_first();
            assert(self.window@ =~= wdf.push(new));
            lemma_window_hash(w);
            lemma_window_hash(wdf.push(new));
            lemma_pow256_mod((n - 1) as nat);
            lemma_poly_shift(w);
            lemma_poly_push(wdf, new);
            let pow = pow256_int((n - 1) as nat);
            // q is the departing byte's contribution, reduced
            lemma_mul_mod_noop_right(old_b as int, pow, m);
            assert(q == (old_b * pow) % m);
            // t is the head-free polynomial, reduced
            lemma_wrapping_sub_mod(s0, q);
            lemma_sub_mod_noop(poly_int(w), (old_b as int) * pow, m);
            assert(old_b == w[0]);
            assert(t == poly_int(wdf) % m);
            // and the new state appends the incoming byte
            lemma_wrapping_add_mod(t.wrapping_mul(256), new as u32);
            lemma_mul_mod_noop_left(poly_int(wdf), 256, m);
            lemma_add_mod_noop((t as int) * 256, new as int, m);
            lemma_add_mod_noop(poly_int(wdf) * 256, new as int, m);
            lemma_small_mod(new as nat, m as nat);
            lemma_small_mod(t as nat, m as nat);
        }
    }

    /// The hash of the current window.
    fn hash(&self) -> (h: u32)
        requires
            self.wf(),
        ensures
            h == window_hash(self.window@),
    {
        self.state
    }

    /// 256 to the power `e`, modulo 2^32, by repeated wrapping
    /// multiplication.
    fn pow_mod(e: u32) -> (r: u32)
        ensures
            r == pow256_mod(e as nat),
    {
        let mut r: u32 = 1;
        let mut i: u32 = 0;
        while i < e
            invariant
                0 <= i <= e,
                r == pow256_mod(i as nat),
            decreases e - i,
        {
            r = r.wrapping_mul(256);
            i = i + 1;
        }
        r
    }
}

/// Hash a whole string: the window hash of all of its bytes.
fn hash_it(text: &str) -> (h: u32)
    requires
        text.spec_bytes().len() <= u32::MAX,
    ensures
        h == window_hash(text.spec_bytes()),
{
    let hasher = WindowHasher::new(text.as_bytes());
    hasher.hash()
}

/// The pattern-sized window of `t` starting at offset `j` hashes like `p`.
pub open spec fn hash_match_at(t: Seq<u8>, p: Seq<u8>, j: int) -> bool {
    window_hash(t.subrange(j, j + p.len())) == window_hash(p)
}

/// A window that really holds the pattern hashes like it; so the offset that
/// the search reports is never later than the first true occurrence, and a
/// search that reports no offset has ruled every occurrence out.
pub proof fn lemma_occurrence_hash_matches(t: Seq<u8>, p: Seq<u8>, j: int)
    requires
        0 <= j,
        j + p.len() <= t.len(),
        t.subrange(j, j + p.len()) == p,
    ensures
        hash_match_at(t, p, j),
{
}

/// Returns the first byte offset at which the rolling hash of a
/// pattern-sized window of `text` equals the hash of `pattern`.
///
/// An empty pattern, or one longer than the text, yields `None`; otherwise
/// `Some(i)` names the first offset whose window hash matches, and `None`
/// says no offset matches — in particular the pattern occurs nowhere, since
/// equal windows hash equally.
pub fn substr(text: &str, pattern: &str) -> (offset: Option<usize>)
    requires
        pattern.spec_bytes().len() <= u32::MAX,
    ensures
        ({
            let t = text.spec_bytes();
            let p = pattern.spec_bytes();
            match offset {
                Some(i) => {
                    &&& p.len() >= 1
                    &&& i + p.len() <= t.len()
                    &&& hash_match_at(t, p, i as int)
                    &&& forall|j: int| 0 <= j < i ==> !hash_match_at(t, p, j)
                },
                None => p.len() == 0 || t.len() < p.len() || forall|j: int|
                    0 <= j <= t.len() - p.len() ==> !hash_match_at(t, p, j),
            }
        }),
{
    proof {
        broadcast use vstd::slice::axiom_spec_len;

    }
    let ghost t = text.spec_bytes();
    let ghost p = pattern.spec_bytes();
    let bytes = text.as_bytes();
    let pat_bytes = pattern.as_bytes();
    let n = bytes.len();
    let p_len = pat_bytes.len();
    if n < p_len || p_len == 0 {
        return None;
    }
    let p_h = hash_it(pattern);
    let mut h = WindowHasher::new(slice_subrange(bytes, 0, p_len));
    if h.hash() == p_h {
        return Some(0);
    }
    let mut k: usize = p_len;
    while k < n
        invariant
            t == text.spec_bytes(),
            p == pattern.spec_bytes(),
            t == bytes@,
            n == t.len(),
            1 <= p_len <= k <= n,
            p_len == p.len(),
            p_h == window_hash(p),
            h.wf(),
            h.window@ == t.subrange(k - p_len, k as int),
            forall|j: int| 0 <= j < k - p_len + 1 ==> !hash_match_at(t, p, j),
        decreases n - k,
    {
        let b = *slice_index_get(bytes, k);
        h.next(b);
        proof {
            assert(h.window@ =~= t.subrange(k - p_len + 1, k + 1));
        }
        if h.hash() == p_h {
            return Some(k - p_len + 1);
        }
        k = k + 1;
    }
    None
}

} // verus!

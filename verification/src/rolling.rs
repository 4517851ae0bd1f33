//! The polynomial hash of a window of bytes, and the iterator that rolls it
//! over a buffer.

use crate::buffer::window;
use crate::modular::{lemma_pow_succ, modpow, pow_mod, BASE, MODULUS};
use vstd::arithmetic::div_mod::{
    lemma_add_mod_noop, lemma_mod_multiples_vanish, lemma_mul_mod_noop_general, lemma_small_mod,
    lemma_sub_mod_noop,
};
use vstd::arithmetic::power::{lemma_pow0, pow};
use vstd::prelude::*;

verus! {

/// The polynomial that a window stands for, before reduction: the sum over
/// the window of `(w[i] + 1) * BASE^(len - 1 - i)`.
pub open spec fn window_value(w: Seq<u8>) -> nat
    decreases w.len(),
{
    if w.len() == 0 {
        0
    } else {
        ((w[0] + 1) * pow(BASE as int, (w.len() - 1) as nat) + window_value(
            w.subrange(1, w.len() as int),
        )) as nat
    }
}

/// The hash of a window: its polynomial reduced modulo [`MODULUS`].
pub open spec fn window_hash(w: Seq<u8>) -> nat {
    window_value(w) % (MODULUS as nat)
}

/// The length of the window that is hashed when `requested` is asked for on
/// a buffer of `len` bytes: never more than the buffer holds.
pub open spec fn clamped_len(len: nat, requested: nat) -> nat {
    if requested < len {
        requested
    } else {
        len
    }
}

/// How many windows of `window_len` bytes a rolling hash yields over a buffer
/// of `len` bytes. A window as long as the whole buffer is never hashed.
pub open spec fn window_count(len: nat, window_len: nat) -> nat {
    if window_len < len {
        (len - window_len + 1) as nat
    } else {
        0
    }
}

/// The pair that the rolling hash yields for the window of `window_len`
/// bytes that starts at `start`.
pub open spec fn pair_at(data: Seq<u8>, window_len: nat, start: int) -> (usize, usize) {
    (window_hash(window(data, start, window_len)) as usize, start as usize)
}

/// Every pair that a rolling hash over `data` yields, in order, when windows
/// of `requested` bytes are asked for.
pub open spec fn hash_pairs(data: Seq<u8>, requested: nat) -> Seq<(usize, usize)> {
    let k = clamped_len(data.len(), requested);
    Seq::new(window_count(data.len(), k), |i: int| pair_at(data, k, i))
}

/// Every `step`-th element of `s`, starting with the first.
pub open spec fn every_nth<T>(s: Seq<T>, step: nat) -> Seq<T>
    recommends
        step > 0,
{
    if step == 0 {
        Seq::empty()
    } else {
        Seq::new(((s.len() + step - 1) / (step as int)) as nat, |j: int| s[j * step])
    }
}

/// Appending a byte multiplies the polynomial by the base and adds the byte's
/// digit.
pub proof fn lemma_window_value_push(w: Seq<u8>, x: u8)
    ensures
        window_value(w.push(x)) == BASE * window_value(w) + x + 1,
    decreases w.len(),
{
    let wx = w.push(x);
    if w.len() == 0 {
        lemma_pow0(BASE as int);
        assert(window_value(wx.subrange(1, 1)) == 0);
    } else {
        let tail = w.subrange(1, w.len() as int);
        assert(wx.subrange(1, wx.len() as int) =~= tail.push(x));
        lemma_window_value_push(tail, x);
        lemma_pow_succ(BASE as int, (w.len() - 1) as nat);
        let p = pow(BASE as int, (w.len() - 1) as nat);
        let d = w[0] + 1;
        assert(d * (BASE * p) == BASE * (d * p)) by (nonlinear_arith);
        vstd::arithmetic::power::lemma_pow_positive(BASE as int, (w.len() - 1) as nat);
        assert(d * p >= 0) by (nonlinear_arith)
            requires
                d >= 0,
                p > 0,
        ;
    }
}

/// Sliding a window one byte to the right: the polynomial of the new window
/// from that of the old one.
pub proof fn lemma_window_value_roll(data: Seq<u8>, start: int, k: nat)
    requires
        0 <= start,
        start + k < data.len(),
    ensures
        window_value(window(data, start + 1, k)) == BASE * window_value(window(data, start, k)) + (
        data[start + k] + 1) - pow(BASE as int, k) * (data[start] + 1),
{
    let old_w = data.subrange(start, start + k);
    let new_w = data.subrange(start + 1, start + 1 + k);
    if k == 0 {
        lemma_pow0(BASE as int);
    } else {
        let tail = data.subrange(start + 1, start + k);
        assert(old_w.subrange(1, old_w.len() as int) =~= tail);
        assert(new_w =~= tail.push(data[start + k]));
        lemma_window_value_push(tail, data[start + k]);
        lemma_pow_succ(BASE as int, (k - 1) as nat);
        let p = pow(BASE as int, (k - 1) as nat);
        let d = data[start] + 1;
        vstd::arithmetic::power::lemma_pow_positive(BASE as int, (k - 1) as nat);
        assert(d * p >= 0) by (nonlinear_arith)
            requires
                d >= 0,
                p > 0,
        ;
        assert(BASE * (d * p) == (BASE * p) * d) by (nonlinear_arith);
    }
}

/// The rolling update, computed on residues, gives the residue of the new
/// window's polynomial.
proof fn lemma_roll_mod(v: int, p: int, d_old: int, d_new: int, m: int)
    requires
        0 < m,
    ensures
        ((BASE * (v % m)) % m + d_new + m - ((p % m) * d_old) % m) % m == (BASE * v + d_new - p
            * d_old) % m,
{
    let v1 = (BASE * (v % m)) % m;
    let v3 = ((p % m) * d_old) % m;
    let x = BASE * v + d_new;
    let y = p * d_old;
    lemma_mul_mod_noop_general(BASE as int, v, m);
    lemma_mul_mod_noop_general(p, d_old, m);
    lemma_add_mod_noop(BASE * v, d_new, m);
    lemma_add_mod_noop(v1, d_new, m);
    lemma_small_mod(v1 as nat, m as nat);
    lemma_small_mod(v3 as nat, m as nat);
    lemma_sub_mod_noop(v1 + d_new, v3, m);
    lemma_sub_mod_noop(x, y, m);
    lemma_mod_multiples_vanish(1, v1 + d_new - v3, m);
}

/// The number of strides needed to walk `len` items is the least `c` with
/// `len <= c * step`.
proof fn lemma_stride_count(len: nat, step: nat)
    requires
        step > 0,
    ensures
        len == 0 ==> (len + step - 1) / (step as int) == 0,
        0 < len <= step ==> (len + step - 1) / (step as int) == 1,
        len > step ==> (len + step - 1) / (step as int) == (len - 1) / (step as int) + 1,
        len > 0 ==> ((len + step - 1) / (step as int) - 1) * step < len,
{
    let c = (len + step - 1) / (step as int);
    vstd::arithmetic::div_mod::lemma_fundamental_div_mod(len + step - 1, step as int);
    vstd::arithmetic::div_mod::lemma_fundamental_div_mod(len - 1, step as int);
    let r = (len + step - 1) % (step as int);
    if len == 0 {
        assert(c == 0) by (nonlinear_arith)
            requires
                step - 1 == step * c + r,
                0 <= r < step,
                step > 0,
        ;
    } else {
        assert((c - 1) * step < len) by (nonlinear_arith)
            requires
                len + step - 1 == step * c + r,
                0 <= r < step,
        ;
        if len <= step {
            assert(c == 1) by (nonlinear_arith)
                requires
                    len + step - 1 == step * c + r,
                    0 <= r < step,
                    0 < len <= step,
            ;
        } else {
            let c1 = (len - 1) / (step as int);
            let r1 = (len - 1) % (step as int);
            assert(c == c1 + 1) by (nonlinear_arith)
                requires
                    len + step - 1 == step * c + r,
                    len - 1 == step * c1 + r1,
                    0 <= r < step,
                    0 <= r1 < step,
            ;
        }
    }
}

/// Taking every `step`-th element is taking the first and then every
/// `step`-th of what lies `step` further on.
pub proof fn lemma_every_nth_unfold<T>(s: Seq<T>, step: nat)
    requires
        step > 0,
    ensures
        s.len() == 0 ==> every_nth(s, step).len() == 0,
        s.len() > 0 ==> every_nth(s, step).len() > 0 && every_nth(s, step)[0] == s[0]
            && every_nth(s, step).skip(1) == every_nth(
            s.skip(if step < s.len() { step as int } else { s.len() as int }),
            step,
        ),
{
    let n = s.len();
    lemma_stride_count(n, step);
    if n > 0 {
        let jump = if step < n { step as int } else { n as int };
        let rest = s.skip(jump);
        lemma_stride_count(rest.len(), step);
        let lhs = every_nth(s, step).skip(1);
        let rhs = every_nth(rest, step);
        assert(0 * step == 0) by (nonlinear_arith);
        if step < n {
            vstd::arithmetic::div_mod::lemma_fundamental_div_mod(n - 1, step as int);
            vstd::arithmetic::div_mod::lemma_fundamental_div_mod(n - step - 1, step as int);
            let c1 = (n - 1) / (step as int);
            let r1 = (n - 1) % (step as int);
            let c2 = (n - step - 1) / (step as int);
            let r2 = (n - step - 1) % (step as int);
            assert(c1 == c2 + 1) by (nonlinear_arith)
                requires
                    n - 1 == step * c1 + r1,
                    n - step - 1 == step * c2 + r2,
                    0 <= r1 < step,
                    0 <= r2 < step,
            ;
            assert forall|j: int| 0 <= j < lhs.len() implies lhs[j] == rhs[j] by {
                assert((j + 1) * step == step + j * step) by (nonlinear_arith);
                assert(0 <= j * step < n - step) by (nonlinear_arith)
                    requires
                        0 <= j < rhs.len(),
                        (rhs.len() - 1) * step < n - step,
                        step > 0,
                ;
            }
        }
    }
}

/// The `j`-th element of a thinned sequence is the element of the sequence
/// at `j * step`.
pub proof fn lemma_every_nth_index<T>(s: Seq<T>, step: nat, j: int)
    requires
        step > 0,
        0 <= j < every_nth(s, step).len(),
    ensures
        0 <= j * step < s.len(),
        every_nth(s, step)[j] == s[j * step],
{
    lemma_stride_count(s.len(), step);
    let count = every_nth(s, step).len() as int;
    assert(0 <= j * step <= (count - 1) * step) by (nonlinear_arith)
        requires
            0 <= j <= count - 1,
            step > 0,
    ;
}

/// A rolling hash over a buffer: a finite sequence of `(hash, start)` pairs,
/// one for each window, handed out one at a time by [`RollingHash::next`].
/// The first hash is computed from its window; each later one from the hash
/// before it, in constant time.
pub struct RollingHash<'a> {
    data: &'a [u8],
    hash_len: usize,
    index: usize,
    hash: Option<usize>,
    base_pow: usize,
}

impl<'a> View for RollingHash<'a> {
    type V = Seq<(usize, usize)>;

    /// The pairs that are still to come.
    closed spec fn view(&self) -> Seq<(usize, usize)> {
        let done = self.produced();
        Seq::new(
            (window_count(self.data@.len(), self.hash_len as nat) - done) as nat,
            |j: int| pair_at(self.data@, self.hash_len as nat, done + j),
        )
    }
}

impl<'a> RollingHash<'a> {
    #[verifier::type_invariant]
    spec fn well_formed(&self) -> bool {
        &&& self.hash_len <= self.data@.len()
        &&& self.base_pow == pow_mod(BASE as nat, self.hash_len as nat)
        &&& match self.hash {
            None => self.index == 0,
            Some(h) => {
                &&& self.hash_len < self.data@.len()
                &&& self.index + self.hash_len <= self.data@.len()
                &&& h == window_hash(window(self.data@, self.index as int, self.hash_len as nat))
            },
        }
    }

    /// How many pairs have been handed out.
    spec fn produced(&self) -> nat {
        match self.hash {
            None => 0,
            Some(_) => (self.index + 1) as nat,
        }
    }

    /// A rolling hash over `data` with windows of `hash_len` bytes, or of the
    /// whole buffer's length if that is less.
    pub fn new(data: &'a [u8], hash_len: usize) -> (result: Self)
        ensures
            result@ == hash_pairs(data@, hash_len as nat),
    {
        let hash_len = if data.len() < hash_len {
            data.len()
        } else {
            hash_len
        };
        let base_pow = modpow(BASE as usize, hash_len);
        Self { data, hash_len, index: 0, hash: None, base_pow }
    }

    /// The hash of the first `hash_len` bytes of `data`, or of all of `data`
    /// if it is shorter, computed byte by byte.
    pub fn initial_hash(data: &[u8], hash_len: usize) -> (result: usize)
        ensures
            result == window_hash(window(data@, 0, clamped_len(data@.len(), hash_len as nat))),
    {
        let n = if data.len() < hash_len {
            data.len()
        } else {
            hash_len
        };
        let mut hash: u64 = 0;
        let mut i: usize = 0;
        while i < n
            invariant
                i <= n <= data@.len(),
                hash < MODULUS,
                hash == window_hash(data@.take(i as int)),
            decreases n - i,
        {
            let digit = Self::to_usize(data[i]) as u64;
            proof {
                let prefix = data@.take(i as int);
                assert(data@.take(i + 1) =~= prefix.push(data@[i as int]));
                lemma_window_value_push(prefix, data@[i as int]);
                let v = window_value(prefix) as int;
                assert(v * BASE == BASE * v) by (nonlinear_arith);
            }
            hash = (hash * BASE + digit) % MODULUS;
            i += 1;
        }
        hash as usize
    }

    /// The digit that a byte contributes to the polynomial: one more than the
    /// byte, so that no byte counts as zero.
    pub fn to_usize(x: u8) -> (result: usize)
        ensures
            result == x + 1,
    {
        x as usize + 1
    }

    /// Hands out the next pair, if one is left.
    pub fn next(&mut self) -> (result: Option<(usize, usize)>)
        ensures
            match result {
                None => old(self)@.len() == 0 && final(self)@ == old(self)@,
                Some(pair) => old(self)@.len() > 0 && pair == old(self)@[0] && final(self)@
                    == old(self)@.skip(1),
            },
    {
        proof {
            use_type_invariant(&*self);
        }
        let len = self.data.len();
        if self.index + self.hash_len >= len {
            return None;
        }
        match self.hash {
            None => {
                let hash = Self::initial_hash(self.data, self.hash_len);
                self.hash = Some(hash);
                Some((hash, 0))
            },
            Some(prev) => {
                let incoming = Self::to_usize(self.data[self.index + self.hash_len]) as u64;
                let outgoing = Self::to_usize(self.data[self.index]) as u64;
                let v1 = BASE * (prev as u64) % MODULUS;
                let v2 = incoming;
                proof {
                    assert(self.base_pow * outgoing <= MODULUS * 256) by (nonlinear_arith)
                        requires
                            self.base_pow < MODULUS,
                            outgoing <= 256,
                    ;
                }
                let v3 = (self.base_pow as u64) * outgoing % MODULUS;
                let hash = ((v1 + v2 + MODULUS - v3) % MODULUS) as usize;
                proof {
                    let k = self.hash_len as nat;
                    let start = self.index as int;
                    lemma_window_value_roll(self.data@, start, k);
                    lemma_roll_mod(
                        window_value(window(self.data@, start, k)) as int,
                        pow(BASE as int, k),
                        outgoing as int,
                        incoming as int,
                        MODULUS as int,
                    );
                }
                let index = self.index + 1;
                *self = RollingHash {
                    data: self.data,
                    hash_len: self.hash_len,
                    index,
                    hash: Some(hash),
                    base_pow: self.base_pow,
                };
                Some((hash, index))
            },
        }
    }
}

/// A rolling hash thinned to every `step`-th pair: the first pair, then
/// the pair `step` places after each pair handed out.
pub struct SparseHash<'a> {
    inner: RollingHash<'a>,
    skip: usize,
}

impl<'a> View for SparseHash<'a> {
    type V = Seq<(usize, usize)>;

    /// The pairs that are still to come.
    closed spec fn view(&self) -> Seq<(usize, usize)> {
        every_nth(self.inner@, (self.skip + 1) as nat)
    }
}

impl<'a> RollingHash<'a> {
    /// Thins what is left of this rolling hash to every `step`-th pair.
    pub fn step_by(self, step: usize) -> (result: SparseHash<'a>)
        requires
            step > 0,
        ensures
            result@ == every_nth(self@, step as nat),
    {
        SparseHash { inner: self, skip: step - 1 }
    }
}

impl<'a> SparseHash<'a> {
    /// Hands out the next pair, if one is left.
    pub fn next(&mut self) -> (result: Option<(usize, usize)>)
        ensures
            match result {
                None => old(self)@.len() == 0 && final(self)@ == old(self)@,
                Some(pair) => old(self)@.len() > 0 && pair == old(self)@[0] && final(self)@
                    == old(self)@.skip(1),
            },
    {
        let ghost all = self.inner@;
        let ghost step = (self.skip + 1) as nat;
        proof {
            lemma_every_nth_unfold(all, step);
        }
        let first = self.inner.next();
        if first.is_none() {
            return None;
        }
        // The pairs between this one and the next one to hand out are passed
        // over now, so that what is left always starts with the next one.
        let mut skipped: usize = 0;
        let mut more = true;
        while more && skipped < self.skip
            invariant
                self.skip == old(self).skip,
                skipped <= self.skip,
                all.len() > 0,
                more ==> skipped + 1 <= all.len() && self.inner@ == all.skip(skipped + 1),
                !more ==> self.inner@.len() == 0 && skipped + 1 >= all.len(),
            decreases self.skip - skipped, more as int,
        {
            match self.inner.next() {
                None => {
                    more = false;
                },
                Some(_) => {
                    skipped += 1;
                },
            }
        }
        proof {
            let jump = if step < all.len() { step as int } else { all.len() as int };
            assert(self.inner@ =~= all.skip(jump));
        }
        first
    }
}

} // verus!

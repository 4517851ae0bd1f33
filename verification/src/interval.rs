//! Runs of bytes that the reference and the target share.

use crate::buffer::window;
use vstd::prelude::*;

verus! {

/// A run of `len` bytes that stands in the reference at `la` and in the
/// target at `lb`.
#[derive(Debug, Clone, Copy, PartialEq, Eq, Structural)]
pub struct MatchInterval {
    pub la: usize,
    pub lb: usize,
    pub len: usize,
}

/// How many bytes `a` from `ia` on and `b` from `ib` on have in common
/// before they first differ or one of them ends.
pub open spec fn run_right(a: Seq<u8>, b: Seq<u8>, ia: int, ib: int) -> nat
    decreases a.len() - ia,
{
    if 0 <= ia < a.len() && 0 <= ib < b.len() && a[ia] == b[ib] {
        1 + run_right(a, b, ia + 1, ib + 1)
    } else {
        0
    }
}

/// How many bytes `a` before `ia` and `b` before `ib` have in common,
/// counted backwards, before they first differ or one of them begins.
pub open spec fn run_left(a: Seq<u8>, b: Seq<u8>, ia: int, ib: int) -> nat
    decreases ia,
{
    if 0 < ia <= a.len() && 0 < ib <= b.len() && a[ia - 1] == b[ib - 1] {
        1 + run_left(a, b, ia - 1, ib - 1)
    } else {
        0
    }
}

/// The longest run shared by `a` and `b` that lines `a[ia]` up with `b[ib]`.
pub open spec fn expansion(a: Seq<u8>, b: Seq<u8>, ia: int, ib: int) -> MatchInterval {
    let l = run_left(a, b, ia, ib);
    let r = run_right(a, b, ia, ib);
    MatchInterval { la: (ia - l) as usize, lb: (ib - l) as usize, len: (l + r) as usize }
}

/// `m` is a run shared by `a` and `b`: it lies inside both, and the two
/// ranges hold the same bytes.
pub open spec fn is_match(a: Seq<u8>, b: Seq<u8>, m: MatchInterval) -> bool {
    &&& m.la + m.len <= a.len()
    &&& m.lb + m.len <= b.len()
    &&& window(a, m.la as int, m.len as nat) == window(b, m.lb as int, m.len as nat)
}

/// `m` is a shared run that lines `a[ia]` up with `b[ib]` and can be
/// extended at neither end.
pub open spec fn is_maximal_match_around(
    a: Seq<u8>,
    b: Seq<u8>,
    ia: int,
    ib: int,
    m: MatchInterval,
) -> bool {
    &&& is_match(a, b, m)
    &&& m.la <= ia <= m.la + m.len
    &&& ia - m.la == ib - m.lb
    &&& (m.la == 0 || m.lb == 0 || a[m.la - 1] != b[m.lb - 1])
    &&& (m.la + m.len == a.len() || m.lb + m.len == b.len() || a[m.la + m.len] != b[m.lb
        + m.len])
}

/// What is left of `m` once the target range of `prev` is taken: `m` itself
/// where it starts at or after the end of `prev`, nothing where it lies
/// inside `prev`, else `m` without its front up to and including the byte
/// after the end of `prev`.
pub open spec fn trimmed(m: MatchInterval, prev: MatchInterval) -> MatchInterval {
    if prev.target_end() <= m.lb {
        m
    } else if prev.lb <= m.lb && m.target_end() <= prev.target_end() {
        MatchInterval { la: m.la, lb: m.lb, len: 0 }
    } else {
        let cut = prev.target_end() - m.lb + 1;
        MatchInterval {
            la: (m.la + cut) as usize,
            lb: (m.lb + cut) as usize,
            len: if m.len >= cut {
                (m.len - cut) as usize
            } else {
                0
            },
        }
    }
}

/// Trimming `m` against `prev` stays within `usize`: both ends can be
/// computed, and where the front of `m` moves, its new offsets can be held.
pub open spec fn trim_fits(m: MatchInterval, prev: MatchInterval) -> bool {
    &&& m.target_end() <= usize::MAX
    &&& prev.target_end() <= usize::MAX
    &&& (m.lb < prev.target_end() && !(prev.lb <= m.lb && m.target_end() <= prev.target_end())
        ==> {
        let cut = prev.target_end() - m.lb + 1;
        m.la + cut <= usize::MAX && m.lb + cut <= usize::MAX
    })
}

proof fn lemma_run_right(a: Seq<u8>, b: Seq<u8>, ia: int, ib: int)
    requires
        0 <= ia <= a.len(),
        0 <= ib <= b.len(),
    ensures
        ia + run_right(a, b, ia, ib) <= a.len(),
        ib + run_right(a, b, ia, ib) <= b.len(),
        forall|k: int| ia <= k < ia + run_right(a, b, ia, ib) ==> a[k] == b[k - ia + ib],
        ({
            let r = run_right(a, b, ia, ib);
            ia + r == a.len() || ib + r == b.len() || a[ia + r] != b[ib + r]
        }),
    decreases a.len() - ia,
{
    if ia < a.len() && ib < b.len() && a[ia] == b[ib] {
        lemma_run_right(a, b, ia + 1, ib + 1);
        let r = run_right(a, b, ia, ib);
        assert forall|k: int| ia <= k < ia + r implies a[k] == b[k - ia + ib] by {
            if k > ia {
                assert(a[k] == b[k - (ia + 1) + (ib + 1)]);
            }
        }
    }
}

proof fn lemma_run_left(a: Seq<u8>, b: Seq<u8>, ia: int, ib: int)
    requires
        0 <= ia <= a.len(),
        0 <= ib <= b.len(),
    ensures
        run_left(a, b, ia, ib) <= ia,
        run_left(a, b, ia, ib) <= ib,
        forall|k: int| ia - run_left(a, b, ia, ib) <= k < ia ==> a[k] == b[k - ia + ib],
        ({
            let l = run_left(a, b, ia, ib);
            ia - l == 0 || ib - l == 0 || a[ia - l - 1] != b[ib - l - 1]
        }),
    decreases ia,
{
    if 0 < ia && 0 < ib && a[ia - 1] == b[ib - 1] {
        lemma_run_left(a, b, ia - 1, ib - 1);
        let l = run_left(a, b, ia, ib);
        assert forall|k: int| ia - l <= k < ia implies a[k] == b[k - ia + ib] by {
            if k < ia - 1 {
                assert(a[k] == b[k - (ia - 1) + (ib - 1)]);
            }
        }
    }
}

/// The expansion around a pair of offsets is a shared run through them that
/// can be extended at neither end.
pub proof fn expansion_is_maximal(a: Seq<u8>, b: Seq<u8>, ia: int, ib: int)
    requires
        0 <= ia <= a.len() <= usize::MAX,
        0 <= ib <= b.len() <= usize::MAX,
    ensures
        is_maximal_match_around(a, b, ia, ib, expansion(a, b, ia, ib)),
        expansion(a, b, ia, ib).la == ia - run_left(a, b, ia, ib),
        expansion(a, b, ia, ib).lb == ib - run_left(a, b, ia, ib),
        expansion(a, b, ia, ib).len == run_left(a, b, ia, ib) + run_right(a, b, ia, ib),
{
    lemma_run_right(a, b, ia, ib);
    lemma_run_left(a, b, ia, ib);
    let l = run_left(a, b, ia, ib) as int;
    let r = run_right(a, b, ia, ib) as int;
    let m = expansion(a, b, ia, ib);
    let ra = a.subrange(m.la as int, m.la + m.len);
    let rb = b.subrange(m.lb as int, m.lb + m.len);
    assert forall|j: int| 0 <= j < l + r implies ra[j] == rb[j] by {
        let k = ia - l + j;
        assert(a[k] == b[k - ia + ib]);
    }
    assert(ra =~= rb);
}

/// Only one run through a pair of offsets can be extended at neither end.
pub proof fn maximal_match_is_unique(
    a: Seq<u8>,
    b: Seq<u8>,
    ia: int,
    ib: int,
    m: MatchInterval,
    n: MatchInterval,
)
    requires
        is_maximal_match_around(a, b, ia, ib, m),
        is_maximal_match_around(a, b, ia, ib, n),
    ensures
        m == n,
{
    let ma = a.subrange(m.la as int, m.la + m.len);
    let mb = b.subrange(m.lb as int, m.lb + m.len);
    let na = a.subrange(n.la as int, n.la + n.len);
    let nb = b.subrange(n.lb as int, n.lb + n.len);
    if m.la < n.la {
        // n cannot be extended to the left, yet m holds the byte before it.
        let j = n.la - 1 - m.la;
        assert(ma[j] == mb[j]);
    } else if n.la < m.la {
        let j = m.la - 1 - n.la;
        assert(na[j] == nb[j]);
    }
    if m.la + m.len < n.la + n.len {
        let j = m.la + m.len - n.la;
        assert(na[j] == nb[j]);
    } else if n.la + n.len < m.la + m.len {
        let j = n.la + n.len - m.la;
        assert(ma[j] == mb[j]);
    }
}

impl MatchInterval {
    /// The offset in the target just past this run.
    pub open spec fn target_end(&self) -> int {
        self.lb + self.len
    }

    /// The longest run shared by `a` and `b` that lines `a[ia]` up with
    /// `b[ib]`: the bytes from there on as far as they agree, and the bytes
    /// before as far back as they agree.
    pub fn new(a: &[u8], b: &[u8], ia: usize, ib: usize) -> (result: Self)
        requires
            ia <= a@.len(),
            ib <= b@.len(),
        ensures
            result == expansion(a@, b@, ia as int, ib as int),
            is_maximal_match_around(a@, b@, ia as int, ib as int, result),
    {
        let a_len = a.len();
        let b_len = b.len();
        let mut r: usize = 0;
        while ia + r < a_len && ib + r < b_len && a[ia + r] == b[ib + r]
            invariant
                a_len == a@.len(),
                b_len == b@.len(),
                ia + r <= a_len,
                ib + r <= b_len,
                run_right(a@, b@, ia as int, ib as int) == r + run_right(a@, b@, ia + r, ib + r),
            decreases a_len - ia - r,
        {
            r += 1;
        }
        let mut l: usize = 0;
        while l < ia && l < ib && a[ia - l - 1] == b[ib - l - 1]
            invariant
                ia <= a@.len(),
                ib <= b@.len(),
                l <= ia,
                l <= ib,
                run_left(a@, b@, ia as int, ib as int) == l + run_left(a@, b@, ia - l, ib - l),
            decreases ia - l,
        {
            l += 1;
        }
        proof {
            expansion_is_maximal(a@, b@, ia as int, ib as int);
        }
        Self { la: ia - l, lb: ib - l, len: l + r }
    }

    /// The run of no bytes at the start of both buffers, which stands for
    /// "no run".
    pub fn empty() -> (result: Self)
        ensures
            result == (MatchInterval { la: 0, lb: 0, len: 0 }),
    {
        MatchInterval { la: 0, lb: 0, len: 0 }
    }

    /// The offset in the target just past this run.
    pub fn br(&self) -> (result: usize)
        requires
            self.target_end() <= usize::MAX,
        ensures
            result == self.target_end(),
    {
        self.lb + self.len
    }

    /// Takes from this run what overlaps the target range of `other`, a run
    /// accepted before it, as [`trimmed`] says. What is left, if anything,
    /// starts at or after the end of `other`, ends where this run ended, and
    /// lines up the same bytes of the two buffers.
    pub fn remove_overlap(&mut self, other: &Self)
        requires
            trim_fits(*old(self), *other),
        ensures
            *final(self) == trimmed(*old(self), *other),
            final(self).len <= old(self).len,
            final(self).len > 0 ==> {
                &&& other.target_end() <= final(self).lb
                &&& final(self).target_end() == old(self).target_end()
                &&& final(self).la - old(self).la == final(self).lb - old(self).lb
            },
    {
        let other_end = other.br();
        if other_end <= self.lb {
            return ;
        }
        if other.lb <= self.lb && self.br() <= other_end {
            self.len = 0;
            return ;
        }
        // One byte more than overlaps is cut: what is left starts one byte
        // after the end of `other`.
        let cut = other_end - self.lb + 1;
        self.len = self.len.saturating_sub(cut);
        self.la += cut;
        self.lb += cut;
    }
}

} // verus!

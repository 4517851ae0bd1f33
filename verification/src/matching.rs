//! The sparse index over the reference and the scan of the target that
//! finds the runs the two share.

use crate::buffer::{is_window, window};
use crate::interval::{
    expansion, expansion_is_maximal, is_match, trim_fits, trimmed, MatchInterval,
};
use crate::rolling::{
    every_nth, hash_pairs, lemma_every_nth_index, lemma_every_nth_unfold, pair_at, window_hash,
    RollingHash,
};
use std::collections::HashMap;
use vstd::prelude::*;

verus! {

/// The window length that a minimum match length asks for: half of it,
/// rounded up.
pub open spec fn hash_len_for(min_match_len: nat) -> nat {
    (min_match_len + 1) / 2
}

/// The index that results from entering `pairs` in order, each hash as key
/// and each offset as value: where a hash occurs again, the later offset
/// replaces the earlier one.
pub open spec fn index_of(pairs: Seq<(usize, usize)>) -> Map<usize, usize>
    decreases pairs.len(),
{
    if pairs.len() == 0 {
        Map::empty()
    } else {
        index_of(pairs.drop_last()).insert(pairs.last().0, pairs.last().1)
    }
}

/// The index over the reference `a`: the windows of `hash_len` bytes that
/// start at the multiples of `hash_len`, each entered by its hash.
pub open spec fn sparse_index(a: Seq<u8>, hash_len: nat) -> Map<usize, usize> {
    index_of(every_nth(hash_pairs(a, hash_len), hash_len))
}

/// Where a scan of the target stands: the end of the target range that the
/// last candidate reached, and the runs accepted so far.
pub struct ScanState {
    pub covered_through: nat,
    pub cover: Seq<MatchInterval>,
}

/// The state after the scan has looked at one more window of the target.
/// A window that starts inside what is covered, or whose hash the index does
/// not hold, changes nothing. Otherwise the hit is expanded to the longest
/// shared run through it, the scan is covered through the end of that run,
/// and what the last accepted run leaves of it is accepted, unless nothing
/// is left.
pub open spec fn scan_step(
    a: Seq<u8>,
    b: Seq<u8>,
    index: Map<usize, usize>,
    state: ScanState,
    pair: (usize, usize),
) -> ScanState {
    let (hb, ib) = pair;
    if ib < state.covered_through || !index.contains_key(hb) {
        state
    } else {
        let candidate = expansion(a, b, index[hb] as int, ib as int);
        let rest = if state.cover.len() > 0 {
            trimmed(candidate, state.cover.last())
        } else {
            candidate
        };
        ScanState {
            covered_through: candidate.target_end() as nat,
            cover: if rest.len > 0 {
                state.cover.push(rest)
            } else {
                state.cover
            },
        }
    }
}

/// The state after the scan has looked at the windows `pairs`, in order.
pub open spec fn scan(
    a: Seq<u8>,
    b: Seq<u8>,
    index: Map<usize, usize>,
    pairs: Seq<(usize, usize)>,
) -> ScanState
    decreases pairs.len(),
{
    if pairs.len() == 0 {
        ScanState { covered_through: 0, cover: Seq::empty() }
    } else {
        scan_step(a, b, index, scan(a, b, index, pairs.drop_last()), pairs.last())
    }
}

/// The runs of the target `b` that are found in the reference `a`, in the
/// order of their place in `b`: the outcome of scanning every window of `b`
/// against the sparse index of `a`. A window length of zero finds nothing.
pub open spec fn match_cover(a: Seq<u8>, b: Seq<u8>, min_match_len: nat) -> Seq<MatchInterval> {
    let hash_len = hash_len_for(min_match_len);
    if hash_len == 0 {
        Seq::empty()
    } else {
        scan(a, b, sparse_index(a, hash_len), hash_pairs(b, hash_len)).cover
    }
}

/// Every run of `cover` is shared by `a` and `b` and holds at least one
/// byte, and in the target each ends before the next begins.
pub open spec fn is_cover(a: Seq<u8>, b: Seq<u8>, cover: Seq<MatchInterval>) -> bool {
    &&& forall|i: int|
        0 <= i < cover.len() ==> is_match(a, b, #[trigger] cover[i]) && cover[i].len > 0
    &&& forall|i: int, j: int|
        0 <= i < j < cover.len() ==> (#[trigger] cover[i]).target_end() <= (#[trigger] cover[j]).lb
}

/// Every entry of `index` leads from the hash of a window of `a` to a
/// multiple of `hash_len` at which a window of `hash_len` bytes with that
/// hash starts.
pub open spec fn index_points_into(index: Map<usize, usize>, a: Seq<u8>, hash_len: nat) -> bool {
    forall|key: usize| #[trigger]
        index.contains_key(key) ==> (index[key] as int) % (hash_len as int) == 0 && is_window(
            a,
            index[key] as int,
            hash_len,
        ) && key == window_hash(window(a, index[key] as int, hash_len))
}

/// No window of `hash_len` bytes of `b` has the hash of a window of
/// `hash_len` bytes of `a`.
pub open spec fn no_common_hash(a: Seq<u8>, b: Seq<u8>, hash_len: nat) -> bool {
    forall|i: int, j: int|
        is_window(a, i, hash_len) && is_window(b, j, hash_len) ==> window_hash(
            #[trigger] window(a, i, hash_len),
        ) != window_hash(#[trigger] window(b, j, hash_len))
}

/// What holds of the state of a scan at every step.
spec fn scan_ok(a: Seq<u8>, b: Seq<u8>, state: ScanState) -> bool {
    &&& is_cover(a, b, state.cover)
    &&& state.covered_through <= b.len()
    &&& state.cover.len() > 0 ==> state.cover.last().target_end() <= state.covered_through
}

/// Every entry of an index was entered as one of its pairs.
proof fn lemma_index_entries(pairs: Seq<(usize, usize)>)
    ensures
        forall|key: usize| #[trigger]
            index_of(pairs).contains_key(key) ==> exists|j: int|
                0 <= j < pairs.len() && pairs[j] == (key, index_of(pairs)[key]),
    decreases pairs.len(),
{
    if pairs.len() > 0 {
        let init = pairs.drop_last();
        lemma_index_entries(init);
        assert forall|key: usize| #[trigger] index_of(pairs).contains_key(key) implies exists|
            j: int,
        |
            0 <= j < pairs.len() && pairs[j] == (key, index_of(pairs)[key]) by {
            if key == pairs.last().0 {
                assert(pairs[pairs.len() - 1] == (key, index_of(pairs)[key]));
            } else {
                let j = choose|j: int| 0 <= j < init.len() && init[j] == (key, index_of(init)[key]);
                assert(pairs[j] == (key, index_of(pairs)[key]));
            }
        }
    }
}

/// `pair` is the pair of the window of `a` that starts at the `j`-th
/// multiple of `hash_len`.
spec fn is_sample(a: Seq<u8>, hash_len: nat, j: int, pair: (usize, usize)) -> bool {
    j * hash_len + hash_len <= a.len() && pair == pair_at(a, hash_len, j * hash_len)
}

/// The pairs that are entered into the sparse index of `a`: one for each
/// multiple of `hash_len` at which a window starts, as long as `a` is longer
/// than a window.
proof fn lemma_sampled_pairs(a: &[u8], hash_len: usize)
    requires
        hash_len > 0,
    ensures
        ({
            let h = hash_len as nat;
            let thin = every_nth(hash_pairs(a@, h), h);
            &&& thin.len() == if h < a@.len() {
                a@.len() / h
            } else {
                0
            }
            &&& forall|j: int| 0 <= j < thin.len() ==> #[trigger] is_sample(a@, h, j, thin[j])
        }),
{
    let h = hash_len as nat;
    let all = hash_pairs(a@, h);
    let thin = every_nth(all, h);
    if h >= a@.len() {
        lemma_every_nth_unfold(all, h);
    }
    assert forall|j: int| 0 <= j < thin.len() implies #[trigger] is_sample(a@, h, j, thin[j]) by {
        lemma_every_nth_index(all, h, j);
    }
}

/// An index built from pairs whose offsets ascend holds, for the hash of
/// each pair, an offset that is not less than that of the pair.
proof fn lemma_index_keeps_last(pairs: Seq<(usize, usize)>, j: int)
    requires
        0 <= j < pairs.len(),
        forall|x: int, y: int|
            0 <= x < y < pairs.len() ==> (#[trigger] pairs[x]).1 < (#[trigger] pairs[y]).1,
    ensures
        index_of(pairs).contains_key(pairs[j].0),
        index_of(pairs)[pairs[j].0] >= pairs[j].1,
    decreases pairs.len(),
{
    let init = pairs.drop_last();
    if j < pairs.len() - 1 {
        assert forall|x: int, y: int| 0 <= x < y < init.len() implies (#[trigger] init[x]).1 < (
        #[trigger] init[y]).1 by {
            assert(init[x] == pairs[x] && init[y] == pairs[y]);
        }
        lemma_index_keeps_last(init, j);
        assert(pairs[j].1 < pairs[pairs.len() - 1].1);
    }
}

/// The sparse index of `a` holds only hashes of windows of `a`, each with an
/// offset at which such a window starts.
pub proof fn lemma_sparse_index_points_into(a: &[u8], hash_len: usize)
    requires
        hash_len > 0,
    ensures
        index_points_into(sparse_index(a@, hash_len as nat), a@, hash_len as nat),
{
    let h = hash_len as nat;
    let thin = every_nth(hash_pairs(a@, h), h);
    let index = sparse_index(a@, h);
    lemma_index_entries(thin);
    lemma_sampled_pairs(a, hash_len);
    assert(a.len() == a@.len());
    assert forall|key: usize| #[trigger] index.contains_key(key) implies (index[key] as int) % (
    h as int) == 0 && is_window(a@, index[key] as int, h) && key == window_hash(
        window(a@, index[key] as int, h),
    ) by {
        let j = choose|j: int| 0 <= j < thin.len() && thin[j] == (key, index[key]);
        assert(is_sample(a@, h, j, thin[j]));
        vstd::arithmetic::div_mod::lemma_mod_multiples_basic(j, h as int);
    }
}

/// Of the windows of `a` that are entered into its sparse index, the index
/// keeps for each hash the one furthest to the right: the window of
/// `hash_len` bytes at any multiple `start` of `hash_len` finds its hash in
/// the index, with the offset of a window of the same hash that starts at a
/// multiple of `hash_len` not before `start`.
pub proof fn sparse_index_keeps_rightmost(a: &[u8], hash_len: usize, start: usize)
    requires
        0 < hash_len < a@.len(),
        start % hash_len == 0,
        start + hash_len <= a@.len(),
    ensures
        ({
            let index = sparse_index(a@, hash_len as nat);
            let key = window_hash(window(a@, start as int, hash_len as nat)) as usize;
            &&& index.contains_key(key)
            &&& start <= index[key]
            &&& index[key] % hash_len == 0
            &&& is_window(a@, index[key] as int, hash_len as nat)
            &&& window_hash(window(a@, index[key] as int, hash_len as nat)) == key
        }),
{
    let h = hash_len as nat;
    let thin = every_nth(hash_pairs(a@, h), h);
    lemma_sampled_pairs(a, hash_len);
    lemma_sparse_index_points_into(a, hash_len);
    assert(a.len() == a@.len());
    let j = start as int / h as int;
    vstd::arithmetic::div_mod::lemma_fundamental_div_mod(start as int, h as int);
    assert(0 <= j < a@.len() as int / h as int) by (nonlinear_arith)
        requires
            start == h * j,
            start + h <= a@.len(),
            h > 0,
            start >= 0,
    ;
    assert(start == j * h) by (nonlinear_arith)
        requires
            start == h * j,
    ;
    assert forall|x: int, y: int| 0 <= x < y < thin.len() implies (#[trigger] thin[x]).1 < (
    #[trigger] thin[y]).1 by {
        assert(is_sample(a@, h, y, thin[y]));
        assert(0 <= x * h < y * h) by (nonlinear_arith)
            requires
                0 <= x < y,
                h > 0,
        ;
    }
    lemma_index_keeps_last(thin, j);
}

/// One step of a scan keeps its state in order, and where it trims a
/// candidate, the trimming stays within `usize`.
proof fn lemma_scan_step_ok(
    a: &[u8],
    b: &[u8],
    index: Map<usize, usize>,
    hash_len: usize,
    state: ScanState,
    pair: (usize, usize),
)
    requires
        hash_len > 0,
        index_points_into(index, a@, hash_len as nat),
        scan_ok(a@, b@, state),
        pair.1 + hash_len <= b@.len(),
    ensures
        scan_ok(a@, b@, scan_step(a@, b@, index, state, pair)),
        pair.1 >= state.covered_through && index.contains_key(pair.0) && state.cover.len() > 0
            ==> trim_fits(
            expansion(a@, b@, index[pair.0] as int, pair.1 as int),
            state.cover.last(),
        ),
{
    let (hb, ib) = pair;
    assert(a.len() == a@.len());
    assert(b.len() == b@.len());
    if ib >= state.covered_through && index.contains_key(hb) {
        let ia = index[hb];
        expansion_is_maximal(a@, b@, ia as int, ib as int);
        let m = expansion(a@, b@, ia as int, ib as int);
        let next = scan_step(a@, b@, index, state, pair);
        if state.cover.len() > 0 {
            let prev = state.cover.last();
            let rest = trimmed(m, prev);
            if rest.len > 0 {
                if !(prev.target_end() <= m.lb) {
                    let cut = prev.target_end() - m.lb + 1;
                    assert(a@.subrange(rest.la as int, rest.la + rest.len) =~= a@.subrange(
                        m.la as int,
                        m.la + m.len,
                    ).subrange(cut, m.len as int));
                    assert(b@.subrange(rest.lb as int, rest.lb + rest.len) =~= b@.subrange(
                        m.lb as int,
                        m.lb + m.len,
                    ).subrange(cut, m.len as int));
                }
                assert forall|i: int, j: int| 0 <= i < j < next.cover.len() implies (
                #[trigger] next.cover[i]).target_end() <= (#[trigger] next.cover[j]).lb by {
                    if j == state.cover.len() && i < state.cover.len() - 1 {
                        assert(state.cover[i].target_end() <= prev.lb);
                    }
                }
            }
        }
    }
}

/// A scan in which no window has its hash in the index accepts nothing.
pub proof fn lemma_scan_without_hit(
    a: Seq<u8>,
    b: Seq<u8>,
    index: Map<usize, usize>,
    pairs: Seq<(usize, usize)>,
)
    requires
        forall|j: int| 0 <= j < pairs.len() ==> !index.contains_key(#[trigger] pairs[j].0),
    ensures
        scan(a, b, index, pairs) == (ScanState { covered_through: 0, cover: Seq::empty() }),
    decreases pairs.len(),
{
    if pairs.len() > 0 {
        let init = pairs.drop_last();
        assert forall|j: int| 0 <= j < init.len() implies !index.contains_key(
            #[trigger] init[j].0,
        ) by {
            assert(init[j] == pairs[j]);
        }
        lemma_scan_without_hit(a, b, index, init);
    }
}

/// The state of a scan of the target against an index into the reference is
/// in order after any number of windows.
proof fn lemma_scan_ok(a: &[u8], b: &[u8], index: Map<usize, usize>, hash_len: usize, n: int)
    requires
        hash_len > 0,
        index_points_into(index, a@, hash_len as nat),
        0 <= n <= hash_pairs(b@, hash_len as nat).len(),
    ensures
        scan_ok(a@, b@, scan(a@, b@, index, hash_pairs(b@, hash_len as nat).take(n))),
    decreases n,
{
    let all = hash_pairs(b@, hash_len as nat);
    if n > 0 {
        lemma_scan_ok(a, b, index, hash_len, n - 1);
        assert(all.take(n).drop_last() =~= all.take(n - 1));
        lemma_scan_step_ok(
            a,
            b,
            index,
            hash_len,
            scan(a@, b@, index, all.take(n - 1)),
            all[n - 1],
        );
    }
}

/// The runs found in a target are shared with the reference, none is empty,
/// and in the target each ends before the next begins.
pub proof fn match_cover_is_cover(a: &[u8], b: &[u8], min_match_len: usize)
    ensures
        is_cover(a@, b@, match_cover(a@, b@, min_match_len as nat)),
{
    let h = hash_len_for(min_match_len as nat);
    if h > 0 {
        let hash_len = (min_match_len / 2 + min_match_len % 2) as usize;
        lemma_sparse_index_points_into(a, hash_len);
        let all = hash_pairs(b@, h);
        lemma_scan_ok(a, b, sparse_index(a@, h), hash_len, all.len() as int);
        assert(all.take(all.len() as int) =~= all);
    }
}

/// Builds the index over the reference `a`: for every window of `hash_len`
/// bytes that starts at a multiple of `hash_len`, its hash leads to its
/// offset, and of two such windows with one hash the later one is kept.
pub fn build_index(a: &[u8], hash_len: usize) -> (index: HashMap<usize, usize>)
    requires
        hash_len > 0,
    ensures
        index@ == sparse_index(a@, hash_len as nat),
        index_points_into(index@, a@, hash_len as nat),
{
    broadcast use vstd::std_specs::hash::group_hash_axioms;

    let mut index: HashMap<usize, usize> = HashMap::new();
    let mut samples = RollingHash::new(a, hash_len).step_by(hash_len);
    let ghost all = samples@;
    let ghost mut n: int = 0;
    loop
        invariant
            0 <= n <= all.len(),
            samples@ == all.skip(n),
            index@ == index_of(all.take(n)),
        ensures
            index@ == index_of(all),
        decreases all.len() - n,
    {
        match samples.next() {
            None => {
                proof {
                    assert(all.take(n) =~= all);
                }
                break ;
            },
            Some((hash, start)) => {
                index.insert(hash, start);
                proof {
                    assert(all.take(n + 1).drop_last() =~= all.take(n));
                    n = n + 1;
                }
            },
        }
    }
    proof {
        lemma_sparse_index_points_into(a, hash_len);
    }
    index
}

/// Finds the runs of the target `b` that the reference `a` holds too:
/// scans every window of `b` against the sparse index of `a`, expands each
/// hit into the longest shared run through it, and keeps of each run what
/// the runs accepted before it leave. The runs come in the order of their
/// place in `b`, and none overlaps another there.
pub fn extract_matches(a: &[u8], b: &[u8], min_match_len: usize) -> (cover: Vec<MatchInterval>)
    ensures
        cover@ == match_cover(a@, b@, min_match_len as nat),
        is_cover(a@, b@, cover@),
{
    broadcast use vstd::std_specs::hash::group_hash_axioms;

    // Half of the minimum, rounded up.
    let hash_len = min_match_len / 2 + min_match_len % 2;
    let mut cover: Vec<MatchInterval> = Vec::new();
    if hash_len == 0 {
        return cover;
    }
    let index = build_index(a, hash_len);
    let mut windows = RollingHash::new(b, hash_len);
    let mut covered_through: usize = 0;
    let mut prev: Option<MatchInterval> = None;
    let ghost all = windows@;
    let ghost mut n: int = 0;
    proof {
        assert(b.len() == b@.len());
    }
    loop
        invariant
            hash_len > 0,
            b@.len() <= usize::MAX,
            all == hash_pairs(b@, hash_len as nat),
            index_points_into(index@, a@, hash_len as nat),
            0 <= n <= all.len(),
            windows@ == all.skip(n),
            scan(a@, b@, index@, all.take(n)) == (ScanState {
                covered_through: covered_through as nat,
                cover: cover@,
            }),
            scan_ok(a@, b@, scan(a@, b@, index@, all.take(n))),
            match prev {
                None => cover@.len() == 0,
                Some(p) => cover@.len() > 0 && p == cover@.last(),
            },
        ensures
            cover@ == scan(a@, b@, index@, all).cover,
            is_cover(a@, b@, cover@),
        decreases all.len() - n,
    {
        match windows.next() {
            None => {
                proof {
                    assert(all.take(n) =~= all);
                }
                break ;
            },
            Some((hb, ib)) => {
                proof {
                    assert(all.take(n + 1).drop_last() =~= all.take(n));
                    lemma_scan_step_ok(
                        a,
                        b,
                        index@,
                        hash_len,
                        scan(a@, b@, index@, all.take(n)),
                        (hb, ib),
                    );
                }
                if ib >= covered_through {
                    if let Some(ia) = index.get(&hb) {
                        let mut m = MatchInterval::new(a, b, *ia, ib);
                        covered_through = m.br();
                        if let Some(p) = prev {
                            m.remove_overlap(&p);
                        }
                        if m.len > 0 {
                            prev = Some(m);
                            cover.push(m);
                        }
                    }
                }
                proof {
                    n = n + 1;
                }
            },
        }
    }
    cover
}

} // verus!

//! Computing a delta and replaying it.

use crate::matching::{extract_matches, hash_len_for, is_cover, no_common_hash};
use crate::operation::{
    concat, cover_end, delta_ops, encoded_cover, ops_describe, ops_fit, ops_view, resolved,
    restored, slices_view, Compression, Operation,
};
use crate::theorems::{
    delta_copies_are_ordered_matches, delta_of_empty_reference, delta_of_empty_target,
    delta_round_trip, delta_without_common_hash,
};
use vstd::prelude::*;

verus! {

/// Computes the delta that turns the reference `a` into the target `b`.
///
/// The runs that `b` shares with `a` are found with windows of
/// `(min_match_len + 1) / 2` bytes. Each becomes a `Match`; the bytes of `b`
/// between the runs, before the first and after the last become `Raw`s. No
/// `Raw` is empty, so an empty target has an empty delta. With a minimum of
/// zero the windows hold no byte and nothing is found: all of `b` is then one
/// `Raw`. The result depends on the three arguments alone, and replaying it
/// against `a` gives `b`.
pub fn delta<'a>(a: &'a [u8], b: &'a [u8], min_match_len: usize) -> (ops: Vec<Compression<'a>>)
    ensures
        ops_view(ops@) == delta_ops(a@, b@, min_match_len as nat),
        ops_fit(a@, ops_view(ops@)),
        concat(restored(a@, ops_view(ops@))) == b@,
        ops_describe(a@, b@, ops_view(ops@)),
        b@.len() == 0 ==> ops@.len() == 0,
        a@.len() == 0 && b@.len() > 0 ==> ops_view(ops@) == seq![Operation::Literal { bytes: b@ }],
        b@.len() > 0 && no_common_hash(a@, b@, hash_len_for(min_match_len as nat)) ==> ops_view(
            ops@,
        ) == seq![Operation::Literal { bytes: b@ }],
{
    let cover = extract_matches(a, b, min_match_len);
    let mut ops: Vec<Compression<'a>> = Vec::with_capacity(cover.len());
    let mut prev: usize = 0;
    let mut i: usize = 0;
    proof {
        assert(b.len() == b@.len());
    }
    while i < cover.len()
        invariant
            0 <= i <= cover@.len(),
            b@.len() <= usize::MAX,
            is_cover(a@, b@, cover@),
            prev == cover_end(cover@.take(i as int)),
            prev <= b@.len(),
            ops_view(ops@) == encoded_cover(b@, cover@.take(i as int)),
        decreases cover@.len() - i,
    {
        let run = cover[i];
        proof {
            assert(cover@.take(i + 1).drop_last() =~= cover@.take(i as int));
        }
        if prev < run.lb {
            ops.push(Compression::Raw(&b[prev..run.lb]));
        }
        ops.push(Compression::Match(run.la, run.len));
        prev = run.lb + run.len;
        i += 1;
    }
    proof {
        assert(cover@.take(i as int) =~= cover@);
    }
    if prev != b.len() {
        ops.push(Compression::Raw(&b[prev..b.len()]));
    }
    proof {
        delta_round_trip(a, b, min_match_len);
        delta_copies_are_ordered_matches(a, b, min_match_len);
        delta_of_empty_target(a, b, min_match_len);
        delta_of_empty_reference(a, b, min_match_len);
        if b@.len() > 0 && no_common_hash(a@, b@, hash_len_for(min_match_len as nat)) {
            delta_without_common_hash(a, b, min_match_len);
        }
    }
    ops
}

/// Tells whether a delta can be replayed against the reference `a`: whether
/// every `Match` of it names a range that lies inside `a`.
pub fn can_restore(a: &[u8], compressions: &[Compression<'_>]) -> (result: bool)
    ensures
        result == ops_fit(a@, ops_view(compressions@)),
{
    let mut i: usize = 0;
    while i < compressions.len()
        invariant
            0 <= i <= compressions@.len(),
            forall|j: int|
                0 <= j < i ==> (#[trigger] ops_view(compressions@)[j] matches Operation::Copy {
                    offset,
                    len,
                } ==> offset + len <= a@.len()),
        decreases compressions@.len() - i,
    {
        proof {
            assert(ops_view(compressions@)[i as int] == compressions@[i as int]@);
        }
        match &compressions[i] {
            Compression::Match(la, len) => {
                if *len > a.len() || *la > a.len() - *len {
                    return false;
                }
            },
            Compression::Raw(_) => {},
        }
        i += 1;
    }
    true
}

/// Replays a delta against the reference `a`: a slice for each operation,
/// the range of `a` for a `Match` and the bytes themselves for a `Raw`. Laid
/// end to end, the slices are the target that the delta was computed for.
///
/// No offset is checked against `a` as the delta is replayed: that every
/// `Match` lies inside `a` is the caller's to see to. It holds of what
/// [`delta`] returns for the same `a`.
pub fn restore<'a>(a: &'a [u8], compressions: &[Compression<'a>]) -> (parts: Vec<&'a [u8]>)
    requires
        ops_fit(a@, ops_view(compressions@)),
    ensures
        slices_view(parts@) == restored(a@, ops_view(compressions@)),
{
    let mut parts: Vec<&'a [u8]> = Vec::new();
    let mut i: usize = 0;
    proof {
        assert(a.len() == a@.len());
    }
    while i < compressions.len()
        invariant
            0 <= i <= compressions@.len(),
            a@.len() <= usize::MAX,
            ops_fit(a@, ops_view(compressions@)),
            slices_view(parts@) == restored(a@, ops_view(compressions@).take(i as int)),
        decreases compressions@.len() - i,
    {
        let ghost before = slices_view(parts@);
        proof {
            assert(ops_view(compressions@)[i as int] == compressions@[i as int]@);
        }
        match &compressions[i] {
            Compression::Match(la, len) => {
                parts.push(&a[*la..*la + *len]);
            },
            Compression::Raw(data) => {
                parts.push(*data);
            },
        }
        i += 1;
        proof {
            assert(restored(a@, ops_view(compressions@).take(i as int)) =~= before.push(
                resolved(a@, ops_view(compressions@)[i - 1]),
            ));
        }
    }
    parts
}

/// Two calls of [`delta`] on the same buffers with the same minimum give the
/// same operations.
pub proof fn delta_is_deterministic<'a>(
    a: &'a [u8],
    b: &'a [u8],
    min_match_len: usize,
    first: Vec<Compression<'a>>,
    second: Vec<Compression<'a>>,
)
    requires
        call_ensures(delta, (a, b, min_match_len), first),
        call_ensures(delta, (a, b, min_match_len), second),
    ensures
        ops_view(first@) == ops_view(second@),
        first@ == second@,
{
    assert(first@.len() == ops_view(first@).len());
    assert(second@.len() == ops_view(second@).len());
    assert forall|i: int| 0 <= i < first@.len() implies first@[i] == second@[i] by {
        assert(ops_view(first@)[i] == first@[i]@);
        assert(ops_view(second@)[i] == second@[i]@);
        match (first@[i], second@[i]) {
            (Compression::Raw(x), Compression::Raw(y)) => {
                assert(x@ == y@);
                assert(x =~= y);
            },
            _ => {},
        }
    }
    assert(first@ =~= second@);
}

/// Replaying what [`delta`] returns for a reference and a target against
/// that reference is within the contract of [`restore`], and the slices that
/// it returns, laid end to end, are the target.
pub proof fn restore_of_delta_is_target<'a>(
    a: &'a [u8],
    b: &'a [u8],
    min_match_len: usize,
    ops: Vec<Compression<'a>>,
    replayed: &[Compression<'a>],
    parts: Vec<&'a [u8]>,
)
    requires
        call_ensures(delta, (a, b, min_match_len), ops),
        replayed@ == ops@,
        call_ensures(restore, (a, replayed), parts),
    ensures
        call_requires(restore, (a, replayed)),
        concat(slices_view(parts@)) == b@,
{
}

} // verus!

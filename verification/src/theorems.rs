//! What holds of every delta.

use crate::interval::{is_match, MatchInterval};
use crate::matching::{
    hash_len_for, is_cover, lemma_scan_without_hit, lemma_sparse_index_points_into, match_cover,
    match_cover_is_cover, no_common_hash, sparse_index,
};
use crate::operation::{
    concat, cover_end, delta_ops, encoded, encoded_cover, gap_literal, op_holds_at, op_len,
    ops_describe, ops_fit, restored, target_offset, Operation,
};
use crate::rolling::{hash_pairs, lemma_every_nth_unfold};
use vstd::prelude::*;

verus! {

/// Laying sequences end to end can be done in two parts.
proof fn lemma_concat_add(x: Seq<Seq<u8>>, y: Seq<Seq<u8>>)
    ensures
        concat(x + y) == concat(x) + concat(y),
    decreases y.len(),
{
    if y.len() > 0 {
        lemma_concat_add(x, y.drop_last());
        assert((x + y).drop_last() =~= x + y.drop_last());
    }
}

/// One sequence laid end to end is itself.
proof fn lemma_concat_one(s: Seq<u8>)
    ensures
        concat(seq![s]) == s,
{
    assert(concat(seq![s].drop_last()) =~= Seq::<u8>::empty());
}

/// Replaying operations can be done in two parts.
proof fn lemma_restored_add(a: Seq<u8>, x: Seq<Operation>, y: Seq<Operation>)
    ensures
        restored(a, x + y) == restored(a, x) + restored(a, y),
{
}

/// The literal for a gap replays to the bytes of the gap.
proof fn lemma_gap_replays(a: Seq<u8>, b: Seq<u8>, from: int, to: int)
    requires
        0 <= from <= to <= b.len(),
    ensures
        concat(restored(a, gap_literal(b, from, to))) == b.subrange(from, to),
        ops_fit(a, gap_literal(b, from, to)),
{
    if from < to {
        assert(restored(a, gap_literal(b, from, to)) =~= seq![b.subrange(from, to)]);
        lemma_concat_one(b.subrange(from, to));
    }
}

/// A cover without its last run is a cover, and ends at or before the start
/// of that run.
proof fn lemma_cover_without_last(a: Seq<u8>, b: Seq<u8>, cover: Seq<MatchInterval>)
    requires
        is_cover(a, b, cover),
        cover.len() > 0,
    ensures
        is_cover(a, b, cover.drop_last()),
        0 <= cover_end(cover.drop_last()) <= cover.last().lb,
        is_match(a, b, cover.last()),
        cover.last().len > 0,
{
    let before = cover.drop_last();
    assert forall|i: int| 0 <= i < before.len() implies is_match(a, b, #[trigger] before[i])
        && before[i].len > 0 by {
        assert(before[i] == cover[i]);
    }
    assert forall|i: int, j: int| 0 <= i < j < before.len() implies (
    #[trigger] before[i]).target_end() <= (#[trigger] before[j]).lb by {
        assert(before[i] == cover[i] && before[j] == cover[j]);
    }
    if before.len() > 0 {
        assert(before.last() == cover[cover.len() - 2]);
        assert(cover[cover.len() - 2].target_end() <= cover[cover.len() - 1].lb);
    }
}

/// The operations for the runs of a cover replay to the target up to the end
/// of the last run, and each copy among them lies inside the reference.
proof fn lemma_encoded_cover_replays(a: Seq<u8>, b: Seq<u8>, cover: Seq<MatchInterval>)
    requires
        is_cover(a, b, cover),
    ensures
        0 <= cover_end(cover) <= b.len(),
        concat(restored(a, encoded_cover(b, cover))) == b.take(cover_end(cover)),
        ops_fit(a, encoded_cover(b, cover)),
    decreases cover.len(),
{
    if cover.len() > 0 {
        let before = cover.drop_last();
        let run = cover.last();
        lemma_cover_without_last(a, b, cover);
        lemma_encoded_cover_replays(a, b, before);
        let end = cover_end(before);
        let head = encoded_cover(b, before);
        let gap = gap_literal(b, end, run.lb as int);
        let copy = seq![Operation::Copy { offset: run.la as nat, len: run.len as nat }];
        lemma_gap_replays(a, b, end, run.lb as int);
        lemma_restored_add(a, head, gap);
        lemma_restored_add(a, head + gap, copy);
        lemma_concat_add(restored(a, head), restored(a, gap));
        lemma_concat_add(restored(a, head + gap), restored(a, copy));
        assert(restored(a, copy) =~= seq![a.subrange(run.la as int, run.la + run.len)]);
        lemma_concat_one(a.subrange(run.la as int, run.la + run.len));
    }
}

/// The operations for a target replay to the target, and each copy among
/// them lies inside the reference.
pub proof fn encoding_round_trip(a: Seq<u8>, b: Seq<u8>, cover: Seq<MatchInterval>)
    requires
        is_cover(a, b, cover),
    ensures
        concat(restored(a, encoded(b, cover))) == b,
        ops_fit(a, encoded(b, cover)),
{
    lemma_encoded_cover_replays(a, b, cover);
    let end = cover_end(cover);
    let head = encoded_cover(b, cover);
    let tail = gap_literal(b, end, b.len() as int);
    lemma_gap_replays(a, b, end, b.len() as int);
    lemma_restored_add(a, head, tail);
    lemma_concat_add(restored(a, head), restored(a, tail));
}

/// Replaying the delta from `a` to `b` against `a` gives `b`: the byte
/// sequences that its operations resolve to, laid end to end, are the
/// target. Every copy of the delta lies inside `a`.
pub proof fn delta_round_trip(a: &[u8], b: &[u8], min_match_len: usize)
    ensures
        concat(restored(a@, delta_ops(a@, b@, min_match_len as nat))) == b@,
        ops_fit(a@, delta_ops(a@, b@, min_match_len as nat)),
{
    match_cover_is_cover(a, b, min_match_len);
    encoding_round_trip(a@, b@, match_cover(a@, b@, min_match_len as nat));
}

/// The delta for an empty target is empty.
pub proof fn delta_of_empty_target(a: &[u8], b: &[u8], min_match_len: usize)
    ensures
        b@.len() == 0 ==> delta_ops(a@, b@, min_match_len as nat) == Seq::<Operation>::empty(),
{
}

/// Where no window of the target has its hash in the index, the delta of a
/// target that is not empty is the one literal that holds all of it.
proof fn lemma_delta_without_hit(a: &[u8], b: &[u8], min_match_len: usize)
    requires
        b@.len() > 0,
        hash_len_for(min_match_len as nat) > 0 ==> forall|j: int|
            0 <= j < hash_pairs(b@, hash_len_for(min_match_len as nat)).len() ==> !sparse_index(
                a@,
                hash_len_for(min_match_len as nat),
            ).contains_key(#[trigger] hash_pairs(b@, hash_len_for(min_match_len as nat))[j].0),
    ensures
        delta_ops(a@, b@, min_match_len as nat) == seq![Operation::Literal { bytes: b@ }],
{
    let h = hash_len_for(min_match_len as nat);
    if h > 0 {
        lemma_scan_without_hit(a@, b@, sparse_index(a@, h), hash_pairs(b@, h));
    }
    assert(b@.subrange(0, b@.len() as int) =~= b@);
}

/// The delta from an empty reference to a target that is not empty is the
/// one literal that holds all of the target.
pub proof fn delta_of_empty_reference(a: &[u8], b: &[u8], min_match_len: usize)
    ensures
        a@.len() == 0 && b@.len() > 0 ==> delta_ops(a@, b@, min_match_len as nat)
            == seq![Operation::Literal { bytes: b@ }],
{
    if a@.len() == 0 && b@.len() > 0 {
        let h = hash_len_for(min_match_len as nat);
        if h > 0 {
            lemma_every_nth_unfold(hash_pairs(a@, h), h);
        }
        lemma_delta_without_hit(a, b, min_match_len);
    }
}

/// Where no window of the target `b` has the hash of any window of the
/// reference `a`, the delta of a target that is not empty is the one literal
/// that holds all of it. The windows are those of `(min_match_len + 1) / 2`
/// bytes.
pub proof fn delta_without_common_hash(a: &[u8], b: &[u8], min_match_len: usize)
    requires
        b@.len() > 0,
        no_common_hash(a@, b@, hash_len_for(min_match_len as nat)),
    ensures
        delta_ops(a@, b@, min_match_len as nat) == seq![Operation::Literal { bytes: b@ }],
{
    let h = hash_len_for(min_match_len as nat);
    if h > 0 {
        lemma_sparse_index_points_into(a, h as usize);
    }
    lemma_delta_without_hit(a, b, min_match_len);
}

/// In the target, the bytes of each operation of a sequence begin where
/// those of the operation before it end.
pub proof fn target_offsets_ascend(ops: Seq<Operation>, i: int, j: int)
    requires
        0 <= i < j <= ops.len(),
    ensures
        target_offset(ops, i) + op_len(ops[i]) <= target_offset(ops, j),
    decreases j,
{
    if i + 1 < j {
        target_offsets_ascend(ops, i, j - 1);
    }
}

/// Operations that follow others have their place in the target after all
/// of those.
proof fn lemma_target_offset_add(x: Seq<Operation>, y: Seq<Operation>, i: int)
    requires
        0 <= i <= x.len() + y.len(),
    ensures
        i <= x.len() ==> target_offset(x + y, i) == target_offset(x, i),
        i >= x.len() ==> target_offset(x + y, i) == target_offset(x, x.len() as int)
            + target_offset(y, i - x.len()),
    decreases i,
{
    if i > 0 {
        lemma_target_offset_add(x, y, i - 1);
    }
}

/// The operations for the runs of a cover account for the target up to the
/// end of the last run, and say what is true of the buffers.
proof fn lemma_encoded_cover_describes(a: Seq<u8>, b: Seq<u8>, cover: Seq<MatchInterval>)
    requires
        is_cover(a, b, cover),
    ensures
        target_offset(encoded_cover(b, cover), encoded_cover(b, cover).len() as int) == cover_end(
            cover,
        ),
        ops_describe(a, b, encoded_cover(b, cover)),
    decreases cover.len(),
{
    if cover.len() > 0 {
        let before = cover.drop_last();
        let run = cover.last();
        lemma_cover_without_last(a, b, cover);
        lemma_encoded_cover_describes(a, b, before);
        let end = cover_end(before);
        let head = encoded_cover(b, before);
        let gap = gap_literal(b, end, run.lb as int);
        let copy = seq![Operation::Copy { offset: run.la as nat, len: run.len as nat }];
        lemma_extended_describes(a, b, head, gap, end);
        lemma_extended_describes(a, b, head + gap, copy, run.lb as int);
    }
}

/// Operations that say what is true of the buffers up to an offset still do
/// so when one operation that is true of the buffers at that offset follows
/// them.
proof fn lemma_extended_describes(
    a: Seq<u8>,
    b: Seq<u8>,
    head: Seq<Operation>,
    more: Seq<Operation>,
    end: int,
)
    requires
        ops_describe(a, b, head),
        target_offset(head, head.len() as int) == end,
        more.len() <= 1,
        more.len() == 1 ==> op_holds_at(a, b, more[0], end as nat),
    ensures
        ops_describe(a, b, head + more),
        target_offset(head + more, (head + more).len() as int) == end + (if more.len() == 1 {
            op_len(more[0])
        } else {
            0
        }),
{
    let all = head + more;
    lemma_target_offset_add(head, more, all.len() as int);
    assert forall|i: int| 0 <= i < all.len() implies #[trigger] op_holds_at(
        a,
        b,
        all[i],
        target_offset(all, i),
    ) by {
        lemma_target_offset_add(head, more, i);
    }
    if more.len() == 1 {
        assert(target_offset(more, 1) == target_offset(more, 0) + op_len(more[0]));
    }
}

/// Every operation of the delta from `a` to `b` says what is true of the
/// buffers. Each copy names a run of at least one byte that lies inside `a`
/// and equals the bytes of `b` at the place where the copy belongs in the
/// target; each literal holds the bytes of `b` at its place. The places
/// ascend: each operation's bytes end before the next one's begin, so no
/// two copies overlap in the target and a later copy lies strictly after an
/// earlier one.
pub proof fn delta_copies_are_ordered_matches(a: &[u8], b: &[u8], min_match_len: usize)
    ensures
        ops_describe(a@, b@, delta_ops(a@, b@, min_match_len as nat)),
        ({
            let ops = delta_ops(a@, b@, min_match_len as nat);
            forall|i: int, j: int|
                #![trigger target_offset(ops, i), target_offset(ops, j)]
                0 <= i < j < ops.len() ==> target_offset(ops, i) < target_offset(ops, j)
                    && target_offset(ops, i) + op_len(ops[i]) <= target_offset(ops, j)
        }),
{
    let cover = match_cover(a@, b@, min_match_len as nat);
    let ops = delta_ops(a@, b@, min_match_len as nat);
    match_cover_is_cover(a, b, min_match_len);
    lemma_encoded_cover_describes(a@, b@, cover);
    let head = encoded_cover(b@, cover);
    let end = cover_end(cover);
    lemma_extended_describes(a@, b@, head, gap_literal(b@, end, b@.len() as int), end);
    assert forall|i: int, j: int|
        #![trigger target_offset(ops, i), target_offset(ops, j)]
        0 <= i < j < ops.len() implies target_offset(ops, i) < target_offset(ops, j)
        && target_offset(ops, i) + op_len(ops[i]) <= target_offset(ops, j) by {
        target_offsets_ascend(ops, i, j);
        assert(op_holds_at(a@, b@, ops[i], target_offset(ops, i)));
    }
}

} // verus!

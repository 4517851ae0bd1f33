//! The operations that a delta is made of, and what they stand for.

use crate::buffer::window;
use crate::interval::MatchInterval;
use crate::matching::match_cover;
use vstd::prelude::*;

verus! {

/// One step of a delta: a range of the reference to copy, or bytes of the
/// target to take as they are.
#[derive(Debug, PartialEq)]
pub enum Compression<'a> {
    /// Copy `.1` bytes of the reference, starting at offset `.0`.
    Match(usize, usize),
    /// Take these bytes.
    Raw(&'a [u8]),
}

/// What a [`Compression`] stands for.
pub enum Operation {
    /// `len` bytes of the reference, starting at `offset`.
    Copy { offset: nat, len: nat },
    /// The bytes themselves.
    Literal { bytes: Seq<u8> },
}

impl<'a> View for Compression<'a> {
    type V = Operation;

    open spec fn view(&self) -> Operation {
        match self {
            Compression::Match(offset, len) => Operation::Copy {
                offset: *offset as nat,
                len: *len as nat,
            },
            Compression::Raw(bytes) => Operation::Literal { bytes: bytes@ },
        }
    }
}

/// The operations that a sequence of [`Compression`]s stands for.
pub open spec fn ops_view(ops: Seq<Compression<'_>>) -> Seq<Operation> {
    Seq::new(ops.len(), |i: int| ops[i]@)
}

/// The byte sequences that a sequence of slices holds.
pub open spec fn slices_view(parts: Seq<&[u8]>) -> Seq<Seq<u8>> {
    Seq::new(parts.len(), |i: int| parts[i]@)
}

/// The offset in the target just past the last run of `cover`, or the start
/// of the target if `cover` holds no run.
pub open spec fn cover_end(cover: Seq<MatchInterval>) -> int {
    if cover.len() == 0 {
        0
    } else {
        cover.last().target_end()
    }
}

/// The literal that carries the bytes of `b` from `from` up to `to`, if
/// there are any.
pub open spec fn gap_literal(b: Seq<u8>, from: int, to: int) -> Seq<Operation> {
    if from < to {
        seq![Operation::Literal { bytes: b.subrange(from, to) }]
    } else {
        Seq::empty()
    }
}

/// The operations for the target up to the end of the last run of `cover`:
/// for each run a copy, and before it a literal for the bytes that lie
/// between it and the run before.
pub open spec fn encoded_cover(b: Seq<u8>, cover: Seq<MatchInterval>) -> Seq<Operation>
    decreases cover.len(),
{
    if cover.len() == 0 {
        Seq::empty()
    } else {
        let before = cover.drop_last();
        let run = cover.last();
        encoded_cover(b, before) + gap_literal(b, cover_end(before), run.lb as int)
            + seq![Operation::Copy { offset: run.la as nat, len: run.len as nat }]
    }
}

/// The operations for the whole target `b`: those for its runs, and a
/// literal for the bytes that follow the last run.
pub open spec fn encoded(b: Seq<u8>, cover: Seq<MatchInterval>) -> Seq<Operation> {
    encoded_cover(b, cover) + gap_literal(b, cover_end(cover), b.len() as int)
}

/// The delta that turns the reference `a` into the target `b`.
pub open spec fn delta_ops(a: Seq<u8>, b: Seq<u8>, min_match_len: nat) -> Seq<Operation> {
    encoded(b, match_cover(a, b, min_match_len))
}

/// The bytes that an operation gives when it is replayed against `a`.
pub open spec fn resolved(a: Seq<u8>, op: Operation) -> Seq<u8> {
    match op {
        Operation::Copy { offset, len } => window(a, offset as int, len),
        Operation::Literal { bytes } => bytes,
    }
}

/// The byte sequences that the operations give, one for each, when they are
/// replayed against `a`.
pub open spec fn restored(a: Seq<u8>, ops: Seq<Operation>) -> Seq<Seq<u8>> {
    Seq::new(ops.len(), |i: int| resolved(a, ops[i]))
}

/// The byte sequences of `parts` laid end to end.
pub open spec fn concat(parts: Seq<Seq<u8>>) -> Seq<u8>
    decreases parts.len(),
{
    if parts.len() == 0 {
        Seq::empty()
    } else {
        concat(parts.drop_last()) + parts.last()
    }
}

/// Every copy among `ops` reads a range that lies inside `a`.
pub open spec fn ops_fit(a: Seq<u8>, ops: Seq<Operation>) -> bool {
    forall|i: int|
        0 <= i < ops.len() ==> (#[trigger] ops[i] matches Operation::Copy { offset, len } ==> offset
            + len <= a.len())
}

/// How many bytes of the target an operation accounts for.
pub open spec fn op_len(op: Operation) -> nat {
    match op {
        Operation::Copy { offset, len } => len,
        Operation::Literal { bytes } => bytes.len(),
    }
}

/// The offset in the target at which the bytes of `ops[i]` belong: the
/// number of bytes that the operations before it account for.
pub open spec fn target_offset(ops: Seq<Operation>, i: int) -> nat
    decreases i,
{
    if i <= 0 {
        0
    } else {
        target_offset(ops, i - 1) + op_len(ops[i - 1])
    }
}

/// `op`, placed at offset `at` of the target, says what is true of `a` and
/// `b`: a copy names a run of at least one byte that `a` holds where the copy
/// says and `b` holds at `at`; a literal holds at least one byte, and its
/// bytes are those of `b` at `at`.
pub open spec fn op_holds_at(a: Seq<u8>, b: Seq<u8>, op: Operation, at: nat) -> bool {
    match op {
        Operation::Copy { offset, len } => {
            &&& len > 0
            &&& offset + len <= a.len()
            &&& at + len <= b.len()
            &&& window(a, offset as int, len) == window(b, at as int, len)
        },
        Operation::Literal { bytes } => {
            &&& bytes.len() > 0
            &&& at + bytes.len() <= b.len()
            &&& bytes == window(b, at as int, bytes.len())
        },
    }
}

/// Every operation of `ops`, placed where it belongs in the target, says
/// what is true of `a` and `b`.
pub open spec fn ops_describe(a: Seq<u8>, b: Seq<u8>, ops: Seq<Operation>) -> bool {
    forall|i: int|
        0 <= i < ops.len() ==> #[trigger] op_holds_at(a, b, ops[i], target_offset(ops, i))
}

} // verus!

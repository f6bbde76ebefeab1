//! The mathematical model of a segmented buffer and of range replacement.

use vstd::prelude::*;

verus! {

/// Whether a segment still holds bytes that the buffer was made from or was
/// produced by a replacement.
#[derive(Debug, Clone, Copy, PartialEq, Eq, Structural)]
pub enum State {
    Untouched,
    Touched,
}

/// Why a replacement was refused.
#[derive(Debug, Clone, Copy, PartialEq, Eq, Structural)]
pub enum ReplaceError {
    /// No segment begins at or before the start of the requested range.
    NoCoveringSegment,
    /// The requested range meets a segment that was replaced before, and the
    /// caller asked for such a replacement to be refused.
    TouchConflict,
}

/// A segment as a mathematical value: its state, the logical range
/// `[start, end)` it stands for, and the bytes it carries.
pub struct Segment {
    pub state: State,
    pub start: nat,
    pub end: nat,
    pub bytes: Seq<u8>,
}

/// `a - b`, or zero where `b` exceeds `a`.
pub open spec fn clamped_sub(a: int, b: int) -> int {
    if a >= b {
        a - b
    } else {
        0
    }
}

/// The smaller of two integers.
pub open spec fn smaller(a: int, b: int) -> int {
    if a <= b {
        a
    } else {
        b
    }
}

/// The bytes of all segments, in order.
pub open spec fn flatten(parts: Seq<Segment>) -> Seq<u8>
    decreases parts.len(),
{
    if parts.len() == 0 {
        Seq::empty()
    } else {
        flatten(parts.drop_last()) + parts.last().bytes
    }
}

/// The segment list of a fresh buffer over `bytes`.
pub open spec fn initial(bytes: Seq<u8>) -> Seq<Segment> {
    if bytes.len() == 0 {
        Seq::empty()
    } else {
        seq![Segment { state: State::Untouched, start: 0, end: bytes.len(), bytes }]
    }
}

/// The first segment is anchored at logical position zero.
pub open spec fn anchored(parts: Seq<Segment>) -> bool {
    parts.len() > 0 ==> parts[0].start == 0
}

/// Each segment begins where the one before it ends.
pub open spec fn contiguous(parts: Seq<Segment>) -> bool {
    forall|i: int| 0 <= i < parts.len() - 1 ==> #[trigger] parts[i].end == parts[i + 1].start
}

/// No segment ends before it begins. Together with `contiguous` this puts
/// the segments in ascending order of their starts.
pub open spec fn ordered(parts: Seq<Segment>) -> bool {
    forall|i: int| 0 <= i < parts.len() ==> (#[trigger] parts[i]).start <= parts[i].end
}

/// The invariant of a buffer's segment list.
pub open spec fn well_formed(parts: Seq<Segment>) -> bool {
    anchored(parts) && contiguous(parts)
}

/// The least index `i >= from` with `parts[i].start <= start`, if any.
pub open spec fn first_starting_by(parts: Seq<Segment>, start: nat, from: int) -> Option<int>
    decreases parts.len() - from,
{
    if from < 0 || from >= parts.len() {
        None
    } else if parts[from].start <= start {
        Some(from)
    } else {
        first_starting_by(parts, start, from + 1)
    }
}

/// The greatest index `i < below` with `parts[i].end >= end`, if any.
pub open spec fn last_ending_from(parts: Seq<Segment>, end: nat, below: int) -> Option<int>
    decreases below,
{
    if below <= 0 || below > parts.len() {
        None
    } else if parts[below - 1].end >= end {
        Some(below - 1)
    } else {
        last_ending_from(parts, end, below - 1)
    }
}

/// The start segment of a replacement: the first segment that begins at or
/// before `start`.
pub open spec fn start_index(parts: Seq<Segment>, start: nat) -> Option<int> {
    first_starting_by(parts, start, 0)
}

/// The end segment of a replacement: the last segment that ends at or after
/// `end`.
pub open spec fn end_index(parts: Seq<Segment>, end: nat) -> Option<int> {
    last_ending_from(parts, end, parts.len() as int)
}

/// One past the last segment that the conflict check inspects.
pub open spec fn inspect_limit(parts: Seq<Segment>, end: nat) -> int {
    match end_index(parts, end) {
        Some(e) => e + 1,
        None => parts.len() as int,
    }
}

/// Some segment with index in `[lo, hi)` is touched.
pub open spec fn touched_between(parts: Seq<Segment>, lo: int, hi: int) -> bool {
    exists|i: int| lo <= i < hi && 0 <= i < parts.len() && (#[trigger] parts[i]).state == State::Touched
}

/// What is kept of the start segment: its bytes before `start`, at most as
/// many as it has. Nothing where the segment does not begin before `start`.
pub open spec fn left_remainder(seg: Segment, start: nat) -> Seq<Segment> {
    if start > seg.start {
        seq![
            Segment {
                state: seg.state,
                start: seg.start,
                end: start,
                bytes: seg.bytes.take(smaller(start - seg.start, seg.bytes.len() as int)),
            },
        ]
    } else {
        Seq::empty()
    }
}

/// What is kept of a non-empty end segment: its bytes from the offset of `end`
/// on, where that offset is never past the segment's last byte.
pub open spec fn right_remainder(seg: Segment, end: nat) -> Segment {
    Segment {
        state: seg.state,
        start: end,
        end: seg.end,
        bytes: seg.bytes.skip(
            smaller(clamped_sub(end as int, seg.start as int), seg.bytes.len() - 1),
        ),
    }
}

/// What follows the new segment: the right remainder of the end segment and
/// the segments after it, or nothing where there is no end segment or it
/// carries no bytes.
pub open spec fn tail(parts: Seq<Segment>, end: nat) -> Seq<Segment> {
    match end_index(parts, end) {
        Some(e) => if parts[e].bytes.len() > 0 {
            seq![right_remainder(parts[e], end)] + parts.skip(e + 1)
        } else {
            Seq::empty()
        },
        None => Seq::empty(),
    }
}

/// The segment that a replacement puts in.
pub open spec fn fresh(start: nat, end: nat, bytes: Seq<u8>) -> Segment {
    Segment { state: State::Touched, start, end, bytes }
}

/// The segment list after `[start, end)` was replaced by `bytes`, where `si`
/// is the start segment.
pub open spec fn rebuilt(parts: Seq<Segment>, si: int, start: nat, end: nat, bytes: Seq<u8>) -> Seq<
    Segment,
> {
    parts.take(si) + left_remainder(parts[si], start) + seq![fresh(start, end, bytes)] + tail(
        parts,
        end,
    )
}

/// What a replacement of `[start, end)` by `bytes` gives on `parts`: the new
/// segment list, or the reason for which the list stays as it is.
pub open spec fn replace_outcome(
    parts: Seq<Segment>,
    start: nat,
    end: nat,
    bytes: Seq<u8>,
    reject_if_touched: bool,
) -> Result<Seq<Segment>, ReplaceError> {
    if end == 0 {
        Ok(parts)
    } else {
        match start_index(parts, start) {
            None => Err(ReplaceError::NoCoveringSegment),
            Some(si) => if reject_if_touched && touched_between(
                parts,
                si,
                inspect_limit(parts, end),
            ) {
                Err(ReplaceError::TouchConflict)
            } else {
                Ok(rebuilt(parts, si, start, end, bytes))
            },
        }
    }
}

/// The segment list that a buffer holds after the call, whether it succeeded
/// or not.
pub open spec fn after_replace(
    parts: Seq<Segment>,
    start: nat,
    end: nat,
    bytes: Seq<u8>,
    reject_if_touched: bool,
) -> Seq<Segment> {
    match replace_outcome(parts, start, end, bytes, reject_if_touched) {
        Ok(p) => p,
        Err(_) => parts,
    }
}

/// What every replacement at `start` keeps of a non-empty list's content
/// before the new bytes: the first segment's bytes before `start`.
pub open spec fn kept_prefix(parts: Seq<Segment>, start: nat) -> Seq<u8> {
    parts[0].bytes.take(smaller(start as int, parts[0].bytes.len() as int))
}

/// The logical length of a buffer: the greatest position at which one of its
/// segments ends, zero for a buffer without segments.
pub open spec fn logical_length(parts: Seq<Segment>) -> nat
    decreases parts.len(),
{
    if parts.len() == 0 {
        0
    } else {
        let before = logical_length(parts.drop_last());
        if parts.last().end >= before {
            parts.last().end
        } else {
            before
        }
    }
}

/// The ranges `[start1, end1)` and `[start2, end2)` share a position.
pub open spec fn ranges_intersect(start1: nat, end1: nat, start2: nat, end2: nat) -> bool {
    start1 < end1 && start2 < end2 && start1 < end2 && start2 < end1
}

/// The ranges `[start1, end1)` and `[start2, end2)` share no position.
pub open spec fn ranges_disjoint(start1: nat, end1: nat, start2: nat, end2: nat) -> bool {
    start1 <= end1 && start2 <= end2 && (end1 <= start2 || end2 <= start1)
}

/// Replacing `[.., end)` by `bytes` a second time finds the list as the first
/// time left it: the call does nothing at all, or the new bytes are empty, or
/// the first replacement put something behind them.
pub open spec fn retouch_stable(parts: Seq<Segment>, end: nat, bytes: Seq<u8>) -> bool {
    end == 0 || parts.len() == 0 || bytes.len() == 0 || tail(parts, end).len() > 0
}

} // verus!

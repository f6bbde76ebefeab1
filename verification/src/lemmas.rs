//! Facts about the model that the properties and the container rest on.

use crate::model::{
    anchored, contiguous, end_index, first_starting_by, flatten, fresh, kept_prefix,
    last_ending_from, left_remainder, logical_length, ordered, rebuilt, right_remainder,
    start_index, tail, well_formed, Segment,
};
use vstd::prelude::*;

verus! {

/// Flattening distributes over concatenation of segment lists.
pub proof fn lemma_flatten_concat(a: Seq<Segment>, b: Seq<Segment>)
    ensures
        flatten(a + b) == flatten(a) + flatten(b),
    decreases b.len(),
{
    if b.len() == 0 {
        assert(a + b =~= a);
    } else {
        lemma_flatten_concat(a, b.drop_last());
        assert((a + b).drop_last() =~= a + b.drop_last());
        assert((a + b).last() == b.last());
        assert(flatten(a + b) =~= flatten(a) + flatten(b));
    }
}

/// Flattening a single segment gives its bytes.
pub proof fn lemma_flatten_one(s: Segment)
    ensures
        flatten(seq![s]) == s.bytes,
{
    let one = seq![s];
    assert(one.drop_last() =~= Seq::<Segment>::empty());
    assert(flatten(one.drop_last()) =~= Seq::<u8>::empty());
    assert(flatten(one) =~= s.bytes);
}

/// On a well-formed list the start segment of every range is the first
/// segment.
pub proof fn lemma_start_is_first(parts: Seq<Segment>, start: nat)
    requires
        anchored(parts),
    ensures
        start_index(parts, start) == (if parts.len() > 0 {
            Some(0int)
        } else {
            None
        }),
{
}

/// The start segment, where there is one, is the first segment that begins
/// at or before `start`; where there is none, every segment begins after it.
pub proof fn lemma_start_index(parts: Seq<Segment>, start: nat, from: int)
    requires
        0 <= from <= parts.len(),
    ensures
        match first_starting_by(parts, start, from) {
            Some(s) => from <= s < parts.len() && parts[s].start <= start && forall|j: int|
                from <= j < s ==> (#[trigger] parts[j]).start > start,
            None => forall|j: int| from <= j < parts.len() ==> (#[trigger] parts[j]).start > start,
        },
    decreases parts.len() - from,
{
    if from < parts.len() && parts[from].start > start {
        lemma_start_index(parts, start, from + 1);
    }
}

/// The end segment, where there is one, is the last segment that ends at or
/// after `end`; where there is none, every segment ends before `end`.
pub proof fn lemma_end_index(parts: Seq<Segment>, end: nat, below: int)
    requires
        0 <= below <= parts.len(),
    ensures
        match last_ending_from(parts, end, below) {
            Some(e) => 0 <= e < below && parts[e].end >= end && forall|j: int|
                e < j < below ==> (#[trigger] parts[j]).end < end,
            None => forall|j: int| 0 <= j < below ==> (#[trigger] parts[j]).end < end,
        },
    decreases below,
{
    if below > 0 && parts[below - 1].end < end {
        lemma_end_index(parts, end, below - 1);
    }
}

/// Two contiguous lists that meet give a contiguous list.
pub proof fn lemma_contiguous_concat(a: Seq<Segment>, b: Seq<Segment>)
    requires
        contiguous(a),
        contiguous(b),
        a.len() > 0 && b.len() > 0 ==> a.last().end == b.first().start,
    ensures
        contiguous(a + b),
{
    let q = a + b;
    assert forall|i: int| 0 <= i < q.len() - 1 implies #[trigger] q[i].end == q[i + 1].start by {
        if i < a.len() - 1 {
            assert(q[i] == a[i] && q[i + 1] == a[i + 1]);
        } else if i == a.len() - 1 {
            assert(q[i] == a.last() && q[i + 1] == b.first());
        } else {
            assert(q[i] == b[i - a.len()] && q[i + 1] == b[i - a.len() + 1]);
        }
    }
}

/// What follows the new segment is contiguous and, where it is not empty,
/// begins at `end`.
pub proof fn lemma_tail_contiguous(parts: Seq<Segment>, end: nat)
    requires
        contiguous(parts),
    ensures
        contiguous(tail(parts, end)),
        tail(parts, end).len() > 0 ==> tail(parts, end).first().start == end,
{
    lemma_end_index(parts, end, parts.len() as int);
    match end_index(parts, end) {
        Some(e) => {
            if parts[e].bytes.len() > 0 {
                let rest = parts.skip(e + 1);
                assert forall|i: int| 0 <= i < rest.len() - 1 implies #[trigger] rest[i].end
                    == rest[i + 1].start by {
                    assert(rest[i] == parts[e + 1 + i]);
                    assert(rest[i + 1] == parts[e + 1 + i + 1]);
                }
                if rest.len() > 0 {
                    assert(rest.first() == parts[e + 1]);
                    assert(parts[e].end == parts[e + 1].start);
                }
                lemma_contiguous_concat(seq![right_remainder(parts[e], end)], rest);
            }
        },
        None => {},
    }
}

/// A replacement keeps a well-formed list well-formed.
pub proof fn lemma_rebuilt_well_formed(parts: Seq<Segment>, start: nat, end: nat, bytes: Seq<u8>)
    requires
        well_formed(parts),
        parts.len() > 0,
    ensures
        well_formed(rebuilt(parts, 0, start, end, bytes)),
{
    let left = left_remainder(parts[0], start);
    let mid = seq![fresh(start, end, bytes)];
    let t = tail(parts, end);
    assert(parts.take(0) + left =~= left);
    lemma_tail_contiguous(parts, end);
    lemma_contiguous_concat(left, mid);
    lemma_contiguous_concat(left + mid, t);
    assert((left + mid + t)[0].start == 0);
}

/// In a contiguous list in which no segment ends before it begins, a later
/// segment does not begin before an earlier one.
pub proof fn lemma_ascending(parts: Seq<Segment>, i: int, j: int)
    requires
        contiguous(parts),
        ordered(parts),
        0 <= i <= j < parts.len(),
    ensures
        parts[i].start <= parts[j].start,
    decreases j - i,
{
    if i < j {
        lemma_ascending(parts, i, j - 1);
        assert(parts[j - 1].end == parts[j].start);
        assert(parts[j - 1].start <= parts[j - 1].end);
    }
}

/// The content after a replacement: the first segment's bytes before
/// `start`, the new bytes, and what follows the new segment. Whatever lay
/// between the first segment and the end segment is gone.
pub proof fn lemma_flatten_rebuilt(parts: Seq<Segment>, start: nat, end: nat, bytes: Seq<u8>)
    requires
        anchored(parts),
        parts.len() > 0,
    ensures
        flatten(rebuilt(parts, 0, start, end, bytes)) == kept_prefix(parts, start) + bytes
            + flatten(tail(parts, end)),
{
    let left = left_remainder(parts[0], start);
    let mid = seq![fresh(start, end, bytes)];
    let t = tail(parts, end);
    assert(parts.take(0) + left =~= left);
    lemma_flatten_concat(left + mid, t);
    lemma_flatten_concat(left, mid);
    lemma_flatten_one(fresh(start, end, bytes));
    if start > 0 {
        lemma_flatten_one(left[0]);
        assert(left =~= seq![left[0]]);
    } else {
        assert(flatten(left) =~= Seq::<u8>::empty());
        assert(kept_prefix(parts, start) =~= Seq::<u8>::empty());
    }
}

/// No segment ends after the logical length, and in a buffer with segments
/// one of them ends there.
pub proof fn lemma_logical_length(parts: Seq<Segment>)
    ensures
        forall|j: int| 0 <= j < parts.len() ==> (#[trigger] parts[j]).end <= logical_length(parts),
        parts.len() > 0 ==> exists|j: int|
            0 <= j < parts.len() && (#[trigger] parts[j]).end == logical_length(parts),
    decreases parts.len(),
{
    if parts.len() > 0 {
        let init = parts.drop_last();
        lemma_logical_length(init);
        assert forall|j: int| 0 <= j < parts.len() implies (#[trigger] parts[j]).end
            <= logical_length(parts) by {
            if j < init.len() {
                assert(init[j] == parts[j]);
            }
        }
        if parts.last().end >= logical_length(init) {
            assert(parts[parts.len() - 1].end == logical_length(parts));
        } else {
            let j = choose|j: int|
                0 <= j < init.len() && (#[trigger] init[j]).end == logical_length(init);
            assert(parts[j] == init[j]);
        }
    }
}

/// A position beyond the logical length has no end segment, and a position
/// other than zero without an end segment lies beyond the logical length.
pub proof fn lemma_beyond_length(parts: Seq<Segment>, end: nat)
    ensures
        end > logical_length(parts) ==> end_index(parts, end) is None,
        end > 0 && end_index(parts, end) is None ==> end > logical_length(parts),
{
    lemma_end_index(parts, end, parts.len() as int);
    lemma_logical_length(parts);
}

/// The list after a replacement on an anchored list: left remainder, new
/// segment, tail.
pub proof fn lemma_rebuilt_shape(parts: Seq<Segment>, start: nat, end: nat, bytes: Seq<u8>)
    requires
        anchored(parts),
        parts.len() > 0,
    ensures
        rebuilt(parts, 0, start, end, bytes) == left_remainder(parts[0], start) + seq![
            fresh(start, end, bytes),
        ] + tail(parts, end),
        rebuilt(parts, 0, start, end, bytes).len() == left_remainder(parts[0], start).len() + 1
            + tail(parts, end).len(),
        left_remainder(parts[0], start).len() == (if start > 0 {
            1nat
        } else {
            0nat
        }),
        anchored(rebuilt(parts, 0, start, end, bytes)),
{
    let left = left_remainder(parts[0], start);
    assert(parts.take(0) + left =~= left);
}

/// An index at which a segment ends at or after `end`, while every later one
/// ends before it, is the end segment.
pub proof fn lemma_end_index_is(parts: Seq<Segment>, end: nat, e: int)
    requires
        0 <= e < parts.len(),
        parts[e].end >= end,
        forall|j: int| e < j < parts.len() ==> (#[trigger] parts[j]).end < end,
    ensures
        end_index(parts, end) == Some(e),
{
    lemma_end_index(parts, end, parts.len() as int);
}

/// A second replacement at the same start keeps the left remainder of the
/// first.
pub(crate) proof fn lemma_retouch_left(parts: Seq<Segment>, start: nat, end: nat, bytes: Seq<u8>)
    requires
        anchored(parts),
        parts.len() > 0,
    ensures
        left_remainder(rebuilt(parts, 0, start, end, bytes)[0], start) == left_remainder(
            parts[0],
            start,
        ),
{
    lemma_rebuilt_shape(parts, start, end, bytes);
    let q = rebuilt(parts, 0, start, end, bytes);
    let left = left_remainder(parts[0], start);
    let left2 = left_remainder(q[0], start);
    if start > 0 {
        assert(q[0] == left[0]);
        assert(left2[0].bytes =~= left[0].bytes);
        assert(left2 =~= left);
    } else {
        assert(q[0] == fresh(start, end, bytes));
        assert(left2 =~= left);
    }
}

/// A second replacement up to the same end finds the tail that the first one
/// left, where that tail is not empty.
pub(crate) proof fn lemma_retouch_tail(parts: Seq<Segment>, start: nat, end: nat, bytes: Seq<u8>)
    requires
        anchored(parts),
        parts.len() > 0,
        tail(parts, end).len() > 0,
    ensures
        tail(rebuilt(parts, 0, start, end, bytes), end) == tail(parts, end),
{
    lemma_rebuilt_shape(parts, start, end, bytes);
    lemma_end_index(parts, end, parts.len() as int);
    let q = rebuilt(parts, 0, start, end, bytes);
    let t = tail(parts, end);
    let at = left_remainder(parts[0], start).len() as int;
    let e = end_index(parts, end).unwrap();
    let r = right_remainder(parts[e], end);
    assert(t == seq![r] + parts.skip(e + 1));
    assert(q[at + 1] == t[0]);
    assert forall|j: int| at + 1 < j < q.len() implies (#[trigger] q[j]).end < end by {
        assert(q[j] == t[j - at - 1]);
        assert(t[j - at - 1] == parts[e + (j - at - 1)]);
    }
    lemma_end_index_is(q, end, at + 1);
    assert(r.bytes.len() > 0);
    assert(right_remainder(r, end).bytes =~= r.bytes);
    assert(q.skip(at + 2) =~= parts.skip(e + 1));
}

/// A second replacement up to the same end by no bytes finds no tail where
/// the first one left none.
pub(crate) proof fn lemma_retouch_empty(parts: Seq<Segment>, start: nat, end: nat, bytes: Seq<u8>)
    requires
        anchored(parts),
        parts.len() > 0,
        tail(parts, end).len() == 0,
        bytes.len() == 0,
    ensures
        tail(rebuilt(parts, 0, start, end, bytes), end) == tail(parts, end),
{
    lemma_rebuilt_shape(parts, start, end, bytes);
    let q = rebuilt(parts, 0, start, end, bytes);
    let at = left_remainder(parts[0], start).len() as int;
    assert(q[at] == fresh(start, end, bytes));
    lemma_end_index_is(q, end, at);
    assert(tail(q, end) =~= tail(parts, end));
}

/// What a replacement at `start` keeps of the first segment, a later
/// replacement at the same start or behind it keeps too.
pub proof fn lemma_kept_prefix_stable(
    parts: Seq<Segment>,
    start: nat,
    end: nat,
    bytes: Seq<u8>,
    later: nat,
)
    requires
        anchored(parts),
        parts.len() > 0,
        start <= later,
        start > 0 || bytes.len() == 0 || later == 0,
    ensures
        kept_prefix(rebuilt(parts, 0, start, end, bytes), later) == kept_prefix(parts, start),
{
    lemma_rebuilt_shape(parts, start, end, bytes);
    let q = rebuilt(parts, 0, start, end, bytes);
    if start > 0 {
        assert(q[0] == left_remainder(parts[0], start)[0]);
        assert(kept_prefix(q, later) =~= kept_prefix(parts, start));
    } else {
        assert(q[0] == fresh(start, end, bytes));
        assert(kept_prefix(q, later) =~= kept_prefix(parts, start));
    }
}

/// After a deletion of `[start, end)`, a replacement that ends at `later`
/// or behind it finds no tail where the list had none for `later` before.
pub(crate) proof fn lemma_no_tail_after_deletion(parts: Seq<Segment>, start: nat, end: nat, later: nat)
    requires
        anchored(parts),
        parts.len() > 0,
        start <= end <= later,
        tail(parts, later).len() == 0,
    ensures
        tail(rebuilt(parts, 0, start, end, Seq::<u8>::empty()), later).len() == 0,
{
    let gone = Seq::<u8>::empty();
    let q = rebuilt(parts, 0, start, end, gone);
    let t = tail(parts, end);
    lemma_rebuilt_shape(parts, start, end, gone);
    lemma_end_index(q, later, q.len() as int);
    lemma_end_index(parts, end, parts.len() as int);
    lemma_end_index(parts, later, parts.len() as int);
    let at = left_remainder(parts[0], start).len() as int;
    assert(q[at] == fresh(start, end, gone));
    match end_index(q, later) {
        Some(found) => {
            if found < at {
                assert(q[at].end < later);
                assert(q[found].end == start);
            } else if found > at {
                let e = end_index(parts, end).unwrap();
                assert(q[found] == t[found - at - 1]);
                if found == at + 1 {
                    assert(parts[e].end >= later);
                    assert(end_index(parts, later) == Some(e));
                } else {
                    assert(t[found - at - 1] == parts[e + (found - at - 1)]);
                }
            }
        },
        None => {},
    }
}

/// After a replacement of `[start, end)` that leaves no tail, a replacement
/// that ends at `earlier`, at or before `start`, finds the new bytes as its
/// tail.
pub(crate) proof fn lemma_tail_is_new_bytes(
    parts: Seq<Segment>,
    start: nat,
    end: nat,
    bytes: Seq<u8>,
    earlier: nat,
)
    requires
        anchored(parts),
        parts.len() > 0,
        earlier <= start <= end,
        tail(parts, end).len() == 0,
    ensures
        flatten(tail(rebuilt(parts, 0, start, end, bytes), earlier)) == bytes,
{
    let q = rebuilt(parts, 0, start, end, bytes);
    let new = fresh(start, end, bytes);
    lemma_rebuilt_shape(parts, start, end, bytes);
    let at = left_remainder(parts[0], start).len() as int;
    assert(q[at] == new);
    lemma_end_index_is(q, earlier, at);
    if bytes.len() > 0 {
        assert(q.skip(at + 1) =~= Seq::<Segment>::empty());
        assert(tail(q, earlier) =~= seq![right_remainder(new, earlier)]);
        lemma_flatten_one(right_remainder(new, earlier));
        assert(right_remainder(new, earlier).bytes =~= bytes);
    } else {
        assert(flatten(tail(q, earlier)) =~= bytes);
    }
}

} // verus!

//! Properties of the model, proved for every buffer and every range.

use crate::lemmas::{
    lemma_ascending, lemma_beyond_length, lemma_end_index, lemma_end_index_is, lemma_flatten_one,
    lemma_flatten_rebuilt, lemma_kept_prefix_stable, lemma_no_tail_after_deletion,
    lemma_rebuilt_shape, lemma_rebuilt_well_formed, lemma_retouch_empty, lemma_retouch_left,
    lemma_retouch_tail, lemma_start_is_first, lemma_tail_is_new_bytes,
};
use crate::model::{
    after_replace, end_index, flatten, fresh, initial, inspect_limit, kept_prefix, left_remainder,
    logical_length, ordered, ranges_disjoint, ranges_intersect, rebuilt, replace_outcome,
    retouch_stable, right_remainder, tail, touched_between, well_formed, ReplaceError, Segment,
    State,
};
use vstd::prelude::*;

verus! {

/// A fresh buffer flattens to the bytes it was made from.
pub proof fn law_round_trip(s: Seq<u8>)
    ensures
        well_formed(initial(s)),
        flatten(initial(s)) == s,
{
    if s.len() == 0 {
        assert(flatten(initial(s)) =~= s);
    } else {
        lemma_flatten_one(initial(s)[0]);
        assert(initial(s) =~= seq![initial(s)[0]]);
    }
}

/// A replacement of a range that does not end before it begins keeps the
/// segments in ascending order of their starts.
pub proof fn law_order_kept(parts: Seq<Segment>, start: nat, end: nat, bytes: Seq<u8>)
    requires
        well_formed(parts),
        ordered(parts),
        parts.len() > 0,
        start <= end,
    ensures
        ordered(rebuilt(parts, 0, start, end, bytes)),
        forall|i: int, j: int|
            0 <= i <= j < rebuilt(parts, 0, start, end, bytes).len() ==> (#[trigger] rebuilt(
                parts,
                0,
                start,
                end,
                bytes,
            )[i]).start <= (#[trigger] rebuilt(parts, 0, start, end, bytes)[j]).start,
{
    let q = rebuilt(parts, 0, start, end, bytes);
    let t = tail(parts, end);
    lemma_rebuilt_shape(parts, start, end, bytes);
    lemma_end_index(parts, end, parts.len() as int);
    let at = left_remainder(parts[0], start).len() as int;
    assert forall|i: int| 0 <= i < q.len() implies (#[trigger] q[i]).start <= q[i].end by {
        if i < at {
            assert(q[i] == left_remainder(parts[0], start)[0]);
        } else if i == at {
            assert(q[i] == fresh(start, end, bytes));
        } else {
            let e = end_index(parts, end).unwrap();
            assert(q[i] == t[i - at - 1]);
            if i > at + 1 {
                assert(t[i - at - 1] == parts[e + (i - at - 1)]);
            }
        }
    }
    lemma_rebuilt_well_formed(parts, start, end, bytes);
    assert forall|i: int, j: int| 0 <= i <= j < q.len() implies (#[trigger] q[i]).start <= (
    #[trigger] q[j]).start by {
        lemma_ascending(q, i, j);
    }
}

/// The first replacement on a fresh buffer over `s`, of a range that ends
/// within it: the content is `s` before `start`, the new bytes, and `s` from
/// `end` on, but from its last byte on where `end` is the length of `s`.
pub proof fn law_replace_fresh(
    s: Seq<u8>,
    start: nat,
    end: nat,
    bytes: Seq<u8>,
    reject_if_touched: bool,
)
    requires
        0 < end <= s.len(),
    ensures
        replace_outcome(initial(s), start, end, bytes, reject_if_touched) is Ok,
        flatten(after_replace(initial(s), start, end, bytes, reject_if_touched)) == s.take(
            if start <= s.len() {
                start as int
            } else {
                s.len() as int
            },
        ) + bytes + s.skip(
            if end < s.len() {
                end as int
            } else {
                s.len() - 1
            },
        ),
{
    let parts = initial(s);
    lemma_start_is_first(parts, start);
    lemma_end_index_is(parts, end, 0);
    lemma_flatten_rebuilt(parts, start, end, bytes);
    let r = right_remainder(parts[0], end);
    assert(parts.skip(1) =~= Seq::<Segment>::empty());
    assert(tail(parts, end) =~= seq![r]);
    lemma_flatten_one(r);
    assert(!touched_between(parts, 0, inspect_limit(parts, end)));
}

/// Replacing a range whose end lies beyond the logical length of a buffer
/// with content succeeds, unless a touched segment is to be refused. The
/// buffer then holds the first segment's bytes before `start` and the new
/// bytes, and its logical length has grown to the end of the range.
pub proof fn law_extension_past_end(
    parts: Seq<Segment>,
    start: nat,
    end: nat,
    bytes: Seq<u8>,
    reject_if_touched: bool,
)
    requires
        well_formed(parts),
        parts.len() > 0,
        end > logical_length(parts),
        !reject_if_touched || !touched_between(parts, 0, parts.len() as int),
    ensures
        replace_outcome(parts, start, end, bytes, reject_if_touched) is Ok,
        flatten(after_replace(parts, start, end, bytes, reject_if_touched)) == kept_prefix(
            parts,
            start,
        ) + bytes,
        flatten(after_replace(parts, start, end, bytes, reject_if_touched)).len() == kept_prefix(
            parts,
            start,
        ).len() + bytes.len(),
        logical_length(after_replace(parts, start, end, bytes, reject_if_touched)) == (if start
            <= end {
            end
        } else {
            start
        }),
        logical_length(after_replace(parts, start, end, bytes, reject_if_touched))
            > logical_length(parts),
{
    lemma_beyond_length(parts, end);
    lemma_flatten_rebuilt(parts, start, end, bytes);
    let q = after_replace(parts, start, end, bytes, reject_if_touched);
    let left = left_remainder(parts[0], start);
    assert(q == rebuilt(parts, 0, start, end, bytes));
    assert(parts.take(0) + left =~= left);
    assert(q =~= left + seq![fresh(start, end, bytes)]);
    assert(flatten(tail(parts, end)) =~= Seq::<u8>::empty());
    assert(flatten(q) =~= kept_prefix(parts, start) + bytes);
    assert(q.drop_last() =~= left);
    if start > 0 {
        assert(left.drop_last() =~= Seq::<Segment>::empty());
        assert(logical_length(left.drop_last()) == 0);
        assert(logical_length(left) == start);
    } else {
        assert(logical_length(left) == 0);
    }
}

/// After a successful replacement of `[start, end)`, a replacement of a range
/// that intersects it is refused with a touch conflict where the caller asks
/// for touched segments to be refused.
pub proof fn law_touch_propagation(
    parts: Seq<Segment>,
    start: nat,
    end: nat,
    bytes: Seq<u8>,
    reject_if_touched: bool,
    start2: nat,
    end2: nat,
    bytes2: Seq<u8>,
)
    requires
        well_formed(parts),
        replace_outcome(parts, start, end, bytes, reject_if_touched) is Ok,
        ranges_intersect(start, end, start2, end2),
    ensures
        replace_outcome(
            after_replace(parts, start, end, bytes, reject_if_touched),
            start2,
            end2,
            bytes2,
            true,
        ) == Err::<Seq<Segment>, ReplaceError>(ReplaceError::TouchConflict),
{
    let q = after_replace(parts, start, end, bytes, reject_if_touched);
    let left = left_remainder(parts[0], start);
    let t = tail(parts, end);
    lemma_start_is_first(parts, start);
    lemma_rebuilt_well_formed(parts, start, end, bytes);
    assert(parts.take(0) + left =~= left);
    assert(q =~= left + seq![fresh(start, end, bytes)] + t);
    lemma_start_is_first(q, start2);
    lemma_end_index(q, end2, q.len() as int);
    let at = left.len() as int;
    assert(q[at] == fresh(start, end, bytes));
    assert(q[at].state == State::Touched);
    if at == 1 {
        assert(q[0].end == start);
    }
    assert(at < inspect_limit(q, end2));
    assert(touched_between(q, 0, inspect_limit(q, end2)));
}

/// Replacing the same range twice in a row by the same bytes, without
/// refusing touched segments, leaves the buffer as replacing it once does.
/// This is stated of the calls that `retouch_stable` describes; of every
/// other call the second replacement adds at least one byte.
pub proof fn law_idempotent_replacement(parts: Seq<Segment>, start: nat, end: nat, bytes: Seq<u8>)
    requires
        well_formed(parts),
        retouch_stable(parts, end, bytes),
    ensures
        after_replace(after_replace(parts, start, end, bytes, false), start, end, bytes, false)
            == after_replace(parts, start, end, bytes, false),
        flatten(
            after_replace(after_replace(parts, start, end, bytes, false), start, end, bytes, false),
        ) == flatten(after_replace(parts, start, end, bytes, false)),
{
    if end > 0 && parts.len() > 0 {
        let q = rebuilt(parts, 0, start, end, bytes);
        lemma_start_is_first(parts, start);
        lemma_rebuilt_shape(parts, start, end, bytes);
        lemma_start_is_first(q, start);
        lemma_rebuilt_shape(q, start, end, bytes);
        lemma_retouch_left(parts, start, end, bytes);
        if tail(parts, end).len() > 0 {
            lemma_retouch_tail(parts, start, end, bytes);
        } else {
            lemma_retouch_empty(parts, start, end, bytes);
        }
    }
}

/// Where `retouch_stable` does not hold, replacing the same range a second
/// time by the same bytes puts the right remainder of the new segment behind
/// it: the content grows by at least one byte.
pub proof fn law_retouch_grows(parts: Seq<Segment>, start: nat, end: nat, bytes: Seq<u8>)
    requires
        well_formed(parts),
        !retouch_stable(parts, end, bytes),
    ensures
        flatten(
            after_replace(after_replace(parts, start, end, bytes, false), start, end, bytes, false),
        ) == flatten(after_replace(parts, start, end, bytes, false)) + right_remainder(
            fresh(start, end, bytes),
            end,
        ).bytes,
        right_remainder(fresh(start, end, bytes), end).bytes.len() > 0,
{
    let q = rebuilt(parts, 0, start, end, bytes);
    let t = fresh(start, end, bytes);
    lemma_start_is_first(parts, start);
    lemma_rebuilt_shape(parts, start, end, bytes);
    lemma_start_is_first(q, start);
    lemma_flatten_rebuilt(parts, start, end, bytes);
    lemma_flatten_rebuilt(q, start, end, bytes);
    let at = left_remainder(parts[0], start).len() as int;
    assert(q[at] == t);
    lemma_end_index_is(q, end, at);
    assert(q.skip(at + 1) =~= Seq::<Segment>::empty());
    assert(tail(q, end) =~= seq![right_remainder(t, end)]);
    lemma_flatten_one(right_remainder(t, end));
    assert(flatten(tail(parts, end)) =~= Seq::<u8>::empty());
    if start > 0 {
        lemma_kept_prefix_stable(parts, start, end, bytes, start);
    } else {
        assert(kept_prefix(q, start) =~= kept_prefix(parts, start));
    }
    assert(flatten(rebuilt(q, 0, start, end, bytes)) =~= flatten(q) + right_remainder(
        t,
        end,
    ).bytes);
}

/// Deleting a range and replacing a range behind it, after which nothing of
/// the old content follows, give the same content in either order: what the
/// first segment holds before the deleted range, then the new bytes.
pub proof fn law_deletion_commutes(
    parts: Seq<Segment>,
    start1: nat,
    end1: nat,
    start2: nat,
    end2: nat,
    bytes2: Seq<u8>,
)
    requires
        well_formed(parts),
        ranges_disjoint(start1, end1, start2, end2),
        end1 <= start2,
        tail(parts, end2).len() == 0,
    ensures
        flatten(
            after_replace(
                after_replace(parts, start1, end1, Seq::<u8>::empty(), false),
                start2,
                end2,
                bytes2,
                false,
            ),
        ) == flatten(
            after_replace(
                after_replace(parts, start2, end2, bytes2, false),
                start1,
                end1,
                Seq::<u8>::empty(),
                false,
            ),
        ),
        parts.len() > 0 && end1 > 0 ==> flatten(
            after_replace(
                after_replace(parts, start1, end1, Seq::<u8>::empty(), false),
                start2,
                end2,
                bytes2,
                false,
            ),
        ) == kept_prefix(parts, start1) + bytes2,
{
    let gone = Seq::<u8>::empty();
    if parts.len() > 0 && end1 > 0 {
        lemma_start_is_first(parts, start1);
        lemma_start_is_first(parts, start2);
        let first = rebuilt(parts, 0, start1, end1, gone);
        let second = rebuilt(parts, 0, start2, end2, bytes2);
        lemma_rebuilt_shape(parts, start1, end1, gone);
        lemma_rebuilt_shape(parts, start2, end2, bytes2);
        lemma_start_is_first(first, start2);
        lemma_start_is_first(second, start1);

        lemma_flatten_rebuilt(first, start2, end2, bytes2);
        lemma_kept_prefix_stable(parts, start1, end1, gone, start2);
        lemma_no_tail_after_deletion(parts, start1, end1, end2);
        assert(flatten(tail(first, end2)) =~= Seq::<u8>::empty());
        assert(flatten(rebuilt(first, 0, start2, end2, bytes2)) =~= kept_prefix(parts, start1)
            + bytes2);

        lemma_flatten_rebuilt(second, start1, end1, gone);
        lemma_tail_is_new_bytes(parts, start2, end2, bytes2, end1);
        if start2 > 0 {
            assert(second[0] == left_remainder(parts[0], start2)[0]);
            assert(kept_prefix(second, start1) =~= kept_prefix(parts, start1));
        } else {
            assert(kept_prefix(second, start1) =~= kept_prefix(parts, start1));
        }
        assert(flatten(rebuilt(second, 0, start1, end1, gone)) =~= kept_prefix(parts, start1)
            + bytes2);
    }
}

} // verus!

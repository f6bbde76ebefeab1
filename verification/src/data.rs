//! The container and its operations.

use crate::model::{
    after_replace, end_index, first_starting_by, flatten, fresh, initial, last_ending_from,
    left_remainder, rebuilt, replace_outcome, right_remainder, start_index, tail, touched_between,
    well_formed, ReplaceError, Segment, State,
};
use std::ops::Range;
use vstd::prelude::*;

verus! {

/// One segment of a buffer, with the bytes it owns.
#[derive(Debug)]
struct Span {
    state: State,
    start: usize,
    end: usize,
    data: Vec<u8>,
}

impl View for Span {
    type V = Segment;

    closed spec fn view(&self) -> Segment {
        Segment {
            state: self.state,
            start: self.start as nat,
            end: self.end as nat,
            bytes: self.data@,
        }
    }
}

/// A container that allows easily replacing chunks of its data.
#[derive(Debug)]
pub struct Data {
    parts: Vec<Span>,
}

/// The segments that a list of spans stands for.
closed spec fn segments(spans: Seq<Span>) -> Seq<Segment> {
    Seq::new(spans.len(), |i: int| spans[i]@)
}

/// A copy of `src[lo..hi]`.
fn copy_bytes(src: &[u8], lo: usize, hi: usize) -> (out: Vec<u8>)
    requires
        lo <= hi <= src@.len(),
    ensures
        out@ == src@.subrange(lo as int, hi as int),
{
    let mut out: Vec<u8> = Vec::new();
    let mut i: usize = lo;
    while i < hi
        invariant
            lo <= i <= hi <= src@.len(),
            out@ == src@.subrange(lo as int, i as int),
        decreases hi - i,
    {
        out.push(src[i]);
        i += 1;
        assert(out@ =~= src@.subrange(lo as int, i as int));
    }
    out
}

/// A copy of a span.
fn copy_span(span: &Span) -> (out: Span)
    ensures
        out@ == span@,
{
    let data = copy_bytes(span.data.as_slice(), 0, span.data.len());
    assert(data@ =~= span.data@);
    Span { state: span.state, start: span.start, end: span.end, data }
}

impl View for Data {
    type V = Seq<Segment>;

    /// The buffer's segments, in order.
    closed spec fn view(&self) -> Seq<Segment> {
        segments(self.parts@)
    }
}

impl Clone for Data {
    /// A buffer with the same segments, which owns its own bytes.
    fn clone(&self) -> (out: Data)
        ensures
            out@ == self@,
    {
        let mut parts: Vec<Span> = Vec::new();
        let mut i: usize = 0;
        while i < self.parts.len()
            invariant
                i <= self.parts.len(),
                segments(parts@) == self@.take(i as int),
            decreases self.parts.len() - i,
        {
            let ghost before = parts@;
            parts.push(copy_span(&self.parts[i]));
            i += 1;
            proof {
                lemma_segments_push(before, parts@[parts@.len() - 1]);
                assert(self@.take(i as int) =~= self@.take(i - 1).push(self@[i - 1]));
            }
        }
        assert(self@.take(i as int) =~= self@);
        Data { parts }
    }
}

impl Default for Data {
    /// The buffer without content.
    fn default() -> (out: Data)
        ensures
            out@ == Seq::<Segment>::empty(),
            out.wf(),
    {
        let out = Data { parts: Vec::new() };
        assert(out@ =~= Seq::<Segment>::empty());
        out
    }
}

impl Data {
    /// The invariant: the first segment begins at position zero, and each
    /// segment begins where the one before it ends.
    pub open spec fn wf(&self) -> bool {
        well_formed(self@)
    }

    /// The buffer's content.
    pub open spec fn content(&self) -> Seq<u8> {
        flatten(self@)
    }

    /// Create a new data container from a slice of bytes.
    pub fn new(data: &[u8]) -> (out: Data)
        ensures
            out@ == initial(data@),
            out.wf(),
            out.content() == data@,
    {
        proof {
            crate::laws::law_round_trip(data@);
        }
        if data.len() == 0 {
            let out = Data { parts: Vec::new() };
            assert(out@ =~= initial(data@));
            return out;
        }
        let bytes = copy_bytes(data, 0, data.len());
        assert(bytes@ =~= data@);
        let mut parts: Vec<Span> = Vec::new();
        parts.push(Span { state: State::Untouched, start: 0, end: data.len(), data: bytes });
        let out = Data { parts };
        assert(out@ =~= initial(data@));
        out
    }

    /// Render this data as a vector of bytes.
    pub fn to_vec(&self) -> (out: Vec<u8>)
        ensures
            out@ == self.content(),
    {
        let mut out: Vec<u8> = Vec::new();
        let mut i: usize = 0;
        assert(self@.take(0) =~= Seq::<Segment>::empty());
        while i < self.parts.len()
            invariant
                i <= self.parts.len(),
                out@ == flatten(self@.take(i as int)),
            decreases self.parts.len() - i,
        {
            let part = &self.parts[i];
            let ghost before = out@;
            let mut j: usize = 0;
            while j < part.data.len()
                invariant
                    j <= part.data.len(),
                    out@ == before + part.data@.take(j as int),
                decreases part.data.len() - j,
            {
                out.push(part.data[j]);
                j += 1;
                assert(out@ =~= before + part.data@.take(j as int));
            }
            i += 1;
            proof {
                assert(part.data@.take(j as int) =~= part.data@);
                assert(self@.take(i as int).drop_last() =~= self@.take(i - 1));
                assert(self@.take(i as int).last() == part@);
            }
        }
        assert(self@.take(i as int) =~= self@);
        out
    }
    /// Replace a chunk of data with the given slice, erroring when this part
    /// was already changed previously.
    pub fn replace_range_unless_touched(&mut self, range: Range<usize>, data: &[u8]) -> (r: Result<
        (),
        ReplaceError,
    >)
        requires
            old(self).wf(),
        ensures
            final(self).wf(),
            final(self)@ == after_replace(
                old(self)@,
                range.start as nat,
                range.end as nat,
                data@,
                true,
            ),
            match replace_outcome(old(self)@, range.start as nat, range.end as nat, data@, true) {
                Ok(_) => r is Ok,
                Err(e) => r == Err::<(), ReplaceError>(e),
            },
    {
        self.replace_range(range, data, true)
    }

    /// Replace a chunk of data with a given slice and the option to return an
    /// error if this part of the data was already changed earlier.
    ///
    /// A range that ends at zero leaves the buffer as it is. Otherwise the
    /// buffer is rebuilt as `replace_outcome` says, or left as it is where
    /// that gives an error.
    pub fn replace_range(&mut self, range: Range<usize>, data: &[u8], error_if_touched: bool) -> (r:
        Result<(), ReplaceError>)
        requires
            old(self).wf(),
        ensures
            final(self).wf(),
            final(self)@ == after_replace(
                old(self)@,
                range.start as nat,
                range.end as nat,
                data@,
                error_if_touched,
            ),
            match replace_outcome(
                old(self)@,
                range.start as nat,
                range.end as nat,
                data@,
                error_if_touched,
            ) {
                Ok(_) => r is Ok,
                Err(e) => r == Err::<(), ReplaceError>(e),
            },
    {
        if range.end == 0 {
            return Ok(());
        }
        let si: usize = match self.locate_start(range.start) {
            Some(si) => si,
            None => {
                return Err(ReplaceError::NoCoveringSegment);
            },
        };
        let ei: Option<usize> = self.locate_end(range.end);
        if error_if_touched {
            assert(self@.len() == self.parts.len());
            let limit: usize = match ei {
                Some(e) => e + 1,
                None => self.parts.len(),
            };
            if self.any_touched(si, limit) {
                return Err(ReplaceError::TouchConflict);
            }
        }
        proof {
            crate::lemmas::lemma_start_is_first(self@, range.start as nat);
            crate::lemmas::lemma_rebuilt_well_formed(
                self@,
                range.start as nat,
                range.end as nat,
                data@,
            );
        }
        let rebuilt_parts = self.rebuild(si, ei, range.start, range.end, data);
        self.parts = rebuilt_parts;
        Ok(())
    }

    /// The index of the first segment that begins at or before `start`.
    fn locate_start(&self, start: usize) -> (r: Option<usize>)
        ensures
            match r {
                Some(i) => i < self@.len() && start_index(self@, start as nat) == Some(i as int),
                None => start_index(self@, start as nat) is None,
            },
            r is Some ==> self@[r.unwrap() as int].start <= start,
            r is None ==> forall|j: int| 0 <= j < self@.len() ==> (#[trigger] self@[j]).start > start,
    {
        proof {
            crate::lemmas::lemma_start_index(self@, start as nat, 0);
        }
        let n: usize = self.parts.len();
        let mut i: usize = 0;
        while i < n && self.parts[i].start > start
            invariant
                i <= n,
                n == self.parts.len(),
                n == self@.len(),
                start_index(self@, start as nat) == first_starting_by(
                    self@,
                    start as nat,
                    i as int,
                ),
            decreases n - i,
        {
            i += 1;
        }
        if i < n {
            Some(i)
        } else {
            None
        }
    }

    /// The index of the last segment that ends at or after `end`.
    fn locate_end(&self, end: usize) -> (r: Option<usize>)
        ensures
            match r {
                Some(i) => i < self@.len() && end_index(self@, end as nat) == Some(i as int),
                None => end_index(self@, end as nat) is None,
            },
            r is Some ==> self@[r.unwrap() as int].end >= end,
            r is None ==> forall|j: int| 0 <= j < self@.len() ==> (#[trigger] self@[j]).end < end,
    {
        proof {
            crate::lemmas::lemma_end_index(self@, end as nat, self@.len() as int);
        }
        let n: usize = self.parts.len();
        let mut below: usize = n;
        while below > 0 && self.parts[below - 1].end < end
            invariant
                below <= n,
                n == self.parts.len(),
                n == self@.len(),
                end_index(self@, end as nat) == last_ending_from(
                    self@,
                    end as nat,
                    below as int,
                ),
            decreases below,
        {
            below -= 1;
        }
        if below > 0 {
            Some(below - 1)
        } else {
            None
        }
    }

    /// Whether a segment with index in `[lo, hi)` is touched.
    fn any_touched(&self, lo: usize, hi: usize) -> (b: bool)
        requires
            hi <= self@.len(),
        ensures
            b == touched_between(self@, lo as int, hi as int),
    {
        let mut i: usize = lo;
        while i < hi
            invariant
                lo <= i,
                hi <= self@.len(),
                self@.len() == self.parts.len(),
                forall|j: int| lo <= j < i && j < hi ==> (#[trigger] self@[j]).state != State::Touched,
            decreases hi - i,
        {
            if self.parts[i].is_touched() {
                assert(self@[i as int].state == State::Touched);
                return true;
            }
            i += 1;
        }
        false
    }

    /// The segment list after `[start, end)` was replaced by `data`, where the
    /// start segment is `si` and the end segment, if any, is `ei`.
    fn rebuild(&self, si: usize, ei: Option<usize>, start: usize, end: usize, data: &[u8]) -> (res:
        Vec<Span>)
        requires
            si < self@.len(),
            match ei {
                Some(e) => e < self@.len() && end_index(self@, end as nat) == Some(e as int),
                None => end_index(self@, end as nat) is None,
            },
        ensures
            segments(res@) == rebuilt(self@, si as int, start as nat, end as nat, data@),
    {
        let ghost parts = self@;
        let n: usize = self.parts.len();
        let mut res: Vec<Span> = Vec::new();
        let mut i: usize = 0;
        assert(segments(res@) =~= parts.take(0));
        while i < si
            invariant
                i <= si < n,
                n == self.parts.len(),
                parts == self@,
                segments(res@) == parts.take(i as int),
            decreases si - i,
        {
            let ghost before = res@;
            res.push(copy_span(&self.parts[i]));
            i += 1;
            proof {
                lemma_segments_push(before, res@[res@.len() - 1]);
                assert(parts.take(i as int) =~= parts.take(i - 1).push(parts[i - 1]));
            }
        }

        let first = &self.parts[si];
        if start > first.start {
            let wanted: usize = start - first.start;
            let keep: usize = if wanted <= first.data.len() {
                wanted
            } else {
                first.data.len()
            };
            let bytes = copy_bytes(first.data.as_slice(), 0, keep);
            let ghost before = res@;
            res.push(Span { state: first.state, start: first.start, end: start, data: bytes });
            proof {
                lemma_segments_push(before, res@[res@.len() - 1]);
                assert(bytes@ =~= first.data@.take(keep as int));
            }
        }
        let ghost left = parts.take(si as int) + left_remainder(parts[si as int], start as nat);
        assert(segments(res@) =~= left);

        let bytes = copy_bytes(data, 0, data.len());
        assert(bytes@ =~= data@);
        let ghost before = res@;
        res.push(Span { state: State::Touched, start, end, data: bytes });
        let ghost head = left + seq![fresh(start as nat, end as nat, data@)];
        proof {
            lemma_segments_push(before, res@[res@.len() - 1]);
            assert(segments(res@) =~= head);
        }

        match ei {
            Some(e) => {
                let last = &self.parts[e];
                if last.data.len() > 0 {
                    let wanted: usize = if end >= last.start {
                        end - last.start
                    } else {
                        0
                    };
                    let from: usize = if wanted <= last.data.len() - 1 {
                        wanted
                    } else {
                        last.data.len() - 1
                    };
                    let bytes = copy_bytes(last.data.as_slice(), from, last.data.len());
                    let ghost before = res@;
                    res.push(Span { state: last.state, start: end, end: last.end, data: bytes });
                    let ghost filled = head + seq![right_remainder(parts[e as int], end as nat)];
                    proof {
                        lemma_segments_push(before, res@[res@.len() - 1]);
                        assert(bytes@ =~= last.data@.skip(from as int));
                        assert(segments(res@) =~= filled);
                    }
                    let mut k: usize = e + 1;
                    assert(segments(res@) =~= filled + parts.subrange(e + 1, k as int));
                    while k < n
                        invariant
                            e < k <= n,
                            n == self.parts.len(),
                            parts == self@,
                            segments(res@) == filled + parts.subrange(e + 1, k as int),
                        decreases n - k,
                    {
                        let ghost before = res@;
                        res.push(copy_span(&self.parts[k]));
                        k += 1;
                        proof {
                            lemma_segments_push(before, res@[res@.len() - 1]);
                            assert(parts.subrange(e + 1, k as int) =~= parts.subrange(
                                e + 1,
                                k - 1,
                            ).push(parts[k - 1]));
                            assert(segments(res@) =~= filled + parts.subrange(e + 1, k as int));
                        }
                    }
                    assert(parts.subrange(e + 1, n as int) =~= parts.skip(e + 1));
                    assert(segments(res@) =~= head + tail(parts, end as nat));
                } else {
                    assert(segments(res@) =~= head + tail(parts, end as nat));
                }
            },
            None => {
                assert(segments(res@) =~= head + tail(parts, end as nat));
            },
        }
        res
    }
}

/// Pushing a span pushes its segment.
proof fn lemma_segments_push(spans: Seq<Span>, span: Span)
    ensures
        segments(spans.push(span)) == segments(spans).push(span@),
{
    assert(segments(spans.push(span)) =~= segments(spans).push(span@));
}

impl Span {
    /// Whether the span was produced by a replacement.
    fn is_touched(&self) -> (b: bool)
        ensures
            b == (self@.state == State::Touched),
    {
        match self.state {
            State::Touched => true,
            State::Untouched => false,
        }
    }
}

} // verus!
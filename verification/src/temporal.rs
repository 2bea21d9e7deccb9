//! Merging of per-frame recognition results into subtitle segments.
//!
//! Consecutive frames whose texts are judged the same subtitle extend one
//! segment; a different text closes the open segment and opens a new one.
//! Whether two texts are the same subtitle is decided by the caller (a
//! string-similarity threshold) and passed in as `same`.
use vstd::prelude::*;

use crate::types::{Segment, Timestamp};

verus! {

/// A segment as plain values: start and end in milliseconds, and the text.
pub open spec fn spec_seg(s: Segment) -> (u64, u64, Seq<char>) {
    (s.start.0, s.end.0, s.text@)
}

/// [`spec_seg`] of an optional segment.
pub open spec fn spec_opt_seg(s: Option<Segment>) -> Option<(u64, u64, Seq<char>)> {
    match s {
        Some(seg) => Some(spec_seg(seg)),
        None => None,
    }
}

/// One observation fed to the merger: the open segment afterwards, and the
/// segment closed by it. The same subtitle extends the open segment to `t`
/// and keeps the longer text (the earlier on a tie); otherwise the open
/// segment closes and a new one opens at `t`.
pub open spec fn spec_step(
    open: Option<(u64, u64, Seq<char>)>,
    t: u64,
    text: Seq<char>,
    same: bool,
) -> (Option<(u64, u64, Seq<char>)>, Option<(u64, u64, Seq<char>)>) {
    match open {
        Some(seg) => if same {
            (Some((seg.0, t, if text.len() > seg.2.len() { text } else { seg.2 })), None)
        } else {
            (Some((t, t, text)), open)
        },
        None => (Some((t, t, text)), None),
    }
}

/// A stream of observations `(t, text, same)` fed one after the other: the
/// open segment at the end, and the segments closed on the way, in order.
pub open spec fn spec_feed(
    open: Option<(u64, u64, Seq<char>)>,
    events: Seq<(u64, Seq<char>, bool)>,
) -> (Option<(u64, u64, Seq<char>)>, Seq<(u64, u64, Seq<char>)>)
    decreases events.len(),
{
    if events.len() == 0 {
        (open, seq![])
    } else {
        let r = spec_feed(open, events.drop_last());
        let e = events.last();
        let s = spec_step(r.0, e.0, e.1, e.2);
        match s.1 {
            Some(c) => (s.0, r.1.push(c)),
            None => (s.0, r.1),
        }
    }
}

/// A run of the same subtitle becomes one segment: after a first text opens
/// a segment at time `t0`, observations all judged the same close nothing,
/// and leave one open segment from `t0` to the last time, holding a longest
/// of the texts seen.
pub proof fn lemma_same_run_merges(t0: u64, text0: Seq<char>, events: Seq<(u64, Seq<char>, bool)>)
    requires
        forall|k: int| 0 <= k < events.len() ==> (#[trigger] events[k]).2,
    ensures
        ({
            let r = spec_feed(Some((t0, t0, text0)), events);
            let seg = r.0->0;
            &&& r.0 is Some
            &&& r.1.len() == 0
            &&& seg.0 == t0
            &&& seg.1 == if events.len() == 0 { t0 } else { events.last().0 }
            &&& (seg.2 == text0 || exists|k: int| 0 <= k < events.len() && seg.2 == (#[trigger] events[k]).1)
            &&& text0.len() <= seg.2.len()
            &&& forall|k: int| 0 <= k < events.len() ==> (#[trigger] events[k]).1.len() <= seg.2.len()
        }),
    decreases events.len(),
{
    if events.len() > 0 {
        let pre = events.drop_last();
        assert forall|k: int| 0 <= k < pre.len() implies (#[trigger] pre[k]).2 by {
            assert(pre[k] == events[k]);
        }
        lemma_same_run_merges(t0, text0, pre);
        let r = spec_feed(Some((t0, t0, text0)), pre);
        let e = events.last();
        assert(e.2);
        let seg = spec_feed(Some((t0, t0, text0)), events).0->0;
        let prev = r.0->0;
        if prev.2 == text0 {
        } else {
            let k = choose|k: int| 0 <= k < pre.len() && prev.2 == (#[trigger] pre[k]).1;
            assert(pre[k] == events[k]);
        }
        assert forall|k: int| 0 <= k < events.len() implies (#[trigger] events[k]).1.len() <= seg.2.len() by {
            if k < pre.len() {
                assert(pre[k] == events[k]);
            }
        }
        if seg.2 == e.1 {
            assert(events[events.len() - 1] == e);
        }
    }
}

/// Accumulates a stream of `(timestamp, text)` observations into segments.
pub struct SegmentMerger {
    open: Option<Segment>,
}

impl SegmentMerger {
    /// The segment being extended, if any.
    pub closed spec fn spec_open(&self) -> Option<Segment> {
        self.open
    }

    pub fn new() -> (m: Self)
        ensures
            m.spec_open() is None,
    {
        SegmentMerger { open: None }
    }

    /// The segment being extended, if any.
    pub fn current(&self) -> (r: Option<&Segment>)
        ensures
            r is Some <==> self.spec_open() is Some,
            r is Some ==> *r->0 == self.spec_open()->0,
    {
        self.open.as_ref()
    }

    /// Feeds the text recognized at time `t`. When a segment is open and
    /// `same` says `text` is the same subtitle, the segment is extended to
    /// `t` and keeps the longer of the two texts (by character count, the
    /// earlier one on a tie); nothing is returned. Otherwise the open
    /// segment, if any, is returned and a new one starts at `t` with `text`.
    pub fn push(&mut self, t: Timestamp, text: &str, same: bool) -> (closed: Option<Segment>)
        ensures
            old(self).spec_open() is Some && same ==> {
                let seg = old(self).spec_open()->0;
                let now = final(self).spec_open()->0;
                &&& closed is None
                &&& final(self).spec_open() is Some
                &&& now.start == seg.start
                &&& now.end == t
                &&& now.text@ == if text@.len() > seg.text@.len() { text@ } else { seg.text@ }
            },
            !(old(self).spec_open() is Some && same) ==> {
                let now = final(self).spec_open()->0;
                &&& closed == old(self).spec_open()
                &&& final(self).spec_open() is Some
                &&& now.start == t
                &&& now.end == t
                &&& now.text@ == text@
            },
            spec_opt_seg(final(self).spec_open()) == spec_step(
                spec_opt_seg(old(self).spec_open()),
                t.0,
                text@,
                same,
            ).0,
            spec_opt_seg(closed) == spec_step(spec_opt_seg(old(self).spec_open()), t.0, text@, same).1,
    {
        match self.open.take() {
            Some(mut seg) => {
                if same {
                    seg.end = t;
                    if text.unicode_len() > seg.text.as_str().unicode_len() {
                        seg.text = text.to_owned();
                    }
                    self.open = Some(seg);
                    None
                } else {
                    self.open = Some(Segment::new(t, text));
                    Some(seg)
                }
            },
            None => {
                self.open = Some(Segment::new(t, text));
                None
            },
        }
    }

    /// End of stream: returns the open segment, if any, and forgets it.
    pub fn finish(&mut self) -> (last: Option<Segment>)
        ensures
            last == old(self).spec_open(),
            final(self).spec_open() is None,
    {
        self.open.take()
    }
}

} // verus!

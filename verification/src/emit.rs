//! Serialization of subtitle segments to SRT and to plain text.
use vstd::prelude::*;

use crate::decimal::{push_decimal, spec_decimal};
use crate::types::{push_str_lit, spec_srt_time, Segment};

verus! {

/// One SRT entry for the segment at position `i`: its 1-based number, the
/// time range and the text, each on its own line.
pub open spec fn spec_srt_entry(i: nat, seg: Segment) -> Seq<char> {
    spec_decimal(i + 1) + seq!['\n'] + spec_srt_time(seg.start.0 as nat) + seq![
        ' ',
        '-',
        '-',
        '>',
        ' ',
    ] + spec_srt_time(seg.end.0 as nat) + seq!['\n'] + seg.text@ + seq!['\n']
}

/// SRT document of `segs`: the entries separated by blank lines.
pub open spec fn spec_srt(segs: Seq<Segment>) -> Seq<char>
    decreases segs.len(),
{
    if segs.len() == 0 {
        seq![]
    } else if segs.len() == 1 {
        spec_srt_entry(0, segs[0])
    } else {
        spec_srt(segs.drop_last()) + seq!['\n'] + spec_srt_entry(
            (segs.len() - 1) as nat,
            segs.last(),
        )
    }
}

/// The texts of `segs` joined by newlines.
pub open spec fn spec_plain(segs: Seq<Segment>) -> Seq<char>
    decreases segs.len(),
{
    if segs.len() == 0 {
        seq![]
    } else if segs.len() == 1 {
        segs[0].text@
    } else {
        spec_plain(segs.drop_last()) + seq!['\n'] + segs.last().text@
    }
}

/// SRT subtitles for `segments`, numbered from 1.
pub fn to_srt(segments: &[Segment]) -> (out: String)
    ensures
        out@ == spec_srt(segments@),
{
    proof {
        reveal_strlit("\n");
        reveal_strlit(" --> ");
        assert("\n"@ =~= seq!['\n']);
        assert(" --> "@ =~= seq![' ', '-', '-', '>', ' ']);
    }
    let mut out = String::new();
    let mut i: usize = 0;
    while i < segments.len()
        invariant
            i <= segments.len(),
            "\n"@ == seq!['\n'],
            " --> "@ == seq![' ', '-', '-', '>', ' '],
            out@ == spec_srt(segments@.subrange(0, i as int)),
        decreases segments.len() - i,
    {
        let seg = &segments[i];
        let ghost before = out@;
        if i > 0 {
            push_str_lit(&mut out, "\n");
        }
        push_decimal(&mut out, i as u64 + 1);
        push_str_lit(&mut out, "\n");
        let start = seg.start.to_srt();
        out.append(start.as_str());
        push_str_lit(&mut out, " --> ");
        let end = seg.end.to_srt();
        out.append(end.as_str());
        push_str_lit(&mut out, "\n");
        out.append(seg.text.as_str());
        push_str_lit(&mut out, "\n");
        proof {
            let next = segments@.subrange(0, i as int + 1);
            assert(next.drop_last() =~= segments@.subrange(0, i as int));
            assert(next.last() == segments@[i as int]);
            if i == 0 {
                assert(out@ =~= spec_srt_entry(0, segments@[0]));
            } else {
                assert(out@ =~= before + seq!['\n'] + spec_srt_entry(i as nat, segments@[i as int]));
            }
        }
        i = i + 1;
    }
    assert(segments@.subrange(0, segments.len() as int) =~= segments@);
    out
}

/// The segment texts joined by newlines.
pub fn to_plain(segments: &[Segment]) -> (out: String)
    ensures
        out@ == spec_plain(segments@),
{
    proof {
        reveal_strlit("\n");
        assert("\n"@ =~= seq!['\n']);
    }
    let mut out = String::new();
    let mut i: usize = 0;
    while i < segments.len()
        invariant
            i <= segments.len(),
            "\n"@ == seq!['\n'],
            out@ == spec_plain(segments@.subrange(0, i as int)),
        decreases segments.len() - i,
    {
        let ghost before = out@;
        if i > 0 {
            push_str_lit(&mut out, "\n");
        }
        out.append(segments[i].text.as_str());
        proof {
            let next = segments@.subrange(0, i as int + 1);
            assert(next.drop_last() =~= segments@.subrange(0, i as int));
            if i == 0 {
                assert(out@ =~= segments@[0].text@);
            } else {
                assert(out@ =~= before + seq!['\n'] + segments@[i as int].text@);
            }
        }
        i = i + 1;
    }
    assert(segments@.subrange(0, segments.len() as int) =~= segments@);
    out
}

/// Plain text of two non-empty lists is the plain text of each, joined by
/// one newline: every text is separated from the next by exactly one
/// newline, however many segments there are.
pub proof fn lemma_plain_concat(a: Seq<Segment>, b: Seq<Segment>)
    requires
        a.len() > 0,
        b.len() > 0,
    ensures
        spec_plain(a + b) == spec_plain(a) + seq!['\n'] + spec_plain(b),
    decreases b.len(),
{
    if b.len() == 1 {
        assert((a + b).drop_last() =~= a);
        assert((a + b).last() == b[0]);
    } else {
        lemma_plain_concat(a, b.drop_last());
        assert((a + b).drop_last() =~= a + b.drop_last());
        assert((a + b).last() == b.last());
        assert(spec_plain(a + b) =~= spec_plain(a) + seq!['\n'] + spec_plain(b));
    }
}

/// Plain text of one segment is its text, with no newline added.
pub proof fn lemma_plain_single(s: Segment)
    ensures
        spec_plain(seq![s]) == s.text@,
{
}

} // verus!

use rust_ocr_transformer::emit;
use rust_ocr_transformer::{KeyframeGate, Segment, SegmentMerger, Timestamp};

/// Normalized edit similarity of two texts (1.0 for two empty texts).
fn similarity(a: &str, b: &str) -> f64 {
    if a.is_empty() && b.is_empty() {
        return 1.0;
    }
    strsim::normalized_levenshtein(a, b)
}

/// Feeds `text` at `t`, merging when it is at least `threshold` similar to the open segment.
fn push(m: &mut SegmentMerger, threshold: f64, t: Timestamp, text: &str) -> Option<Segment> {
    let same = m.current().map(|seg| similarity(&seg.text, text) >= threshold).unwrap_or(false);
    m.push(t, text, same)
}

#[test]
fn temporal_merger_groups_same_text() {
    let mut m = SegmentMerger::new();

    assert!(push(&mut m, 0.8, Timestamp(0), "hi there").is_none(), "the first text opens a segment");
    assert!(
        push(&mut m, 0.8, Timestamp(100), "hi there!").is_none(),
        "a similar text extends the same segment"
    );

    let finished = push(&mut m, 0.8, Timestamp(200), "goodbye").expect("a new subtitle closes the previous segment");
    assert_eq!(finished.text, "hi there!", "the longer reading is kept");
    assert_eq!(finished.start, Timestamp(0));
    assert_eq!(finished.end, Timestamp(100));

    let last = m.finish().expect("the end of the stream returns the last segment");
    assert_eq!(last.text, "goodbye");
}

#[test]
fn srt_output_format() {
    let segs = vec![
        Segment { start: Timestamp(1200), end: Timestamp(3800), text: "첫 자막".into() },
        Segment { start: Timestamp(4000), end: Timestamp(6500), text: "둘째 자막".into() },
    ];
    let srt = emit::to_srt(&segs);

    assert!(srt.starts_with("1\n"), "numbering starts at 1");
    assert!(srt.contains("00:00:01,200 --> 00:00:03,800"), "SRT time format");
    assert!(srt.contains("첫 자막"));
    assert!(srt.contains("2\n00:00:04,000 --> 00:00:06,500"));
}

#[test]
fn srt_document_is_exact() {
    let segs = vec![
        Segment { start: Timestamp(1200), end: Timestamp(3800), text: "첫 자막".into() },
        Segment { start: Timestamp(4000), end: Timestamp(6500), text: "둘째 자막".into() },
    ];
    assert_eq!(
        emit::to_srt(&segs),
        "1\n00:00:01,200 --> 00:00:03,800\n첫 자막\n\n2\n00:00:04,000 --> 00:00:06,500\n둘째 자막\n"
    );
    assert_eq!(emit::to_srt(&[]), "");
}

#[test]
fn plain_text_joins_with_newlines() {
    let segs = vec![Segment::new(Timestamp(0), "a"), Segment::new(Timestamp(5), "b c")];
    assert_eq!(emit::to_plain(&segs), "a\nb c");
    assert_eq!(emit::to_plain(&segs[..1]), "a");
    assert_eq!(emit::to_plain(&[]), "");
}

#[test]
fn timestamp_srt_notation() {
    assert_eq!(Timestamp(0).to_srt(), "00:00:00,000");
    assert_eq!(Timestamp(3_723_004).to_srt(), "01:02:03,004");
    // Hours are not wrapped.
    assert_eq!(Timestamp(360_000_000).to_srt(), "100:00:00,000");
    assert_eq!(Timestamp::from_millis(42).millis(), 42);
}

#[test]
fn segment_new_starts_and_ends_together() {
    let s = Segment::new(Timestamp(7), "x");
    assert_eq!(s.start, Timestamp(7));
    assert_eq!(s.end, Timestamp(7));
    assert_eq!(s.text, "x");
}

#[test]
fn segment_merger_keeps_earlier_text_on_tie_and_reopens() {
    let mut m = SegmentMerger::new();
    assert!(m.current().is_none());
    assert!(m.push(Timestamp(0), "abc", true).is_none(), "nothing to extend: a segment opens");
    assert!(m.push(Timestamp(10), "abd", true).is_none());
    let cur = m.current().expect("open segment");
    assert_eq!((cur.start, cur.end, cur.text.as_str()), (Timestamp(0), Timestamp(10), "abc"));
    let closed = m.push(Timestamp(20), "zz", false).expect("closed");
    assert_eq!(closed.text, "abc");
    assert_eq!(m.finish().map(|s| s.start), Some(Timestamp(20)));
    assert!(m.finish().is_none(), "finish forgets the segment");
}

#[test]
fn keyframe_gate_takes_first_skips_similar() {
    let mut gate: KeyframeGate<u32> = KeyframeGate::new();
    assert!(gate.offer(1, true), "the first frame is always taken");
    assert_eq!(gate.keyframe(), Some(&1));
    assert!(!gate.offer(2, true), "a frame like the keyframe is skipped");
    assert_eq!(gate.keyframe(), Some(&1));
    assert!(gate.offer(3, false), "a different frame is taken");
    assert_eq!(gate.keyframe(), Some(&3));
    gate.reset();
    assert!(gate.keyframe().is_none());
    assert!(gate.offer(4, true), "after a reset the next frame is taken");
}

#[test]
fn same_subtitle_run_becomes_one_segment() {
    let mut m = SegmentMerger::new();
    assert!(m.push(Timestamp(0), "a", false).is_none());
    assert!(m.push(Timestamp(10), "abc", true).is_none());
    assert!(m.push(Timestamp(20), "ab", true).is_none());
    assert!(m.push(Timestamp(30), "xyz", true).is_none());
    let seg = m.finish().expect("one open segment");
    assert_eq!((seg.start, seg.end), (Timestamp(0), Timestamp(30)));
    assert_eq!(seg.text, "abc", "the first of the longest readings is kept");
}

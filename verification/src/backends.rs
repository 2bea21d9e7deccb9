//! Decisions and text handling of the model-running backend that need no
//! model: input sizing, label lookup, orientation choice, dictionary files.
use vstd::prelude::*;

use crate::decimal::{push_decimal, spec_decimal};

verus! {

/// Appends the character `c`, by std's `String::push`. Trusted, not proved:
/// the text afterwards is the text before followed by `c`, as the method's
/// documentation says.
#[verifier::external_body]
fn push_char(s: &mut String, c: char)
    ensures
        final(s)@ == old(s)@.push(c),
{
    s.push(c);
}

/// Pieces of `s` between `'\n'` characters (`n` newlines give `n + 1` pieces).
pub open spec fn spec_split_newlines(s: Seq<char>) -> Seq<Seq<char>>
    decreases s.len(),
{
    if s.len() == 0 {
        seq![seq![]]
    } else {
        let r = spec_split_newlines(s.drop_last());
        if s.last() == '\n' {
            r.push(seq![])
        } else {
            r.update(r.len() - 1, r.last().push(s.last()))
        }
    }
}

/// `l` without its trailing `'\r'` characters.
pub open spec fn spec_trim_cr(l: Seq<char>) -> Seq<char>
    decreases l.len(),
{
    if l.len() > 0 && l.last() == '\r' {
        spec_trim_cr(l.drop_last())
    } else {
        l
    }
}

/// Lines of a dictionary or label file: the pieces between newlines with
/// trailing carriage returns removed, keeping empty lines (so positions
/// stay aligned with class ids), except that a final empty piece (after a
/// closing newline) is dropped.
pub open spec fn spec_parse_lines(raw: Seq<char>) -> Seq<Seq<char>> {
    let p = spec_split_newlines(raw).map_values(|l: Seq<char>| spec_trim_cr(l));
    if p.last().len() == 0 {
        p.drop_last()
    } else {
        p
    }
}

proof fn lemma_split_nonempty(s: Seq<char>)
    ensures
        spec_split_newlines(s).len() >= 1,
    decreases s.len(),
{
    if s.len() > 0 {
        lemma_split_nonempty(s.drop_last());
    }
}

proof fn lemma_trim_prefix(l: Seq<char>, k: int)
    requires
        0 <= k <= l.len(),
        forall|i: int| k <= i < l.len() ==> l[i] == '\r',
        k == 0 || l[k - 1] != '\r',
    ensures
        spec_trim_cr(l) == l.subrange(0, k),
    decreases l.len(),
{
    if l.len() > 0 && l.last() == '\r' {
        lemma_trim_prefix(l.drop_last(), k);
        assert(l.drop_last().subrange(0, k) =~= l.subrange(0, k));
    } else {
        assert(k == l.len());
        assert(l.subrange(0, k) =~= l);
    }
}

/// `line` with its trailing `'\r'` characters removed, as a `String`.
fn trimmed_line(line: &Vec<char>) -> (s: String)
    ensures
        s@ == spec_trim_cr(line@),
{
    let mut k = line.len();
    while k > 0 && line[k - 1] == '\r'
        invariant
            k <= line.len(),
            forall|i: int| k <= i < line.len() ==> line@[i] == '\r',
        decreases k,
    {
        k = k - 1;
    }
    proof {
        lemma_trim_prefix(line@, k as int);
    }
    let mut s = String::new();
    let mut i: usize = 0;
    while i < k
        invariant
            i <= k <= line.len(),
            s@ =~= line@.subrange(0, i as int),
        decreases k - i,
    {
        push_char(&mut s, line[i]);
        i = i + 1;
    }
    s
}

/// Splits the text of a dictionary or label file into lines, one entry per
/// line (see `spec_parse_lines`).
pub fn parse_lines(raw: &str) -> (lines: Vec<String>)
    ensures
        lines.len() == spec_parse_lines(raw@).len(),
        forall|k: int| 0 <= k < lines.len() ==> #[trigger] lines@[k]@ == spec_parse_lines(raw@)[k],
{
    broadcast use vstd::string::group_string_axioms;
    let mut lines: Vec<String> = Vec::new();
    let mut cur: Vec<char> = Vec::new();
    for c in it: raw.chars()
        invariant
            it.seq() == raw@,
            ({
                let pieces = spec_split_newlines(raw@.subrange(0, it.index() as int));
                &&& lines.len() + 1 == pieces.len()
                &&& cur@ == pieces.last()
                &&& forall|k: int| 0 <= k < lines.len() ==> #[trigger] lines@[k]@ == spec_trim_cr(pieces[k])
            }),
    {
        let ghost i = it.index() as int;
        proof {
            assert(c == raw@[i]);
            let pre = raw@.subrange(0, i);
            let next = raw@.subrange(0, i + 1);
            assert(next.drop_last() =~= pre);
            assert(next.last() == c);
            lemma_split_nonempty(pre);
        }
        if c == '\n' {
            let t = trimmed_line(&cur);
            lines.push(t);
            cur = Vec::new();
        } else {
            cur.push(c);
        }
        proof {
            let pieces = spec_split_newlines(raw@.subrange(0, i + 1));
            assert forall|k: int| 0 <= k < lines.len() implies #[trigger] lines@[k]@ == spec_trim_cr(pieces[k]) by {
            }
        }
    }
    let ghost pieces = spec_split_newlines(raw@);
    proof {
        assert(raw@.subrange(0, raw@.len() as int) =~= raw@);
        lemma_split_nonempty(raw@);
    }
    let t = trimmed_line(&cur);
    lines.push(t);
    let ghost trimmed = pieces.map_values(|l: Seq<char>| spec_trim_cr(l));
    proof {
        assert forall|k: int| 0 <= k < lines.len() implies #[trigger] lines@[k]@ == trimmed[k] by {}
    }
    let last = lines.len() - 1;
    if lines[last].as_str().is_empty() {
        lines.pop();
    }
    proof {
        let p = spec_parse_lines(raw@);
        assert forall|k: int| 0 <= k < lines.len() implies #[trigger] lines@[k]@ == p[k] by {}
    }
    lines
}

/// `n` rounded to the nearest multiple of 32 (halves up), at least 32.
pub open spec fn spec_round32(n: int) -> int {
    let r = ((n + 16) / 32) * 32;
    if r >= 32 { r } else { 32 }
}

/// Rounds a detection input side to the nearest multiple of 32 (the stride
/// of the detection network), at least 32.
pub fn round32(n: usize) -> (r: usize)
    requires
        n + 16 <= usize::MAX,
    ensures
        r == spec_round32(n as int),
{
    let r = ((n + 16) / 32) * 32;
    if r >= 32 { r } else { 32 }
}

/// Whether all four orientations must be tried: only when rotation search
/// is on and the upright reading found fewer than 8 confident regions.
pub fn needs_rotation_search(auto_rotate: bool, upright_score: usize) -> (search: bool)
    ensures
        search == (auto_rotate && upright_score < 8),
{
    auto_rotate && upright_score < 8
}

/// Rotation, in degrees, of the entry of `scores` (for 0, 90, 180 and 270
/// degrees) that is largest, the earliest one on ties.
pub open spec fn spec_best_rotation(scores: Seq<usize>) -> u32 {
    let best01 = if scores[1] > scores[0] { 1int } else { 0int };
    let best012 = if scores[2] > scores[best01] { 2int } else { best01 };
    let best = if scores[3] > scores[best012] { 3int } else { best012 };
    (best * 90) as u32
}

/// Picks the orientation whose reading scored highest: `scores` are for 0,
/// 90, 180 and 270 degrees; the upright reading wins ties, then the earlier
/// angle.
pub fn best_rotation(scores: [usize; 4]) -> (deg: u32)
    ensures
        deg == spec_best_rotation(scores@),
        deg == 0 || deg == 90 || deg == 180 || deg == 270,
        forall|i: int| 0 <= i < 4 ==> #[trigger] scores@[i] <= scores@[(deg / 90) as int],
        forall|i: int| 0 <= i < deg / 90 ==> #[trigger] scores@[i] < scores@[(deg / 90) as int],
{
    let mut best: usize = 0;
    let mut i: usize = 1;
    while i < 4
        invariant
            1 <= i <= 4,
            best < i,
            forall|j: int| 0 <= j < i ==> scores@[j] <= scores@[best as int],
            forall|j: int| 0 <= j < best ==> scores@[j] < scores@[best as int],
        decreases 4 - i,
    {
        if scores[i] > scores[best] {
            best = i;
        }
        i = i + 1;
    }
    let deg = (best as u32) * 90;
    proof {
        let s = scores@;
        let b01 = if s[1] > s[0] { 1int } else { 0int };
        let b012 = if s[2] > s[b01] { 2int } else { b01 };
        let b = if s[3] > s[b012] { 3int } else { b012 };
        assert(b == best);
    }
    deg
}

/// The label of class `i`: `labels[i]`, or `class_<i>` when the list is
/// shorter.
pub open spec fn spec_class_label(labels: Seq<String>, i: nat) -> Seq<char> {
    if i < labels.len() {
        labels[i as int]@
    } else {
        seq!['c', 'l', 'a', 's', 's', '_'] + spec_decimal(i)
    }
}

/// Name of class `i` for display.
pub fn class_label(labels: &Vec<String>, i: usize) -> (label: String)
    ensures
        label@ == spec_class_label(labels@, i as nat),
{
    if i < labels.len() {
        labels[i].clone()
    } else {
        proof {
            reveal_strlit("class_");
        }
        let mut s = String::new();
        s.append("class_");
        push_decimal(&mut s, i as u64);
        assert(s@ =~= spec_class_label(labels@, i as nat));
        s
    }
}

/// Shape an image input is pinned to: `[1, 3, in_h, in_w]` when the input
/// has rank 4 and at least one dimension not fixed (`None`), otherwise no
/// change.
pub open spec fn spec_pinned_dims(dims: Seq<Option<i64>>, in_h: usize, in_w: usize) -> Option<Seq<i64>> {
    if dims.len() == 4 && exists|i: int| 0 <= i < 4 && dims[i] is None {
        Some(seq![1i64, 3i64, in_h as i64, in_w as i64])
    } else {
        None
    }
}

/// The fixed shape for a model input whose dimensions are `dims` (`None`
/// for a symbolic dimension): image inputs of rank 4 with a dynamic
/// dimension are pinned to `[1, 3, in_h, in_w]`.
pub fn pinned_input_dims(dims: &Vec<Option<i64>>, in_h: usize, in_w: usize) -> (pinned: Option<Vec<i64>>)
    ensures
        pinned is Some <==> spec_pinned_dims(dims@, in_h, in_w) is Some,
        pinned is Some ==> pinned->0@ == spec_pinned_dims(dims@, in_h, in_w)->0,
{
    if dims.len() != 4 {
        return None;
    }
    let mut dynamic = false;
    let mut i: usize = 0;
    while i < 4
        invariant
            i <= 4,
            dims.len() == 4,
            dynamic == exists|j: int| 0 <= j < i && dims@[j] is None,
        decreases 4 - i,
    {
        if dims[i].is_none() {
            dynamic = true;
        }
        i = i + 1;
    }
    if dynamic {
        let mut v: Vec<i64> = Vec::new();
        v.push(1);
        v.push(3);
        v.push(in_h as i64);
        v.push(in_w as i64);
        assert(v@ =~= seq![1i64, 3i64, in_h as i64, in_w as i64]);
        Some(v)
    } else {
        None
    }
}

/// An input is pinned exactly when it has rank 4 and any one of its four
/// dimensions (batch, channels, height or width) is symbolic; it is then
/// pinned to `[1, 3, in_h, in_w]`. Fully fixed inputs and inputs of any
/// other rank are left alone.
pub proof fn lemma_pinned_when_any_dynamic(dims: Seq<Option<i64>>, in_h: usize, in_w: usize)
    ensures
        forall|i: int|
            0 <= i < 4 && dims.len() == 4 && #[trigger] dims[i] is None ==> spec_pinned_dims(dims, in_h, in_w)
                == Some(seq![1i64, 3i64, in_h as i64, in_w as i64]),
        (forall|i: int| 0 <= i < dims.len() ==> #[trigger] dims[i] is Some) ==> spec_pinned_dims(dims, in_h, in_w)
            is None,
        dims.len() != 4 ==> spec_pinned_dims(dims, in_h, in_w) is None,
{
    if forall|i: int| 0 <= i < dims.len() ==> #[trigger] dims[i] is Some {
        if dims.len() == 4 {
            assert(!(exists|i: int| 0 <= i < 4 && dims[i] is None));
        }
    }
}

} // verus!
